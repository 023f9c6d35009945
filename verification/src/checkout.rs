//! Checking out: making the working directory hold the files of a commit.
//!
//! The working directory is a `ByteMap` from the name of each entry to its
//! contents. A checkout first removes every entry but the repository's own
//! directory and then writes the files of the commit's tree one by one. It
//! is not undone where it fails halfway: the working directory then holds
//! the files written so far.

use crate::error::Error;
use crate::format::commit_text;
use crate::format::field_of;
use crate::format::first_parent;
use crate::format::split_commit;
use crate::format::tree_line;
use crate::format::tree_of_commit;
use crate::format::tree_text;
use crate::readback::all_words;
use crate::readback::lemma_commit_fields;
use crate::readback::lemma_tree_line_words;
use crate::readback::lemma_tree_lines;
use crate::refs::branch_ref;
use crate::refs::branch_ref_of;
use crate::refs::resolve_target;
use crate::refs::resolve_target_of;
use crate::refs::symbolic_ref;
use crate::refs::update_ref;
use crate::repo::RepoView;
use crate::repo::Repository;
use crate::store::cat_file;
use crate::store::read_object;
use crate::table::distinct_keys;
use crate::table::has_key;
use crate::table::key_index;
use crate::table::lemma_entry_at;
use crate::table::lemma_has_key_take;
use crate::table::ByteMap;
use crate::table::ByteSet;
use crate::table::Entry;
use crate::text::ascii;
use crate::text::bytes_eq;
use crate::text::is_word;
use crate::text::lines;
use crate::text::literal;
use crate::text::split_lines;
use crate::text::split_tokens;
use crate::text::tokens;
use crate::text::views;
use crate::text::NEWLINE;
use vstd::prelude::*;
use vstd::slice::slice_to_vec;

verus! {

/// The working directory with nothing left in it but the repository's own
/// directory.
pub open spec fn cleared(work: Map<Seq<u8>, Seq<u8>>) -> Map<Seq<u8>, Seq<u8>> {
    work.restrict(set![ascii(".rgit"@)])
}

/// Removes every entry of the working directory but the repository's own
/// directory.
pub fn clear_working_directory(work: &mut ByteMap)
    ensures
        final(work)@ == cleared(old(work)@),
{
    proof {
        reveal_strlit(".rgit");
    }
    let name = literal(".rgit");
    let mut kept = ByteMap::new();
    match work.get(name) {
        Some(contents) => {
            kept.insert(slice_to_vec(name), contents.clone());
        },
        None => {},
    }
    assert(kept@ =~= cleared(work@));
    *work = kept;
}

/// What writing the files of a tree's lines does, from the first line on:
/// the outcome, and the working directory afterwards. A line of four words
/// or more whose second is `blob` names a file by its fourth word and the
/// file's blob by its third; other lines are passed over. The first blob that
/// cannot be read ends the writing.
pub open spec fn restore_lines(
    store: Map<Seq<u8>, Seq<u8>>,
    ls: Seq<Seq<u8>>,
    work: Map<Seq<u8>, Seq<u8>>,
) -> (Result<(), Error>, Map<Seq<u8>, Seq<u8>>)
    decreases ls.len(),
{
    if ls.len() == 0 {
        (Ok(()), work)
    } else {
        let words = tokens(ls[0]);
        if words.len() >= 4 && words[1] == ascii("blob"@) {
            match read_object(store, words[2]) {
                Ok(contents) => restore_lines(
                    store,
                    ls.drop_first(),
                    work.insert(words[3], contents),
                ),
                Err(e) => (Err(e), work),
            }
        } else {
            restore_lines(store, ls.drop_first(), work)
        }
    }
}

/// What writing the files of the tree `tree_hash` does.
pub open spec fn restore(
    store: Map<Seq<u8>, Seq<u8>>,
    tree_hash: Seq<u8>,
    work: Map<Seq<u8>, Seq<u8>>,
) -> (Result<(), Error>, Map<Seq<u8>, Seq<u8>>) {
    match read_object(store, tree_hash) {
        Ok(content) => restore_lines(store, lines(content), work),
        Err(e) => (Err(e), work),
    }
}

/// Writes the files of the tree `tree_hash` into the working directory.
/// Trees within the tree are not descended into.
pub fn restore_tree(store: &ByteMap, tree_hash: &[u8], work: &mut ByteMap) -> (r: Result<
    (),
    Error,
>)
    ensures
        (r, final(work)@) == restore(store@, tree_hash@, old(work)@),
{
    let content = cat_file(store, tree_hash)?;
    let ls = split_lines(content.as_slice());
    let ghost lv = views(ls@);
    let ghost start = work@;
    let mut i: usize = 0;
    assert(lv.skip(0) =~= lv);
    while i < ls.len()
        invariant
            i <= ls.len(),
            lv == views(ls@),
            start == old(work)@,
            restore(store@, tree_hash@, start) == restore_lines(store@, lv, start),
            restore_lines(store@, lv, start) == restore_lines(store@, lv.skip(i as int), work@),
        decreases ls.len() - i,
    {
        proof {
            reveal_strlit("blob");
            assert(lv.skip(i as int)[0] == lv[i as int]);
            assert(lv.skip(i as int).drop_first() =~= lv.skip(i + 1));
        }
        let words = split_tokens(ls[i].as_slice());
        if words.len() >= 4 && bytes_eq(words[1].as_slice(), literal("blob")) {
            match cat_file(store, words[2].as_slice()) {
                Ok(contents) => {
                    work.insert(words[3].clone(), contents);
                },
                Err(e) => {
                    return Err(e);
                },
            }
        }
        i += 1;
    }
    Ok(())
}

/// What `HEAD` holds after a checkout of `target`: where `target` names a
/// branch `HEAD` follows the branch, else it holds the commit.
pub open spec fn head_after_checkout(refs: Map<Seq<u8>, Seq<u8>>, target: Seq<u8>) -> Seq<u8> {
    if refs.contains_key(branch_ref(target)) {
        ascii("ref: "@) + branch_ref(target)
    } else {
        target
    }
}

/// What a checkout does: the outcome, the references and the working
/// directory afterwards.
///
/// The commit is read first; where it cannot be read, or names no tree,
/// nothing changes. Then the working directory is cleared and the files of
/// the tree are written. Only when all are written is `HEAD` moved.
pub open spec fn checkout_outcome(repo: RepoView, work: Map<Seq<u8>, Seq<u8>>, target: Seq<u8>) -> (
    Result<(), Error>,
    Map<Seq<u8>, Seq<u8>>,
    Map<Seq<u8>, Seq<u8>>,
) {
    match read_object(repo.objects, resolve_target(repo.refs, target)) {
        Err(e) => (Err(e), repo.refs, work),
        Ok(content) => match tree_of_commit(content) {
            None => (Err(Error::MalformedObject), repo.refs, work),
            Some(tree) => {
                let (restored, files) = restore(repo.objects, tree, cleared(work));
                match restored {
                    Err(e) => (Err(e), repo.refs, files),
                    Ok(_) => (
                        Ok(()),
                        repo.refs.insert(ascii("HEAD"@), head_after_checkout(repo.refs, target)),
                        files,
                    ),
                }
            },
        },
    }
}

/// Makes the working directory hold the files of `target`, a branch or a
/// commit's hash, and moves `HEAD` there.
pub fn checkout(repo: &mut Repository, work: &mut ByteMap, target: &[u8]) -> (r: Result<(), Error>)
    ensures
        (r, final(repo)@.refs, final(work)@) == checkout_outcome(old(repo)@, old(work)@, target@),
        final(repo)@.objects == old(repo)@.objects,
        final(repo)@.index == old(repo)@.index,
{
    proof {
        reveal_strlit("tree ");
        reveal_strlit("HEAD");
    }
    let commit_hash = resolve_target_of(&repo.refs, target);
    let content = cat_file(&repo.objects, commit_hash.as_slice())?;
    let (header, _) = split_commit(content.as_slice());
    let tree_hash = match field_of(&header, literal("tree ")) {
        Some(tree) => tree,
        None => {
            return Err(Error::MalformedObject);
        },
    };
    clear_working_directory(work);
    restore_tree(&repo.objects, tree_hash.as_slice(), work)?;
    let branch = branch_ref_of(target);
    if repo.refs.contains_key(branch.as_slice()) {
        symbolic_ref(&mut repo.refs, literal("HEAD"), branch.as_slice());
    } else {
        update_ref(&mut repo.refs, literal("HEAD"), commit_hash.as_slice());
    }
    Ok(())
}

/// The trees of the commits from `start` back along the first parents, as
/// long as no commit of `seen` comes up: the tree of the youngest commit
/// first. A commit that cannot be read, or that names no tree, makes the
/// whole fail.
pub open spec fn trees_of_history(
    store: Map<Seq<u8>, Seq<u8>>,
    start: Seq<u8>,
    seen: Set<Seq<u8>>,
) -> Result<Seq<Seq<u8>>, Error>
    decreases store.dom().difference(seen).len(),
    when store.dom().finite()
{
    if start.len() == 0 || seen.contains(start) {
        Ok(Seq::empty())
    } else {
        match read_object(store, start) {
            Err(e) => Err(e),
            Ok(content) => match tree_of_commit(content) {
                None => Err(Error::MalformedObject),
                Some(tree) => {
                    proof {
                        assert(store.dom().difference(seen.insert(start))
                            =~= store.dom().difference(seen).remove(start));
                    }
                    match trees_of_history(store, first_parent(content), seen.insert(start)) {
                        Ok(rest) => Ok(seq![tree] + rest),
                        Err(e) => Err(e),
                    }
                },
            },
        }
    }
}

/// What writing the files of the trees does, the last of them first: the
/// outcome, and the working directory afterwards. The first tree that cannot
/// be written in full ends the writing.
pub open spec fn restore_all(
    store: Map<Seq<u8>, Seq<u8>>,
    trees: Seq<Seq<u8>>,
    work: Map<Seq<u8>, Seq<u8>>,
) -> (Result<(), Error>, Map<Seq<u8>, Seq<u8>>)
    decreases trees.len(),
{
    if trees.len() == 0 {
        (Ok(()), work)
    } else {
        let (written, files) = restore(store, trees.last(), work);
        match written {
            Ok(_) => restore_all(store, trees.drop_last(), files),
            Err(e) => (Err(e), files),
        }
    }
}

/// What a checkout that replays the history does: the outcome, the
/// references and the working directory afterwards.
///
/// The commits from the target back along the first parents are read first;
/// where one cannot be read, or names no tree, nothing changes. Then the
/// working directory is cleared and the files of each commit's tree are
/// written over it, the oldest commit first. Only when all are written is
/// `HEAD` moved.
pub open spec fn replay_outcome(repo: RepoView, work: Map<Seq<u8>, Seq<u8>>, target: Seq<u8>) -> (
    Result<(), Error>,
    Map<Seq<u8>, Seq<u8>>,
    Map<Seq<u8>, Seq<u8>>,
) {
    match trees_of_history(repo.objects, resolve_target(repo.refs, target), Set::empty()) {
        Err(e) => (Err(e), repo.refs, work),
        Ok(trees) => {
            let (restored, files) = restore_all(repo.objects, trees, cleared(work));
            match restored {
                Err(e) => (Err(e), repo.refs, files),
                Ok(_) => (
                    Ok(()),
                    repo.refs.insert(ascii("HEAD"@), head_after_checkout(repo.refs, target)),
                    files,
                ),
            }
        },
    }
}

/// A history of trees with `front` before it.
pub open spec fn after_trees(front: Seq<Seq<u8>>, r: Result<Seq<Seq<u8>>, Error>) -> Result<
    Seq<Seq<u8>>,
    Error,
> {
    match r {
        Ok(rest) => Ok(front + rest),
        Err(e) => Err(e),
    }
}

/// Makes the working directory hold the files of the whole history of
/// `target`, a branch or a commit's hash: the trees of the commits are
/// written one over the other, from the oldest commit to `target` itself.
/// `HEAD` is moved as in a plain checkout.
pub fn checkout_replay(repo: &mut Repository, work: &mut ByteMap, target: &[u8]) -> (r: Result<
    (),
    Error,
>)
    ensures
        (r, final(repo)@.refs, final(work)@) == replay_outcome(old(repo)@, old(work)@, target@),
        final(repo)@.objects == old(repo)@.objects,
        final(repo)@.index == old(repo)@.index,
{
    proof {
        reveal_strlit("HEAD");
    }
    let commit_hash = resolve_target_of(&repo.refs, target);
    let ghost store = repo.objects@;
    // The store holds finitely many objects, which bounds the walk.
    let _stored: usize = repo.objects.len();
    let mut trees: Vec<Vec<u8>> = Vec::new();
    let mut seen = ByteSet::new();
    let mut current = commit_hash.clone();
    assert(views(trees@) =~= Seq::<Seq<u8>>::empty());
    assert(Seq::<Seq<u8>>::empty() + trees_of_history(store, current@, seen@)->Ok_0
        =~= trees_of_history(store, current@, seen@)->Ok_0);
    while current.len() != 0 && !seen.contains(current.as_slice())
        invariant
            store == repo.objects@,
            store.dom().finite(),
            *repo == *old(repo),
            *work == *old(work),
            commit_hash@ == resolve_target(old(repo)@.refs, target@),
            trees_of_history(store, commit_hash@, Set::empty()) == after_trees(
                views(trees@),
                trees_of_history(store, current@, seen@),
            ),
        decreases store.dom().difference(seen@).len(),
    {
        proof {
            reveal_strlit("tree ");
            reveal_strlit("parent ");
        }
        let content = cat_file(&repo.objects, current.as_slice())?;
        let (header, _) = split_commit(content.as_slice());
        let tree = match field_of(&header, literal("tree ")) {
            Some(tree) => tree,
            None => {
                return Err(Error::MalformedObject);
            },
        };
        let next = match field_of(&header, literal("parent ")) {
            Some(parent) => parent,
            None => Vec::new(),
        };
        let ghost front = views(trees@);
        let ghost seen_before = seen@;
        let ghost here = current@;
        seen.insert(current);
        trees.push(tree);
        current = next;
        proof {
            assert(store.dom().difference(seen@) =~= store.dom().difference(seen_before).remove(
                here,
            ));
            let named = tree_of_commit(content@)->0;
            assert(views(trees@) =~= front + seq![named]);
            let rest = trees_of_history(store, current@, seen@);
            assert(trees_of_history(store, here, seen_before) == after_trees(seq![named], rest));
            if rest is Ok {
                assert(front + (seq![named] + rest->Ok_0) =~= views(trees@) + rest->Ok_0);
            }
        }
    }
    assert(views(trees@) + Seq::<Seq<u8>>::empty() =~= views(trees@));
    clear_working_directory(work);
    let ghost all = views(trees@);
    let ghost cleared_work = work@;
    let mut i: usize = trees.len();
    assert(all.take(i as int) =~= all);
    while i > 0
        invariant
            i <= trees.len(),
            all == views(trees@),
            *repo == *old(repo),
            commit_hash@ == resolve_target(old(repo)@.refs, target@),
            trees_of_history(repo.objects@, commit_hash@, Set::empty()) == Ok::<
                Seq<Seq<u8>>,
                Error,
            >(all),
            cleared_work == cleared(old(work)@),
            restore_all(repo.objects@, all, cleared_work) == restore_all(
                repo.objects@,
                all.take(i as int),
                work@,
            ),
        decreases i,
    {
        i -= 1;
        proof {
            assert(all.take(i + 1).last() == all[i as int]);
            assert(all.take(i + 1).drop_last() =~= all.take(i as int));
        }
        restore_tree(&repo.objects, trees[i].as_slice(), work)?;
    }
    let branch = branch_ref_of(target);
    if repo.refs.contains_key(branch.as_slice()) {
        symbolic_ref(&mut repo.refs, literal("HEAD"), branch.as_slice());
    } else {
        update_ref(&mut repo.refs, literal("HEAD"), commit_hash.as_slice());
    }
    Ok(())
}

/// A replay of a commit without a parent is a plain checkout of it.
pub proof fn lemma_replay_of_first_commit(
    repo: RepoView,
    work: Map<Seq<u8>, Seq<u8>>,
    target: Seq<u8>,
    content: Seq<u8>,
)
    requires
        repo.objects.dom().finite(),
        resolve_target(repo.refs, target).len() > 0,
        read_object(repo.objects, resolve_target(repo.refs, target)) == Ok::<Seq<u8>, Error>(
            content,
        ),
        first_parent(content).len() == 0,
    ensures
        replay_outcome(repo, work, target) == checkout_outcome(repo, work, target),
{
    let commit = resolve_target(repo.refs, target);
    let rest = trees_of_history(repo.objects, first_parent(content), Set::empty().insert(commit));
    assert(rest == Ok::<Seq<Seq<u8>>, Error>(Seq::empty()));
    if tree_of_commit(content) is Some {
        let tree = tree_of_commit(content)->0;
        let trees = seq![tree];
        assert(seq![tree] + Seq::<Seq<u8>>::empty() =~= trees);
        assert(trees_of_history(repo.objects, commit, Set::empty()) == Ok::<
            Seq<Seq<u8>>,
            Error,
        >(trees));
        assert(trees.last() == tree);
        assert(trees.drop_last() =~= Seq::<Seq<u8>>::empty());
        let (written, files) = restore(repo.objects, tree, cleared(work));
        assert(restore_all(repo.objects, Seq::<Seq<u8>>::empty(), files) == (
            Ok::<(), Error>(()),
            files,
        ));
    }
}

/// The entries that must be written to turn `before` into `after`: those of
/// `after` that `before` lacks or holds with other contents.
pub open spec fn changed(
    before: Map<Seq<u8>, Seq<u8>>,
    after: Map<Seq<u8>, Seq<u8>>,
) -> Map<Seq<u8>, Seq<u8>> {
    Map::new(
        |k: Seq<u8>| after.contains_key(k) && !(before.contains_key(k) && before[k] == after[k]),
        |k: Seq<u8>| after[k],
    )
}

/// The names that must be removed to turn the working directory `before`
/// into `after`: those that `after` lacks.
pub fn removed_names(before: &ByteMap, after: &ByteMap) -> (names: ByteSet)
    ensures
        names@ == before@.dom().difference(after@.dom()),
{
    let mut names = ByteSet::new();
    let n = before.len();
    let ghost es = before.entries();
    let mut i: usize = 0;
    while i < n
        invariant
            i <= n,
            n == es.len(),
            es == before.entries(),
            distinct_keys(es),
            forall|q: Seq<u8>|
                names@.contains(q) <==> has_key(es.take(i as int), q) && !after@.contains_key(q),
        decreases n - i,
    {
        let name = before.key_at(i);
        let ghost names_before = names@;
        if !after.contains_key(name.as_slice()) {
            names.insert(name.clone());
        }
        proof {
            assert forall|q: Seq<u8>|
                names@.contains(q) <==> has_key(es.take(i + 1), q) && !after@.contains_key(q) by {
                lemma_has_key_take(es, i as int, q);
                assert(names_before.contains(q) <==> has_key(es.take(i as int), q)
                    && !after@.contains_key(q));
            }
        }
        i += 1;
    }
    proof {
        assert(es.take(i as int) =~= es);
        assert(names@ =~= before@.dom().difference(after@.dom()));
    }
    names
}

/// The files that must be written to turn the working directory `before`
/// into `after`.
pub fn changed_files(before: &ByteMap, after: &ByteMap) -> (files: ByteMap)
    ensures
        files@ == changed(before@, after@),
{
    let mut files = ByteMap::new();
    let n = after.len();
    let ghost es = after.entries();
    let mut i: usize = 0;
    while i < n
        invariant
            i <= n,
            n == es.len(),
            es == after.entries(),
            distinct_keys(es),
            forall|q: Seq<u8>| #[trigger]
                files@.contains_key(q) <==> has_key(es.take(i as int), q) && !(
                before@.contains_key(q) && before@[q] == after@[q]),
            forall|q: Seq<u8>| #[trigger] files@.contains_key(q) ==> files@[q] == after@[q],
        decreases n - i,
    {
        let name = after.key_at(i);
        let contents = after.value_at(i);
        let same = match before.get(name.as_slice()) {
            Some(old) => bytes_eq(old.as_slice(), contents.as_slice()),
            None => false,
        };
        let ghost files_before = files@;
        if !same {
            files.insert(name.clone(), contents.clone());
        }
        proof {
            lemma_entry_at(es, i as int);
            assert(after@[name@] == contents@);
            assert(same <==> before@.contains_key(name@) && before@[name@] == after@[name@]);
            assert forall|q: Seq<u8>| #[trigger]
                files@.contains_key(q) <==> has_key(es.take(i + 1), q) && !(before@.contains_key(q)
                    && before@[q] == after@[q]) by {
                lemma_has_key_take(es, i as int, q);
                assert(files_before.contains_key(q) <==> has_key(es.take(i as int), q) && !(
                before@.contains_key(q) && before@[q] == after@[q]));
            }
            assert forall|q: Seq<u8>| #[trigger] files@.contains_key(q) implies files@[q]
                == after@[q] by {
                if q != name@ {
                    assert(files_before.contains_key(q));
                }
            }
        }
        i += 1;
    }
    proof {
        assert(es.take(i as int) =~= es);
        assert(files@ =~= changed(before@, after@));
    }
    files
}

/// Removing the names that are gone and writing the files that changed
/// turns `before` into `after`.
pub proof fn lemma_changes_lead_to(before: Map<Seq<u8>, Seq<u8>>, after: Map<Seq<u8>, Seq<u8>>)
    ensures
        before.remove_keys(before.dom().difference(after.dom())).union_prefer_right(
            changed(before, after),
        ) == after,
{
    assert(before.remove_keys(before.dom().difference(after.dom())).union_prefer_right(
        changed(before, after),
    ) =~= after);
}

/// The working directory with a file written for each of the entries, in
/// their order: the file has the entry's path and the contents of its blob.
pub open spec fn with_files(
    store: Map<Seq<u8>, Seq<u8>>,
    es: Seq<Entry>,
    work: Map<Seq<u8>, Seq<u8>>,
) -> Map<Seq<u8>, Seq<u8>>
    decreases es.len(),
{
    if es.len() == 0 {
        work
    } else {
        with_files(
            store,
            es.drop_first(),
            work.insert(es[0].0, read_object(store, es[0].1)->Ok_0),
        )
    }
}

/// Every blob of the entries can be read.
pub open spec fn all_readable(store: Map<Seq<u8>, Seq<u8>>, es: Seq<Entry>) -> bool {
    forall|i: int| 0 <= i < es.len() ==> read_object(store, (#[trigger] es[i]).1) is Ok
}

/// Writing the files of the lines of index entries writes the staged files.
proof fn lemma_restore_tree_lines(
    store: Map<Seq<u8>, Seq<u8>>,
    es: Seq<Entry>,
    work: Map<Seq<u8>, Seq<u8>>,
)
    requires
        all_words(es),
        all_readable(store, es),
    ensures
        restore_lines(store, es.map_values(|e: Entry| tree_line(e)), work) == (
            Ok::<(), Error>(()),
            with_files(store, es, work),
        ),
    decreases es.len(),
{
    let ls = es.map_values(|e: Entry| tree_line(e));
    if es.len() > 0 {
        let rest = es.drop_first();
        assert forall|i: int| 0 <= i < rest.len() implies is_word((#[trigger] rest[i]).0)
            && is_word(rest[i].1) && read_object(store, rest[i].1) is Ok by {
            assert(rest[i] == es[i + 1]);
        }
        lemma_tree_line_words(es[0]);
        assert(ls[0] == tree_line(es[0]));
        assert(ls.drop_first() =~= rest.map_values(|e: Entry| tree_line(e)));
        lemma_restore_tree_lines(
            store,
            rest,
            work.insert(es[0].0, read_object(store, es[0].1)->Ok_0),
        );
    }
}

/// Writing the files of the tree of an index writes the staged files: for
/// each entry, the contents of its blob under its path.
pub proof fn lemma_restore_writes_staged_files(
    store: Map<Seq<u8>, Seq<u8>>,
    tree_hash: Seq<u8>,
    es: Seq<Entry>,
    work: Map<Seq<u8>, Seq<u8>>,
)
    requires
        read_object(store, tree_hash) == Ok::<Seq<u8>, Error>(tree_text(es)),
        all_words(es),
        all_readable(store, es),
    ensures
        restore(store, tree_hash, work) == (Ok::<(), Error>(()), with_files(store, es, work)),
{
    lemma_tree_lines(es);
    lemma_restore_tree_lines(store, es, work);
}

/// What the working directory holds once the files of entries with distinct
/// paths are written: under the path of each entry the contents of its blob,
/// and what it held before under every other name.
pub proof fn lemma_with_files(
    store: Map<Seq<u8>, Seq<u8>>,
    es: Seq<Entry>,
    work: Map<Seq<u8>, Seq<u8>>,
)
    requires
        distinct_keys(es),
    ensures
        forall|k: Seq<u8>| #[trigger]
            with_files(store, es, work).contains_key(k) <==> work.contains_key(k) || has_key(es, k),
        forall|i: int|
            0 <= i < es.len() ==> with_files(store, es, work).contains_key((#[trigger] es[i]).0)
                && with_files(store, es, work)[es[i].0] == read_object(store, es[i].1)->Ok_0,
        forall|k: Seq<u8>|
            work.contains_key(k) && !has_key(es, k) ==> #[trigger] with_files(store, es, work)[k]
                == work[k],
    decreases es.len(),
{
    let after = with_files(store, es, work);
    if es.len() == 0 {
        assert forall|k: Seq<u8>| !has_key(es, k) by {}
    } else {
        let rest = es.drop_first();
        let path = es[0].0;
        let contents = read_object(store, es[0].1)->Ok_0;
        let next = work.insert(path, contents);
        assert(after == with_files(store, rest, next));
        assert forall|i: int, j: int| 0 <= i < j < rest.len() implies (#[trigger] rest[i]).0 != (
        #[trigger] rest[j]).0 by {
            assert(rest[i] == es[i + 1] && rest[j] == es[j + 1]);
        }
        lemma_with_files(store, rest, next);
        assert(!has_key(rest, path)) by {
            if has_key(rest, path) {
                let j = key_index(rest, path);
                assert(rest[j] == es[j + 1]);
                assert(es[0].0 != es[j + 1].0);
            }
        }
        assert forall|k: Seq<u8>| has_key(es, k) <==> k == path || has_key(rest, k) by {
            if has_key(es, k) {
                let i = key_index(es, k);
                if i > 0 {
                    assert(rest[i - 1].0 == k);
                }
            }
            if has_key(rest, k) {
                let j = key_index(rest, k);
                assert(es[j + 1].0 == k);
            }
            if k == path {
                assert(es[0].0 == k);
            }
        }
        assert forall|k: Seq<u8>| #[trigger]
            after.contains_key(k) <==> work.contains_key(k) || has_key(es, k) by {
            assert(with_files(store, rest, next).contains_key(k) <==> next.contains_key(k)
                || has_key(rest, k));
        }
        assert(next.contains_key(path) && next[path] == contents);
        assert(with_files(store, rest, next)[path] == next[path]);
        assert forall|i: int| 0 <= i < es.len() implies after.contains_key((#[trigger] es[i]).0)
            && after[es[i].0] == read_object(store, es[i].1)->Ok_0 by {
            assert(has_key(es, es[i].0));
            if i > 0 {
                assert(rest[i - 1] == es[i]);
                assert(with_files(store, rest, next)[rest[i - 1].0] == read_object(
                    store,
                    rest[i - 1].1,
                )->Ok_0);
            }
        }
        assert forall|k: Seq<u8>| work.contains_key(k) && !has_key(es, k) implies #[trigger] after[k]
            == work[k] by {
            assert(k != path);
            assert(next.contains_key(k) && !has_key(rest, k));
            assert(with_files(store, rest, next)[k] == next[k]);
        }
    }
}

/// A checkout of a commit that was built from an index restores the staged
/// files: where the commit, its tree and the blobs of the entries can be
/// read and no branch bears the commit's hash as its name, the working
/// directory is cleared, the staged files are written, and `HEAD` holds the
/// commit.
pub proof fn lemma_checkout_restores_commit(
    repo: RepoView,
    work: Map<Seq<u8>, Seq<u8>>,
    commit: Seq<u8>,
    message: Seq<u8>,
    author: Seq<u8>,
    tree: Seq<u8>,
    parent: Option<Seq<u8>>,
    es: Seq<Entry>,
)
    requires
        !repo.refs.contains_key(branch_ref(commit)),
        read_object(repo.objects, commit) == Ok::<Seq<u8>, Error>(
            commit_text(message, author, tree, parent),
        ),
        is_word(tree),
        !author.contains(NEWLINE),
        parent matches Some(p) ==> is_word(p),
        read_object(repo.objects, tree) == Ok::<Seq<u8>, Error>(tree_text(es)),
        all_words(es),
        all_readable(repo.objects, es),
    ensures
        checkout_outcome(repo, work, commit) == (
            Ok::<(), Error>(()),
            repo.refs.insert(ascii("HEAD"@), commit),
            with_files(repo.objects, es, cleared(work)),
        ),
{
    lemma_commit_fields(message, author, tree, parent);
    lemma_restore_writes_staged_files(repo.objects, tree, es, cleared(work));
}

} // verus!
