//! The history of a commit: the commit, its first parent, that commit's
//! first parent, and so on.

use crate::error::Error;
use crate::format::author_of;
use crate::format::field_of;
use crate::format::find_line;
use crate::format::first_parent;
use crate::format::join;
use crate::format::message_of;
use crate::format::split_commit;
use crate::refs::get_head_hash;
use crate::refs::resolve_head;
use crate::refs::resolve_target;
use crate::refs::resolve_target_of;
use crate::repo::RepoView;
use crate::repo::Repository;
use crate::store::cat_file;
use crate::store::read_object;
use crate::table::ByteSet;
use crate::text::ascii;
use crate::text::bytes_eq;
use crate::text::copy_range;
use crate::text::literal;
use vstd::prelude::*;
use vstd::slice::slice_to_vec;

verus! {

/// A commit as the history shows it.
#[derive(Debug)]
pub struct LogEntry {
    pub commit: Vec<u8>,
    pub author: Vec<u8>,
    pub message: Vec<u8>,
}

/// What an entry of the history holds.
pub struct LogEntryView {
    pub commit: Seq<u8>,
    pub author: Seq<u8>,
    pub message: Seq<u8>,
}

impl View for LogEntry {
    type V = LogEntryView;

    open spec fn view(&self) -> LogEntryView {
        LogEntryView { commit: self.commit@, author: self.author@, message: self.message@ }
    }
}

/// The views of a vector of entries.
pub open spec fn entry_views(v: Seq<LogEntry>) -> Seq<LogEntryView> {
    Seq::new(v.len(), |i: int| v[i]@)
}

/// The entry of the history for the commit `hash` with the text `content`.
pub open spec fn entry_of(hash: Seq<u8>, content: Seq<u8>) -> LogEntryView {
    LogEntryView { commit: hash, author: author_of(content), message: message_of(content) }
}

/// The history from `start` on, as long as no commit of `seen` comes up: an
/// entry for each commit, the youngest first. It ends at a commit without a
/// parent, and at a commit that was met before. A commit that cannot be read
/// makes the whole history fail.
pub open spec fn history(store: Map<Seq<u8>, Seq<u8>>, start: Seq<u8>, seen: Set<Seq<u8>>) -> Result<
    Seq<LogEntryView>,
    Error,
>
    decreases store.dom().difference(seen).len(),
    when store.dom().finite()
{
    if start.len() == 0 || seen.contains(start) {
        Ok(Seq::empty())
    } else {
        match read_object(store, start) {
            Err(e) => Err(e),
            Ok(content) => {
                proof {
                    assert(store.dom().difference(seen.insert(start)) =~= store.dom().difference(
                        seen,
                    ).remove(start));
                }
                extend(
                    seq![entry_of(start, content)],
                    history(store, first_parent(content), seen.insert(start)),
                )
            },
        }
    }
}

/// A history with `front` before it.
pub open spec fn extend(front: Seq<LogEntryView>, r: Result<Seq<LogEntryView>, Error>) -> Result<
    Seq<LogEntryView>,
    Error,
> {
    match r {
        Ok(rest) => Ok(front + rest),
        Err(e) => Err(e),
    }
}

/// The commit that a history begins at: the one that `HEAD` stands for
/// where the target is `HEAD`, else the one that the target names.
pub open spec fn log_start(refs: Map<Seq<u8>, Seq<u8>>, target: Seq<u8>) -> Result<Seq<u8>, Error> {
    if target == ascii("HEAD"@) {
        resolve_head(refs)
    } else {
        Ok(resolve_target(refs, target))
    }
}

/// What the history of `target` is.
pub open spec fn log_outcome(repo: RepoView, target: Seq<u8>) -> Result<Seq<LogEntryView>, Error> {
    match log_start(repo.refs, target) {
        Ok(start) => history(repo.objects, start, Set::empty()),
        Err(e) => Err(e),
    }
}

/// A result with its entries seen as values.
pub open spec fn log_view(r: Result<Vec<LogEntry>, Error>) -> Result<Seq<LogEntryView>, Error> {
    match r {
        Ok(entries) => Ok(entry_views(entries@)),
        Err(e) => Err(e),
    }
}

/// The history of `target`, which is `HEAD`, a branch or a commit's hash.
pub fn log(repo: &Repository, target: &[u8]) -> (r: Result<Vec<LogEntry>, Error>)
    ensures
        log_view(r) == log_outcome(repo@, target@),
{
    proof {
        reveal_strlit("HEAD");
    }
    let start = if bytes_eq(target, literal("HEAD")) {
        get_head_hash(&repo.refs)?
    } else {
        resolve_target_of(&repo.refs, target)
    };
    let ghost store = repo.objects@;
    // The store holds finitely many objects, which bounds the walk.
    let _stored: usize = repo.objects.len();
    let mut entries: Vec<LogEntry> = Vec::new();
    let mut seen = ByteSet::new();
    let mut current = start;
    assert(entry_views(entries@) =~= Seq::<LogEntryView>::empty());
    assert(Seq::<LogEntryView>::empty() + history(store, current@, seen@)->Ok_0 =~= history(
        store,
        current@,
        seen@,
    )->Ok_0);
    while current.len() != 0 && !seen.contains(current.as_slice())
        invariant
            store == repo.objects@,
            store.dom().finite(),
            log_outcome(repo@, target@) == extend(
                entry_views(entries@),
                history(store, current@, seen@),
            ),
        decreases store.dom().difference(seen@).len(),
    {
        let content = cat_file(&repo.objects, current.as_slice())?;
        let (header, body) = split_commit(content.as_slice());
        let ghost front = entry_views(entries@);
        let ghost seen_before = seen@;
        let ghost here = current@;
        proof {
            reveal_strlit("parent ");
            reveal_strlit("author ");
            reveal_strlit("unknown author");
        }
        let prefix = literal("author ");
        let author = match find_line(&header, prefix) {
            Some(line) => copy_range(line.as_slice(), prefix.len(), line.len()),
            None => slice_to_vec(literal("unknown author")),
        };
        let entry = LogEntry { commit: current.clone(), author, message: join(&body) };
        let next = match field_of(&header, literal("parent ")) {
            Some(parent) => parent,
            None => Vec::new(),
        };
        seen.insert(current);
        entries.push(entry);
        current = next;
        proof {
            assert(store.dom().difference(seen@) =~= store.dom().difference(seen_before).remove(
                here,
            ));
            assert(entry_views(entries@) =~= front + seq![entry_of(here, content@)]);
            let rest = history(store, current@, seen@);
            assert(history(store, here, seen_before) == extend(
                seq![entry_of(here, content@)],
                rest,
            ));
            if rest is Ok {
                assert(front + (seq![entry_of(here, content@)] + rest->Ok_0) =~= entry_views(
                    entries@,
                ) + rest->Ok_0);
            }
        }
    }
    assert(entry_views(entries@) + Seq::<LogEntryView>::empty() =~= entry_views(entries@));
    Ok(entries)
}

} // verus!
