//! The files of a repository: under which path each part of it is kept, and
//! which repository a set of files stands for.
//!
//! Paths are relative to the repository's directory, with `/` between their
//! parts. An object lies under `objects/`, in a directory named by the first
//! two bytes of its hash and a file named by the rest. The index is the file
//! `index`. Every other file is a reference, `HEAD` among them, under its
//! name.

use crate::index::index_text;
use crate::index::lemma_index_round_trip;
use crate::index::parse_index;
use crate::index::read_index;
use crate::index::write_index;
use crate::repo::Repository;
use crate::store::file_path;
use crate::store::object_path;
use crate::table::distinct_keys;
use crate::table::entries_map;
use crate::table::has_key;
use crate::table::key_index;
use crate::table::lemma_entry_at;
use crate::table::lemma_has_key_take;
use crate::table::ByteMap;
use crate::table::Entry;
use crate::text::ascii;
use crate::text::bytes_eq;
use crate::text::copy_range;
use crate::text::is_word;
use crate::text::lines;
use crate::text::literal;
use crate::text::starts_with;
use crate::text::views;
use vstd::prelude::*;
use vstd::slice::slice_to_vec;

verus! {

/// The byte between the parts of a path.
pub const SLASH: u8 = 47;

/// A hash that names an object's file: three bytes or more, none of them a
/// slash.
pub open spec fn is_object_name(hash: Seq<u8>) -> bool {
    hash.len() >= 3 && !hash.contains(SLASH)
}

/// The path of the object `hash`.
pub open spec fn object_file(hash: Seq<u8>) -> Seq<u8> {
    ascii("objects/"@) + hash.take(2) + seq![SLASH] + hash.skip(2)
}

/// Whether the file at `path` is a reference: it is not the index, and does
/// not lie under `objects/`.
pub open spec fn is_ref_file(path: Seq<u8>) -> bool {
    path != ascii("index"@) && !ascii("objects/"@).is_prefix_of(path)
}

/// The path of the object `hash`.
pub fn object_file_of(hash: &[u8]) -> (path: Vec<u8>)
    requires
        hash@.len() >= 2,
    ensures
        path@ == object_file(hash@),
{
    proof {
        reveal_strlit("objects/");
    }
    let mut path = slice_to_vec(literal("objects/"));
    path.extend_from_slice(copy_range(hash, 0, 2).as_slice());
    path.push(SLASH);
    path.extend_from_slice(copy_range(hash, 2, hash.len()).as_slice());
    assert(path@ =~= object_file(hash@));
    path
}

/// The directories that every repository has, empty or not.
pub fn repository_directories() -> (names: Vec<Vec<u8>>)
    ensures
        views(names@) == seq![ascii("objects"@), ascii("refs"@)],
{
    proof {
        reveal_strlit("objects");
        reveal_strlit("refs");
    }
    let mut names: Vec<Vec<u8>> = Vec::new();
    names.push(slice_to_vec(literal("objects")));
    names.push(slice_to_vec(literal("refs")));
    assert(views(names@) =~= seq![ascii("objects"@), ascii("refs"@)]);
    names
}

/// The path of an object below the working directory is the path of its
/// file below the repository's directory.
pub proof fn lemma_object_path(root: Seq<u8>, hash: Seq<u8>)
    ensures
        object_path(root, hash) == file_path(root, object_file(hash)),
{
    reveal_strlit("/objects/");
    reveal_strlit("objects/");
    reveal_strlit("/");
    assert(ascii("/objects/"@) =~= ascii("/"@) + ascii("objects/"@));
    assert(ascii("/"@) =~= seq![SLASH]);
    assert(object_path(root, hash) =~= file_path(root, object_file(hash)));
}

/// Whether `s` has a slash in it from `start` on.
fn has_slash_from(s: &[u8], start: usize) -> (r: bool)
    requires
        start <= s.len(),
    ensures
        r == s@.skip(start as int).contains(SLASH),
{
    let mut i: usize = start;
    while i < s.len()
        invariant
            start <= i <= s.len(),
            forall|j: int| start <= j < i ==> s@[j] != SLASH,
        decreases s.len() - i,
    {
        if s[i] == SLASH {
            assert(s@.skip(start as int)[i - start] == SLASH);
            return true;
        }
        i += 1;
    }
    proof {
        let t = s@.skip(start as int);
        if t.contains(SLASH) {
            let j = choose|j: int| 0 <= j < t.len() && t[j] == SLASH;
            assert(s@[start + j] == SLASH);
        }
    }
    false
}

/// The hash of the object that lies at `path`, if an object lies there.
pub fn object_of_file(path: &[u8]) -> (r: Option<Vec<u8>>)
    ensures
        match r {
            Some(hash) => is_object_name(hash@) && object_file(hash@) == path@,
            None => forall|hash: Seq<u8>| is_object_name(hash) ==> object_file(hash) != path@,
        },
{
    proof {
        reveal_strlit("objects/");
    }
    let prefix = literal("objects/");
    let fits = starts_with(path, prefix) && path.len() >= 12 && path[8] != SLASH && path[9]
        != SLASH && path[10] == SLASH && !has_slash_from(path, 11);
    if fits {
        let mut hash = copy_range(path, 8, 10);
        hash.extend_from_slice(copy_range(path, 11, path.len()).as_slice());
        proof {
            let h = hash@;
            assert(h.take(2) =~= path@.subrange(8, 10));
            assert(h.skip(2) =~= path@.skip(11));
            assert(path@.subrange(0, 8) =~= ascii("objects/"@));
            assert(object_file(h) =~= path@);
            if h.contains(SLASH) {
                let j = choose|j: int| 0 <= j < h.len() && h[j] == SLASH;
                if j >= 2 {
                    assert(path@.skip(11)[j - 2] == SLASH);
                }
            }
        }
        Some(hash)
    } else {
        proof {
            assert forall|hash: Seq<u8>| is_object_name(hash) implies object_file(hash)
                != path@ by {
                let p = object_file(hash);
                if p == path@ {
                    assert(p.subrange(0, 8) =~= ascii("objects/"@));
                    assert(p[8] == hash[0] && p[9] == hash[1] && p[10] == SLASH);
                    assert(hash.contains(hash[0]) && hash.contains(hash[1]));
                    if p.skip(11).contains(SLASH) {
                        let j = choose|j: int| 0 <= j < p.skip(11).len() && p.skip(11)[j] == SLASH;
                        assert(p.skip(11)[j] == hash[j + 2]);
                        assert(hash.contains(hash[j + 2]));
                    }
                }
            }
        }
        None
    }
}

/// A path holds the object of one hash only.
pub proof fn lemma_object_file_injective(a: Seq<u8>, b: Seq<u8>)
    requires
        a.len() >= 2,
        b.len() >= 2,
        object_file(a) == object_file(b),
    ensures
        a == b,
{
    let p = object_file(a);
    let q = object_file(b);
    assert(a.len() == b.len()) by {
        assert(p.len() == ascii("objects/"@).len() + 1 + a.len());
        assert(q.len() == ascii("objects/"@).len() + 1 + b.len());
    }
    let n = ascii("objects/"@).len() as int;
    assert forall|i: int| 0 <= i < a.len() implies a[i] == b[i] by {
        if i < 2 {
            assert(p[n + i] == a[i]);
            assert(q[n + i] == b[i]);
        } else {
            assert(p[n + 1 + i] == a[i]);
            assert(q[n + 1 + i] == b[i]);
        }
    }
    assert(a =~= b);
}

/// The objects that a set of files holds: each under the hash that its path
/// spells.
pub open spec fn objects_of(files: Map<Seq<u8>, Seq<u8>>) -> Map<Seq<u8>, Seq<u8>> {
    Map::new(
        |hash: Seq<u8>| is_object_name(hash) && files.contains_key(object_file(hash)),
        |hash: Seq<u8>| files[object_file(hash)],
    )
}

/// The references that a set of files holds: each under its path.
pub open spec fn refs_of(files: Map<Seq<u8>, Seq<u8>>) -> Map<Seq<u8>, Seq<u8>> {
    Map::new(
        |name: Seq<u8>| is_ref_file(name) && files.contains_key(name),
        |name: Seq<u8>| files[name],
    )
}

/// The index that a set of files holds: the entries of the file `index`,
/// and none where there is no such file.
pub open spec fn index_of(files: Map<Seq<u8>, Seq<u8>>) -> Seq<Entry> {
    if files.contains_key(ascii("index"@)) {
        parse_index(lines(files[ascii("index"@)]))
    } else {
        Seq::empty()
    }
}

/// The repository that the files of a repository's directory stand for.
pub fn repository_of(files: &ByteMap) -> (repo: Repository)
    ensures
        repo@.objects == objects_of(files@),
        repo@.refs == refs_of(files@),
        repo@.index == index_of(files@),
{
    proof {
        reveal_strlit("index");
        reveal_strlit("objects/");
    }
    let mut objects = ByteMap::new();
    let mut refs = ByteMap::new();
    let n = files.len();
    let ghost es = files.entries();
    let mut i: usize = 0;
    while i < n
        invariant
            i <= n,
            n == es.len(),
            es == files.entries(),
            distinct_keys(es),
            forall|h: Seq<u8>| #[trigger]
                objects@.contains_key(h) <==> is_object_name(h) && has_key(
                    es.take(i as int),
                    object_file(h),
                ),
            forall|h: Seq<u8>| #[trigger]
                objects@.contains_key(h) ==> objects@[h] == files@[object_file(h)],
            forall|name: Seq<u8>| #[trigger]
                refs@.contains_key(name) <==> is_ref_file(name) && has_key(es.take(i as int), name),
            forall|name: Seq<u8>| #[trigger] refs@.contains_key(name) ==> refs@[name] == files@[name],
        decreases n - i,
    {
        let path = files.key_at(i);
        let bytes = files.value_at(i);
        let ghost objects_before = objects@;
        let ghost refs_before = refs@;
        proof {
            reveal_strlit("index");
            reveal_strlit("objects/");
            lemma_entry_at(es, i as int);
            assert forall|q: Seq<u8>| has_key(es.take(i + 1), q) <==> has_key(es.take(i as int), q)
                || q == es[i as int].0 by {
                lemma_has_key_take(es, i as int, q);
            }
        }
        let ghost shorter = es.take(i as int);
        let ghost longer = es.take(i + 1);
        proof {
            assert(longer[i as int] == es[i as int]);
            assert(has_key(longer, path@));
            assert forall|q: Seq<u8>| has_key(longer, q) <==> has_key(shorter, q) || q == path@ by {
                lemma_has_key_take(es, i as int, q);
            }
        }
        match object_of_file(path.as_slice()) {
            Some(hash) => {
                objects.insert(hash, bytes.clone());
                proof {
                    assert forall|h: Seq<u8>| #[trigger]
                        objects@.contains_key(h) <==> is_object_name(h) && has_key(
                            longer,
                            object_file(h),
                        ) by {
                        if objects@.contains_key(h) {
                            if h == hash@ {
                                assert(has_key(longer, path@));
                            } else {
                                assert(objects_before.contains_key(h));
                                assert(has_key(shorter, object_file(h)));
                                assert(has_key(longer, object_file(h)));
                            }
                        }
                        if is_object_name(h) && has_key(longer, object_file(h)) {
                            if has_key(shorter, object_file(h)) {
                                assert(objects_before.contains_key(h));
                            } else {
                                assert(object_file(h) == path@);
                                lemma_object_file_injective(h, hash@);
                            }
                        }
                    }
                    assert forall|h: Seq<u8>| #[trigger] objects@.contains_key(h) implies objects@[h]
                        == files@[object_file(h)] by {
                        if h != hash@ {
                            assert(objects_before.contains_key(h));
                        }
                    }
                }
            },
            None => {
                proof {
                    assert forall|h: Seq<u8>| #[trigger]
                        objects@.contains_key(h) <==> is_object_name(h) && has_key(
                            longer,
                            object_file(h),
                        ) by {
                        if is_object_name(h) {
                            assert(object_file(h) != path@);
                            assert(has_key(longer, object_file(h)) <==> has_key(
                                shorter,
                                object_file(h),
                            ));
                        }
                    }
                }
            },
        }
        if !bytes_eq(path.as_slice(), literal("index")) && !starts_with(
            path.as_slice(),
            literal("objects/"),
        ) {
            refs.insert(path.clone(), bytes.clone());
            proof {
                assert(is_ref_file(path@));
                assert forall|name: Seq<u8>| #[trigger]
                    refs@.contains_key(name) <==> is_ref_file(name) && has_key(longer, name) by {
                    if refs@.contains_key(name) && name != path@ {
                        assert(refs_before.contains_key(name));
                    }
                    assert(has_key(longer, name) <==> has_key(shorter, name) || name == path@);
                    assert(refs_before.contains_key(name) <==> is_ref_file(name) && has_key(
                        shorter,
                        name,
                    ));
                }
                assert forall|name: Seq<u8>| #[trigger] refs@.contains_key(name) implies refs@[name]
                    == files@[name] by {
                    if name != path@ {
                        assert(refs_before.contains_key(name));
                    }
                }
            }
        } else {
            proof {
                assert(!is_ref_file(path@));
                assert forall|name: Seq<u8>| #[trigger]
                    refs@.contains_key(name) <==> is_ref_file(name) && has_key(longer, name) by {
                    assert(has_key(longer, name) <==> has_key(shorter, name) || name == path@);
                    assert(refs_before.contains_key(name) <==> is_ref_file(name) && has_key(
                        shorter,
                        name,
                    ));
                }
            }
        }
        i += 1;
    }
    let index = match files.get(literal("index")) {
        Some(text) => read_index(text.as_slice()),
        None => ByteMap::new(),
    };
    proof {
        assert(es.take(i as int) =~= es);
        assert(objects@ =~= objects_of(files@));
        assert(refs@ =~= refs_of(files@));
    }
    Repository { objects, refs, index }
}

/// The files with those of the entries added, the later over the earlier.
pub open spec fn with_entries(files: Map<Seq<u8>, Seq<u8>>, es: Seq<Entry>) -> Map<
    Seq<u8>,
    Seq<u8>,
>
    decreases es.len(),
{
    if es.len() == 0 {
        files
    } else {
        with_entries(files, es.drop_last()).insert(es.last().0, es.last().1)
    }
}

/// The file of an object: its path and its bytes. An object whose hash does
/// not name a file has none.
pub open spec fn object_entry(e: Entry) -> Option<Entry> {
    if is_object_name(e.0) {
        Some((object_file(e.0), e.1))
    } else {
        None
    }
}

/// The files of the objects, in their order.
pub open spec fn object_entries(objects: Seq<Entry>) -> Seq<Entry> {
    objects.filter_map(|e: Entry| object_entry(e))
}

/// The files that a repository is kept as: those of its objects, then those
/// of its references, then the index.
pub open spec fn files_of(objects: Seq<Entry>, refs: Seq<Entry>, index: Seq<Entry>) -> Map<
    Seq<u8>,
    Seq<u8>,
> {
    with_entries(with_entries(Map::empty(), object_entries(objects)), refs).insert(
        ascii("index"@),
        index_text(index),
    )
}

/// The files that the repository is kept as.
pub fn files_of_repository(repo: &Repository) -> (files: ByteMap)
    ensures
        files@ == files_of(repo.objects.entries(), repo.refs.entries(), repo.index.entries()),
{
    proof {
        reveal_strlit("index");
    }
    let mut files = ByteMap::new();
    let ghost objects = repo.objects.entries();
    let ghost f = |e: Entry| object_entry(e);
    let n = repo.objects.len();
    let mut i: usize = 0;
    assert(objects.take(0).filter_map(f) =~= Seq::<Entry>::empty());
    while i < n
        invariant
            i <= n,
            n == objects.len(),
            objects == repo.objects.entries(),
            f == |e: Entry| object_entry(e),
            files@ == with_entries(Map::empty(), objects.take(i as int).filter_map(f)),
        decreases n - i,
    {
        let hash = repo.objects.key_at(i);
        proof {
            objects.lemma_filter_map_take_succ(f, i as int);
        }
        if hash.len() >= 3 && !has_slash_from(hash.as_slice(), 0) {
            assert(hash@.skip(0) =~= hash@);
            let ghost before = objects.take(i as int).filter_map(f);
            files.insert(object_file_of(hash.as_slice()), repo.objects.value_at(i).clone());
            proof {
                let now = objects.take(i + 1).filter_map(f);
                assert(now.drop_last() =~= before);
            }
        }
        i += 1;
    }
    assert(objects.take(i as int) =~= objects);
    let ghost with_objects = files@;
    let ghost refs = repo.refs.entries();
    let m = repo.refs.len();
    let mut j: usize = 0;
    assert(refs.take(0) =~= Seq::<Entry>::empty());
    while j < m
        invariant
            j <= m,
            m == refs.len(),
            refs == repo.refs.entries(),
            files@ == with_entries(with_objects, refs.take(j as int)),
        decreases m - j,
    {
        files.insert(repo.refs.key_at(j).clone(), repo.refs.value_at(j).clone());
        proof {
            assert(refs.take(j + 1).drop_last() =~= refs.take(j as int));
        }
        j += 1;
    }
    assert(refs.take(j as int) =~= refs);
    files.insert(slice_to_vec(literal("index")), write_index(&repo.index));
    files
}

/// What the files hold once entries with distinct keys are added: under the
/// key of each entry its value, and what they held before under every other
/// path.
pub proof fn lemma_with_entries(files: Map<Seq<u8>, Seq<u8>>, es: Seq<Entry>)
    requires
        distinct_keys(es),
    ensures
        forall|k: Seq<u8>| #[trigger]
            with_entries(files, es).contains_key(k) <==> files.contains_key(k) || has_key(es, k),
        forall|i: int|
            0 <= i < es.len() ==> with_entries(files, es).contains_key((#[trigger] es[i]).0)
                && with_entries(files, es)[es[i].0] == es[i].1,
        forall|k: Seq<u8>|
            files.contains_key(k) && !has_key(es, k) ==> #[trigger] with_entries(files, es)[k]
                == files[k],
    decreases es.len(),
{
    let after = with_entries(files, es);
    if es.len() == 0 {
        assert forall|k: Seq<u8>| !has_key(es, k) by {}
    } else {
        let front = es.drop_last();
        let last = es.last();
        let before = with_entries(files, front);
        assert(after == before.insert(last.0, last.1));
        assert forall|i: int, j: int| 0 <= i < j < front.len() implies (#[trigger] front[i]).0 != (
        #[trigger] front[j]).0 by {
            assert(front[i] == es[i] && front[j] == es[j]);
        }
        lemma_with_entries(files, front);
        assert(!has_key(front, last.0)) by {
            if has_key(front, last.0) {
                let j = key_index(front, last.0);
                assert(front[j] == es[j]);
                assert(es[j].0 != es[es.len() - 1].0);
            }
        }
        assert forall|k: Seq<u8>| has_key(es, k) <==> k == last.0 || has_key(front, k) by {
            if has_key(es, k) {
                let i = key_index(es, k);
                if i < es.len() - 1 {
                    assert(front[i].0 == k);
                }
            }
            if has_key(front, k) {
                let j = key_index(front, k);
                assert(es[j].0 == k);
            }
            if k == last.0 {
                assert(es[es.len() - 1].0 == k);
            }
        }
        assert forall|k: Seq<u8>| #[trigger]
            after.contains_key(k) <==> files.contains_key(k) || has_key(es, k) by {
            assert(before.contains_key(k) <==> files.contains_key(k) || has_key(front, k));
        }
        assert forall|i: int| 0 <= i < es.len() implies after.contains_key((#[trigger] es[i]).0)
            && after[es[i].0] == es[i].1 by {
            assert(has_key(es, es[i].0));
            if i < es.len() - 1 {
                assert(front[i] == es[i]);
                assert(before[front[i].0] == front[i].1);
                assert(es[i].0 != es[es.len() - 1].0);
            }
        }
        assert forall|k: Seq<u8>| files.contains_key(k) && !has_key(es, k) implies #[trigger] after[k]
            == files[k] by {
            assert(k != last.0);
            assert(!has_key(front, k));
            assert(before[k] == files[k]);
        }
    }
}

/// The files of objects with names that fit are as many as the objects, each
/// under the path of its hash.
proof fn lemma_object_entries(objects: Seq<Entry>)
    requires
        forall|i: int| 0 <= i < objects.len() ==> is_object_name((#[trigger] objects[i]).0),
    ensures
        object_entries(objects).len() == objects.len(),
        forall|i: int|
            0 <= i < objects.len() ==> (#[trigger] object_entries(objects)[i]) == (
                object_file(objects[i].0),
                objects[i].1,
            ),
    decreases objects.len(),
{
    let f = |e: Entry| object_entry(e);
    if objects.len() > 0 {
        let front = objects.drop_last();
        assert forall|i: int| 0 <= i < front.len() implies is_object_name(
            (#[trigger] front[i]).0,
        ) by {
            assert(front[i] == objects[i]);
        }
        lemma_object_entries(front);
        assert(is_object_name(objects[objects.len() - 1].0));
        assert(object_entries(objects) == object_entries(front) + seq![
            (object_file(objects.last().0), objects.last().1),
        ]);
        assert forall|i: int| 0 <= i < objects.len() implies (#[trigger] object_entries(
            objects,
        )[i]) == (object_file(objects[i].0), objects[i].1) by {
            if i < front.len() {
                assert(object_entries(front)[i] == (object_file(front[i].0), front[i].1));
                assert(front[i] == objects[i]);
            }
        }
    }
}

/// A repository is read back from its files as it was written: its objects,
/// its references and its index, where the hashes of the objects and the
/// names of the references fit their places and the index holds words.
pub proof fn lemma_files_round_trip(objects: Seq<Entry>, refs: Seq<Entry>, index: Seq<Entry>)
    requires
        distinct_keys(objects),
        forall|i: int| 0 <= i < objects.len() ==> is_object_name((#[trigger] objects[i]).0),
        distinct_keys(refs),
        forall|i: int| 0 <= i < refs.len() ==> is_ref_file((#[trigger] refs[i]).0),
        distinct_keys(index),
        forall|i: int|
            0 <= i < index.len() ==> is_word((#[trigger] index[i]).0) && is_word(index[i].1),
    ensures
        objects_of(files_of(objects, refs, index)) == entries_map(objects),
        refs_of(files_of(objects, refs, index)) == entries_map(refs),
        index_of(files_of(objects, refs, index)) == index,
{
    reveal_strlit("index");
    reveal_strlit("objects/");
    let index_name = ascii("index"@);
    let prefix = ascii("objects/"@);
    let placed = object_entries(objects);
    let with_objects = with_entries(Map::empty(), placed);
    let with_refs = with_entries(with_objects, refs);
    let files = files_of(objects, refs, index);
    assert(files == with_refs.insert(index_name, index_text(index)));
    lemma_object_entries(objects);
    assert forall|i: int, j: int| 0 <= i < j < placed.len() implies (#[trigger] placed[i]).0 != (
    #[trigger] placed[j]).0 by {
        if placed[i].0 == placed[j].0 {
            lemma_object_file_injective(objects[i].0, objects[j].0);
            assert(objects[i].0 != objects[j].0);
        }
    }
    lemma_with_entries(Map::empty(), placed);
    lemma_with_entries(with_objects, refs);
    lemma_index_round_trip(index);
    assert forall|i: int| 0 <= i < placed.len() implies prefix.is_prefix_of(
        (#[trigger] placed[i]).0,
    ) by {
        assert(placed[i].0.subrange(0, 8) =~= prefix);
    }
    assert forall|k: Seq<u8>| has_key(placed, k) implies prefix.is_prefix_of(k) by {
        let i = key_index(placed, k);
        assert(prefix.is_prefix_of(placed[i].0));
    }
    assert forall|k: Seq<u8>| has_key(refs, k) implies is_ref_file(k) by {
        let i = key_index(refs, k);
        assert(is_ref_file(refs[i].0));
    }
    assert forall|h: Seq<u8>| #[trigger]
        objects_of(files).contains_key(h) <==> entries_map(objects).contains_key(h) by {
        let p = object_file(h);
        assert(p.subrange(0, 8) =~= prefix);
        assert(p != index_name) by {
            assert(p[0] == prefix[0]);
        }
        if has_key(objects, h) {
            let i = key_index(objects, h);
            assert(placed[i].0 == p);
            assert(is_object_name(objects[i].0));
        }
        if is_object_name(h) && has_key(placed, p) {
            let i = key_index(placed, p);
            lemma_object_file_injective(objects[i].0, h);
            assert(objects[i].0 == h);
        }
    }
    assert forall|h: Seq<u8>| #[trigger] objects_of(files).contains_key(h) implies objects_of(
        files,
    )[h] == entries_map(objects)[h] by {
        let p = object_file(h);
        assert(p.subrange(0, 8) =~= prefix);
        assert(p[0] == prefix[0]);
        let i = key_index(objects, h);
        lemma_entry_at(objects, i);
        assert(placed[i].0 == p);
        assert(with_objects[placed[i].0] == placed[i].1);
        assert(!has_key(refs, p));
    }
    assert(objects_of(files) =~= entries_map(objects));
    assert forall|n: Seq<u8>| #[trigger]
        refs_of(files).contains_key(n) <==> entries_map(refs).contains_key(n) by {
        if is_ref_file(n) {
            assert(!has_key(placed, n));
        }
    }
    assert forall|n: Seq<u8>| #[trigger] refs_of(files).contains_key(n) implies refs_of(files)[n]
        == entries_map(refs)[n] by {
        let i = key_index(refs, n);
        lemma_entry_at(refs, i);
        assert(with_refs[refs[i].0] == refs[i].1);
    }
    assert(refs_of(files) =~= entries_map(refs));
}

} // verus!
