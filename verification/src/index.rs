//! The index: the staged files, each path with the hash of its blob.
//!
//! In memory the index is a `ByteMap` from path to hash. On disk it is a
//! text with one line `<path> <hash>` for each entry.

use crate::error::Error;
use crate::table::distinct_keys;
use crate::table::has_key;
use crate::table::key_index;
use crate::table::upsert;
use crate::table::without;
use crate::table::ByteMap;
use crate::table::Entry;
use crate::text::is_word;
use crate::text::lemma_lines_cons;
use crate::text::lemma_tokens_pair;
use crate::text::lines;
use crate::text::split_lines;
use crate::text::split_tokens;
use crate::text::tokens;
use crate::text::views;
use crate::text::NEWLINE;
use crate::text::SPACE;
use vstd::prelude::*;
use vstd::slice::slice_to_vec;

verus! {

/// Stages `file_name` with `blob_hash`, whether or not it was staged before.
pub fn add_index(index: &mut ByteMap, file_name: &[u8], blob_hash: &[u8])
    ensures
        final(index)@ == old(index)@.insert(file_name@, blob_hash@),
        final(index).entries() == upsert(old(index).entries(), file_name@, blob_hash@),
{
    index.insert(slice_to_vec(file_name), slice_to_vec(blob_hash));
}

/// Gives the staged `file_name` another hash. A path that is not staged is
/// refused, and the index stays as it was.
pub fn update_index(index: &mut ByteMap, file_name: &[u8], blob_hash: &[u8]) -> (r: Result<
    (),
    Error,
>)
    ensures
        match r {
            Ok(_) => {
                &&& old(index)@.contains_key(file_name@)
                &&& final(index)@ == old(index)@.insert(file_name@, blob_hash@)
                &&& final(index).entries() == upsert(old(index).entries(), file_name@, blob_hash@)
            },
            Err(e) => {
                &&& e == Error::NotStaged
                &&& !old(index)@.contains_key(file_name@)
                &&& final(index).entries() == old(index).entries()
            },
        },
{
    if index.contains_key(file_name) {
        index.insert(slice_to_vec(file_name), slice_to_vec(blob_hash));
        Ok(())
    } else {
        Err(Error::NotStaged)
    }
}

/// Takes `file_name` out of the index. A path that is not staged is refused,
/// and the index stays as it was.
pub fn remove_index(index: &mut ByteMap, file_name: &[u8]) -> (r: Result<(), Error>)
    ensures
        match r {
            Ok(_) => {
                &&& old(index)@.contains_key(file_name@)
                &&& final(index)@ == old(index)@.remove(file_name@)
                &&& final(index).entries() == without(old(index).entries(), file_name@)
            },
            Err(e) => {
                &&& e == Error::NotStaged
                &&& !old(index)@.contains_key(file_name@)
                &&& final(index).entries() == old(index).entries()
            },
        },
{
    if index.remove(file_name) {
        Ok(())
    } else {
        Err(Error::NotStaged)
    }
}

/// The line of the index for an entry.
pub open spec fn index_line(e: Entry) -> Seq<u8> {
    e.0 + seq![SPACE] + e.1
}

/// The text of an index: a line for each entry, in their order.
pub open spec fn index_text(es: Seq<Entry>) -> Seq<u8>
    decreases es.len(),
{
    if es.len() == 0 {
        Seq::empty()
    } else {
        index_line(es[0]) + seq![NEWLINE] + index_text(es.drop_first())
    }
}

/// The text that the index is kept as.
pub fn write_index(index: &ByteMap) -> (text: Vec<u8>)
    ensures
        text@ == index_text(index.entries()),
{
    let ghost es = index.entries();
    let n = index.len();
    let mut text: Vec<u8> = Vec::new();
    let mut i: usize = 0;
    assert(es.skip(0) =~= es);
    while i < n
        invariant
            i <= n,
            n == es.len(),
            es == index.entries(),
            index_text(es) == text@ + index_text(es.skip(i as int)),
        decreases n - i,
    {
        let ghost before = text@;
        text.extend_from_slice(index.key_at(i).as_slice());
        text.push(SPACE);
        text.extend_from_slice(index.value_at(i).as_slice());
        text.push(NEWLINE);
        proof {
            let rest = es.skip(i as int);
            assert(rest[0] == es[i as int]);
            assert(rest.drop_first() =~= es.skip(i + 1));
            assert(text@ =~= before + (index_line(es[i as int]) + seq![NEWLINE]));
            assert(text@ + index_text(es.skip(i + 1)) =~= before + index_text(rest));
        }
        i += 1;
    }
    assert(text@ + index_text(es.skip(i as int)) =~= text@);
    text
}

/// The entry that a line of the index holds: a line of two words is a path
/// and a hash, any other line holds nothing.
pub open spec fn entry_of_line(line: Seq<u8>) -> Option<Entry> {
    if tokens(line).len() == 2 {
        Some((tokens(line)[0], tokens(line)[1]))
    } else {
        None
    }
}

/// The entries that the lines of an index hold. Of two lines for one path
/// the later gives the hash.
pub open spec fn parse_index(ls: Seq<Seq<u8>>) -> Seq<Entry>
    decreases ls.len(),
{
    if ls.len() == 0 {
        Seq::empty()
    } else {
        let front = parse_index(ls.drop_last());
        match entry_of_line(ls.last()) {
            Some(e) => upsert(front, e.0, e.1),
            None => front,
        }
    }
}

/// The index that a text holds. Lines that are not a path and a hash are
/// passed over.
pub fn read_index(text: &[u8]) -> (index: ByteMap)
    ensures
        index.entries() == parse_index(lines(text@)),
{
    let ls = split_lines(text);
    let ghost lv = views(ls@);
    let mut index = ByteMap::new();
    let mut i: usize = 0;
    assert(lv.take(0) =~= Seq::<Seq<u8>>::empty());
    while i < ls.len()
        invariant
            i <= ls.len(),
            lv == views(ls@),
            index.entries() == parse_index(lv.take(i as int)),
        decreases ls.len() - i,
    {
        let words = split_tokens(ls[i].as_slice());
        proof {
            assert(lv.take(i + 1).drop_last() =~= lv.take(i as int));
            assert(lv.take(i + 1).last() == lv[i as int]);
        }
        if words.len() == 2 {
            index.insert(words[0].clone(), words[1].clone());
        }
        i += 1;
    }
    assert(lv.take(i as int) =~= lv);
    index
}

/// The lines of an index text that hold no entry, in their order.
pub open spec fn odd_lines(ls: Seq<Seq<u8>>) -> Seq<Seq<u8>> {
    ls.filter(|line: Seq<u8>| entry_of_line(line) is None)
}

/// The lines of `text` that `read_index` passes over, for the caller to
/// warn of.
pub fn skipped_lines(text: &[u8]) -> (out: Vec<Vec<u8>>)
    ensures
        views(out@) == odd_lines(lines(text@)),
{
    let ls = split_lines(text);
    let ghost lv = views(ls@);
    let ghost odd = |line: Seq<u8>| entry_of_line(line) is None;
    let mut out: Vec<Vec<u8>> = Vec::new();
    let mut i: usize = 0;
    assert(lv.take(0) =~= Seq::<Seq<u8>>::empty());
    while i < ls.len()
        invariant
            i <= ls.len(),
            lv == views(ls@),
            odd == |line: Seq<u8>| entry_of_line(line) is None,
            views(out@) == lv.take(i as int).filter(odd),
        decreases ls.len() - i,
    {
        let ghost before = views(out@);
        let words = split_tokens(ls[i].as_slice());
        proof {
            assert(lv.take(i + 1) =~= lv.take(i as int).push(lv[i as int]));
            lv.take(i as int).lemma_filter_push(lv[i as int], odd);
        }
        if words.len() != 2 {
            out.push(ls[i].clone());
            assert(views(out@) =~= before.push(lv[i as int]));
        }
        i += 1;
    }
    assert(lv.take(i as int) =~= lv);
    out
}

/// The lines of an index text are the lines of its entries.
pub proof fn lemma_lines_of_index_text(es: Seq<Entry>)
    requires
        forall|i: int| 0 <= i < es.len() ==> is_word((#[trigger] es[i]).0) && is_word(es[i].1),
    ensures
        lines(index_text(es)) == es.map_values(|e: Entry| index_line(e)),
    decreases es.len(),
{
    let want = es.map_values(|e: Entry| index_line(e));
    if es.len() == 0 {
        assert(lines(index_text(es)) =~= want);
    } else {
        let rest = es.drop_first();
        assert forall|i: int| 0 <= i < rest.len() implies is_word((#[trigger] rest[i]).0)
            && is_word(rest[i].1) by {
            assert(rest[i] == es[i + 1]);
        }
        lemma_lines_of_index_text(rest);
        let line = index_line(es[0]);
        assert(!line.contains(NEWLINE)) by {
            if line.contains(NEWLINE) {
                let j = choose|j: int| 0 <= j < line.len() && line[j] == NEWLINE;
                if j < es[0].0.len() {
                    assert(line[j] == es[0].0[j]);
                } else if j > es[0].0.len() {
                    assert(line[j] == es[0].1[j - es[0].0.len() - 1]);
                }
            }
        }
        lemma_lines_cons(line, index_text(rest));
        assert(seq![line] + rest.map_values(|e: Entry| index_line(e)) =~= want);
    }
}

/// Writing an index and reading the text again gives the same entries,
/// where every path and every hash is a word.
pub proof fn lemma_index_round_trip(es: Seq<Entry>)
    requires
        distinct_keys(es),
        forall|i: int| 0 <= i < es.len() ==> is_word((#[trigger] es[i]).0) && is_word(es[i].1),
    ensures
        parse_index(lines(index_text(es))) == es,
{
    lemma_lines_of_index_text(es);
    lemma_parse_index_lines(es);
}

/// The lines of distinct entries of words are read as those entries.
proof fn lemma_parse_index_lines(es: Seq<Entry>)
    requires
        distinct_keys(es),
        forall|i: int| 0 <= i < es.len() ==> is_word((#[trigger] es[i]).0) && is_word(es[i].1),
    ensures
        parse_index(es.map_values(|e: Entry| index_line(e))) == es,
    decreases es.len(),
{
    let ls = es.map_values(|e: Entry| index_line(e));
    if es.len() == 0 {
        assert(parse_index(ls) =~= es);
    } else {
        let front = es.drop_last();
        let last = es.last();
        assert forall|i: int| 0 <= i < front.len() implies is_word((#[trigger] front[i]).0)
            && is_word(front[i].1) by {
            assert(front[i] == es[i]);
        }
        assert forall|i: int, j: int| 0 <= i < j < front.len() implies (#[trigger] front[i]).0 != (
        #[trigger] front[j]).0 by {
            assert(front[i] == es[i] && front[j] == es[j]);
        }
        lemma_parse_index_lines(front);
        assert(ls.drop_last() =~= front.map_values(|e: Entry| index_line(e)));
        assert(ls.last() == index_line(last));
        lemma_tokens_pair(last.0, last.1);
        assert(!has_key(front, last.0)) by {
            if has_key(front, last.0) {
                let i = key_index(front, last.0);
                assert(es[i].0 != es[es.len() - 1].0);
            }
        }
        assert(upsert(front, last.0, last.1) =~= es);
    }
}

} // verus!
