//! Building snapshots: the tree of the index, and the commit of a tree.

use crate::error::result_view;
use crate::error::Error;
use crate::format::build_commit;
use crate::format::build_tree;
use crate::format::commit_text;
use crate::format::tree_text;
use crate::store::hash_and_store;
use crate::store::read_object;
use crate::store::store_object;
use crate::table::ByteMap;
use crate::text::ascii;
use crate::text::is_word;
use crate::text::literal;
use crate::text::NUL;
use vstd::prelude::*;

verus! {

/// The argument of a call, seen as a sequence.
pub open spec fn option_view(o: Option<&[u8]>) -> Option<Seq<u8>> {
    match o {
        Some(bytes) => Some(bytes@),
        None => None,
    }
}

/// Stores the tree of the index, a line for each entry, and returns its hash.
pub fn write_tree(index: &ByteMap, store: &mut ByteMap) -> (r: Result<Vec<u8>, Error>)
    ensures
        (result_view(r), final(store)@) == store_object(
            old(store)@,
            ascii("tree"@),
            tree_text(index.entries()),
        ),
        r matches Ok(hash) ==> read_object(final(store)@, hash@) == Ok::<Seq<u8>, Error>(
            tree_text(index.entries()),
        ),
        r matches Ok(hash) ==> hash@.len() == 40 && is_word(hash@),
{
    proof {
        reveal_strlit("tree");
    }
    let kind = literal("tree");
    assert(!kind@.contains(NUL));
    let text = build_tree(index);
    hash_and_store(store, kind, text.as_slice())
}

/// Stores a commit of the tree `tree_hash` with the given message, author
/// and parent, and returns its hash.
pub fn commit_tree(
    store: &mut ByteMap,
    commit_name: &[u8],
    author: &[u8],
    tree_hash: &[u8],
    parent_hash: Option<&[u8]>,
) -> (r: Result<Vec<u8>, Error>)
    ensures
        (result_view(r), final(store)@) == store_object(
            old(store)@,
            ascii("commit"@),
            commit_text(commit_name@, author@, tree_hash@, option_view(parent_hash)),
        ),
        r matches Ok(hash) ==> read_object(final(store)@, hash@) == Ok::<Seq<u8>, Error>(
            commit_text(commit_name@, author@, tree_hash@, option_view(parent_hash)),
        ),
        r matches Ok(hash) ==> hash@.len() == 40 && is_word(hash@),
{
    proof {
        reveal_strlit("commit");
    }
    let kind = literal("commit");
    assert(!kind@.contains(NUL));
    let text = build_commit(commit_name, author, tree_hash, parent_hash);
    hash_and_store(store, kind, text.as_slice())
}

} // verus!
