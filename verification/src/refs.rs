//! References: names for commits. A reference holds a commit's hash; `HEAD`
//! may instead hold `ref: ` and the name of the reference that it follows.

use crate::error::result_view;
use crate::error::Error;
use crate::table::ByteMap;
use crate::text::ascii;
use crate::text::copy_range;
use crate::text::is_space;
use crate::text::is_word;
use crate::text::lemma_trim_word;
use crate::text::literal;
use crate::text::starts_with;
use crate::text::trim;
use crate::text::trimmed;
use vstd::prelude::*;
use vstd::slice::slice_to_vec;

verus! {

/// Makes `ref_name` hold `commit_hash`.
pub fn update_ref(refs: &mut ByteMap, ref_name: &[u8], commit_hash: &[u8])
    ensures
        final(refs)@ == old(refs)@.insert(ref_name@, commit_hash@),
{
    refs.insert(slice_to_vec(ref_name), slice_to_vec(commit_hash));
}

/// Makes `ref_name` follow the reference `target_ref`.
pub fn symbolic_ref(refs: &mut ByteMap, ref_name: &[u8], target_ref: &[u8])
    ensures
        final(refs)@ == old(refs)@.insert(ref_name@, ascii("ref: "@) + target_ref@),
{
    proof {
        reveal_strlit("ref: ");
    }
    let mut content = slice_to_vec(literal("ref: "));
    content.extend_from_slice(target_ref);
    assert(content@ =~= ascii("ref: "@) + target_ref@);
    refs.insert(slice_to_vec(ref_name), content);
}

/// The reference that the content of `HEAD` follows, if it follows one.
pub open spec fn symbolic_target(content: Seq<u8>) -> Option<Seq<u8>> {
    if ascii("ref: "@).is_prefix_of(content) {
        Some(trim(content.skip(ascii("ref: "@).len() as int)))
    } else {
        None
    }
}

/// The reference that the content of `HEAD` follows, if it follows one.
pub fn symbolic_target_of(content: &[u8]) -> (r: Option<Vec<u8>>)
    ensures
        match r {
            Some(name) => symbolic_target(content@) == Some(name@),
            None => symbolic_target(content@) is None,
        },
{
    proof {
        reveal_strlit("ref: ");
    }
    let prefix = literal("ref: ");
    if starts_with(content, prefix) {
        let rest = copy_range(content, prefix.len(), content.len());
        Some(trimmed(rest.as_slice()))
    } else {
        None
    }
}

/// The reference of the branch `name`.
pub open spec fn branch_ref(name: Seq<u8>) -> Seq<u8> {
    ascii("refs/"@) + name
}

/// The reference of the branch `name`.
pub fn branch_ref_of(name: &[u8]) -> (r: Vec<u8>)
    ensures
        r@ == branch_ref(name@),
{
    proof {
        reveal_strlit("refs/");
    }
    let mut r = slice_to_vec(literal("refs/"));
    r.extend_from_slice(name);
    r
}

/// The commit that `HEAD` stands for. Where `HEAD` follows a reference, it
/// is what that reference holds, and nothing where the reference does not
/// exist yet; else it is what `HEAD` holds itself. Without a `HEAD` there is
/// no answer.
pub open spec fn resolve_head(refs: Map<Seq<u8>, Seq<u8>>) -> Result<Seq<u8>, Error> {
    if !refs.contains_key(ascii("HEAD"@)) {
        Err(Error::RefNotFound)
    } else {
        match symbolic_target(refs[ascii("HEAD"@)]) {
            Some(name) => if refs.contains_key(name) {
                Ok(trim(refs[name]))
            } else {
                Ok(Seq::empty())
            },
            None => Ok(trim(refs[ascii("HEAD"@)])),
        }
    }
}

/// The hash of the commit that `HEAD` stands for; empty where there is no
/// commit yet.
pub fn get_head_hash(refs: &ByteMap) -> (r: Result<Vec<u8>, Error>)
    ensures
        result_view(r) == resolve_head(refs@),
{
    proof {
        reveal_strlit("HEAD");
    }
    match refs.get(literal("HEAD")) {
        None => Err(Error::RefNotFound),
        Some(head) => match symbolic_target_of(head.as_slice()) {
            Some(name) => match refs.get(name.as_slice()) {
                Some(content) => Ok(trimmed(content.as_slice())),
                None => Ok(Vec::new()),
            },
            None => Ok(trimmed(head.as_slice())),
        },
    }
}

/// The commit that a target names: what the branch of that name holds, where
/// there is such a branch, else the target itself.
pub open spec fn resolve_target(refs: Map<Seq<u8>, Seq<u8>>, target: Seq<u8>) -> Seq<u8> {
    if refs.contains_key(branch_ref(target)) {
        trim(refs[branch_ref(target)])
    } else {
        target
    }
}

/// The commit that `target` names, a branch or a commit's hash.
pub fn resolve_target_of(refs: &ByteMap, target: &[u8]) -> (r: Vec<u8>)
    ensures
        r@ == resolve_target(refs@, target@),
{
    let name = branch_ref_of(target);
    match refs.get(name.as_slice()) {
        Some(content) => trimmed(content.as_slice()),
        None => slice_to_vec(target),
    }
}

/// A reference that holds a word holds a commit's hash and follows nothing:
/// where `HEAD` holds the word, or follows a reference that holds it, the
/// word is the commit that `HEAD` stands for.
pub proof fn lemma_head_stands_for(refs: Map<Seq<u8>, Seq<u8>>, hash: Seq<u8>)
    requires
        is_word(hash),
        refs.contains_key(ascii("HEAD"@)),
        refs[ascii("HEAD"@)] == hash || (symbolic_target(refs[ascii("HEAD"@)]) matches Some(name)
            && refs.contains_key(name) && refs[name] == hash),
    ensures
        symbolic_target(hash) is None,
        resolve_head(refs) == Ok::<Seq<u8>, Error>(hash),
{
    reveal_strlit("ref: ");
    lemma_trim_word(hash);
    if ascii("ref: "@).is_prefix_of(hash) {
        assert(hash[4] == ascii("ref: "@)[4]);
        assert(is_space(hash[4]));
    }
}

} // verus!
