//! The repository: its objects, its references and its index; how it comes
//! to be, and how the index becomes a commit.

use crate::codec::object_id;
use crate::error::result_view;
use crate::error::Error;
use crate::format::commit_text;
use crate::format::tree_text;
use crate::refs::get_head_hash;
use crate::refs::lemma_head_stands_for;
use crate::refs::resolve_head;
use crate::refs::symbolic_target;
use crate::refs::symbolic_target_of;
use crate::refs::update_ref;
use crate::snapshot::commit_tree;
use crate::snapshot::write_tree;
use crate::store::read_object;
use crate::store::store_object;
use crate::table::ByteMap;
use crate::table::Entry;
use crate::text::ascii;
use crate::text::literal;
use vstd::prelude::*;
use vstd::slice::slice_to_vec;

verus! {

/// A repository. `objects` maps a hash to the compressed object, `refs` maps
/// the name of a reference, `HEAD` among them, to what it holds, and `index`
/// maps a staged path to the hash of its blob.
#[derive(Debug)]
pub struct Repository {
    pub objects: ByteMap,
    pub refs: ByteMap,
    pub index: ByteMap,
}

/// What a repository holds.
pub struct RepoView {
    pub objects: Map<Seq<u8>, Seq<u8>>,
    pub refs: Map<Seq<u8>, Seq<u8>>,
    pub index: Seq<Entry>,
}

impl View for Repository {
    type V = RepoView;

    open spec fn view(&self) -> RepoView {
        RepoView { objects: self.objects@, refs: self.refs@, index: self.index.entries() }
    }
}

impl Clone for Repository {
    /// A repository that holds the same.
    fn clone(&self) -> (copy: Repository)
        ensures
            copy@ == self@,
    {
        Repository {
            objects: self.objects.clone(),
            refs: self.refs.clone(),
            index: self.index.clone(),
        }
    }
}

/// A new repository: no objects, nothing staged, and a `HEAD` that holds
/// nothing.
pub open spec fn new_repository() -> RepoView {
    RepoView {
        objects: Map::empty(),
        refs: Map::empty().insert(ascii("HEAD"@), Seq::empty()),
        index: Seq::empty(),
    }
}

/// Makes a repository where there is none. Where there is one it is left
/// alone, and the call fails.
pub fn init(slot: &mut Option<Repository>) -> (r: Result<(), Error>)
    ensures
        match r {
            Ok(_) => {
                &&& *old(slot) is None
                &&& *final(slot) matches Some(repo)
                &&& repo@ == new_repository()
            },
            Err(e) => {
                &&& e == Error::AlreadyInitialized
                &&& *old(slot) is Some
                &&& *final(slot) == *old(slot)
            },
        },
{
    if slot.is_some() {
        return Err(Error::AlreadyInitialized);
    }
    proof {
        reveal_strlit("HEAD");
    }
    let mut refs = ByteMap::new();
    refs.insert(slice_to_vec(literal("HEAD")), Vec::new());
    *slot = Some(Repository { objects: ByteMap::new(), refs, index: ByteMap::new() });
    Ok(())
}

/// The parent of the next commit: the commit that `HEAD` stands for, if it
/// stands for one.
pub open spec fn next_parent(refs: Map<Seq<u8>, Seq<u8>>) -> Option<Seq<u8>> {
    match resolve_head(refs) {
        Ok(hash) => if hash.len() == 0 {
            None
        } else {
            Some(hash)
        },
        Err(_) => None,
    }
}

/// The reference that the next commit moves: the one that `HEAD` follows,
/// or `HEAD` itself.
pub open spec fn commit_target(refs: Map<Seq<u8>, Seq<u8>>) -> Seq<u8> {
    match symbolic_target(refs[ascii("HEAD"@)]) {
        Some(name) => name,
        None => ascii("HEAD"@),
    }
}

/// What a commit of the index does: the outcome, and the repository
/// afterwards.
///
/// An empty index and a missing `HEAD` are refused, and nothing changes.
/// Else the tree of the index is stored, then a commit of that tree whose
/// parent is the commit that `HEAD` stands for; the reference that `HEAD`
/// follows, or `HEAD` itself, is moved to the new commit, and the index is
/// emptied. Where the commit cannot be stored the tree stays.
pub open spec fn commit_outcome(repo: RepoView, message: Seq<u8>, author: Seq<u8>) -> (
    Result<Seq<u8>, Error>,
    RepoView,
) {
    if repo.index.len() == 0 {
        (Err(Error::NothingToCommit), repo)
    } else if !repo.refs.contains_key(ascii("HEAD"@)) {
        (Err(Error::RefNotFound), repo)
    } else {
        let (tree, with_tree) = store_object(repo.objects, ascii("tree"@), tree_text(repo.index));
        match tree {
            Err(e) => (Err(e), repo),
            Ok(tree_hash) => {
                let text = commit_text(message, author, tree_hash, next_parent(repo.refs));
                let (commit, with_commit) = store_object(with_tree, ascii("commit"@), text);
                match commit {
                    Err(e) => (
                        Err(e),
                        RepoView { objects: with_tree, refs: repo.refs, index: repo.index },
                    ),
                    Ok(hash) => (
                        Ok(hash),
                        RepoView {
                            objects: with_commit,
                            refs: repo.refs.insert(commit_target(repo.refs), hash),
                            index: Seq::empty(),
                        },
                    ),
                }
            },
        }
    }
}

/// Commits the index of the repository in `slot`, and returns the hash of
/// the new commit. Without a repository the call fails.
pub fn commit(slot: &mut Option<Repository>, commit_message: &[u8], author: &[u8]) -> (r: Result<
    Vec<u8>,
    Error,
>)
    ensures
        match *old(slot) {
            None => r == Err::<Vec<u8>, Error>(Error::NotInitialized) && *final(slot) is None,
            Some(before) => {
                &&& *final(slot) matches Some(after)
                &&& (result_view(r), after@) == commit_outcome(before@, commit_message@, author@)
                &&& r matches Ok(hash) ==> read_object(after@.objects, hash@) == Ok::<
                    Seq<u8>,
                    Error,
                >(
                    commit_text(
                        commit_message@,
                        author@,
                        object_id(ascii("tree"@), tree_text(before@.index)),
                        next_parent(before@.refs),
                    ),
                )
                &&& r matches Ok(hash) ==> resolve_head(after@.refs) == Ok::<Seq<u8>, Error>(hash@)
                    && next_parent(after@.refs) == Some(hash@)
            },
        },
{
    match slot {
        None => Err(Error::NotInitialized),
        Some(repo) => commit_index(repo, commit_message, author),
    }
}

/// Commits the index of the repository, and returns the hash of the new
/// commit.
pub fn commit_index(repo: &mut Repository, commit_message: &[u8], author: &[u8]) -> (r: Result<
    Vec<u8>,
    Error,
>)
    ensures
        (result_view(r), final(repo)@) == commit_outcome(old(repo)@, commit_message@, author@),
        r matches Ok(hash) ==> read_object(final(repo)@.objects, hash@) == Ok::<Seq<u8>, Error>(
            commit_text(
                commit_message@,
                author@,
                object_id(ascii("tree"@), tree_text(old(repo)@.index)),
                next_parent(old(repo)@.refs),
            ),
        ),
        r matches Ok(hash) ==> resolve_head(final(repo)@.refs) == Ok::<Seq<u8>, Error>(hash@)
            && next_parent(final(repo)@.refs) == Some(hash@),
{
    proof {
        reveal_strlit("HEAD");
    }
    if repo.index.len() == 0 {
        return Err(Error::NothingToCommit);
    }
    let head = match repo.refs.get(literal("HEAD")) {
        None => {
            return Err(Error::RefNotFound);
        },
        Some(head) => head.clone(),
    };
    let tree = write_tree(&repo.index, &mut repo.objects)?;
    let parent = get_head_hash(&repo.refs)?;
    let parent_hash: Option<&[u8]> = if parent.len() == 0 {
        None
    } else {
        Some(parent.as_slice())
    };
    let hash = commit_tree(&mut repo.objects, commit_message, author, tree.as_slice(), parent_hash)?;
    let target = match symbolic_target_of(head.as_slice()) {
        Some(name) => name,
        None => slice_to_vec(literal("HEAD")),
    };
    update_ref(&mut repo.refs, target.as_slice(), hash.as_slice());
    repo.index = ByteMap::new();
    proof {
        lemma_head_stands_for(repo.refs@, hash@);
    }
    Ok(hash)
}

} // verus!
