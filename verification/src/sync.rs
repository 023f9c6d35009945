//! Bringing two repositories together: a push gives another repository the
//! objects of a branch that it lacks, a fetch takes them from it.

use crate::error::Error;
use crate::refs::branch_ref;
use crate::refs::branch_ref_of;
use crate::refs::update_ref;
use crate::repo::Repository;
use crate::store::read_object;
use crate::table::ByteMap;
use crate::table::ByteSet;
use crate::text::ascii;
use crate::text::literal;
use crate::text::trim;
use crate::text::trimmed;
use crate::walk::closure;
use crate::walk::collect_objects;
use crate::walk::get_missing_objects;
use crate::walk::lemma_closure_is_closed;
use crate::walk::lemma_same_closure;
use crate::walk::reachable;
use vstd::prelude::*;
use vstd::slice::slice_to_vec;

verus! {

/// The store `to` with those objects of `wanted` added that it lacks and
/// `from` holds. What `to` holds already is left as it is.
pub open spec fn transfer(
    from: Map<Seq<u8>, Seq<u8>>,
    to: Map<Seq<u8>, Seq<u8>>,
    wanted: Set<Seq<u8>>,
) -> Map<Seq<u8>, Seq<u8>> {
    Map::new(
        |h: Seq<u8>| to.contains_key(h) || (wanted.contains(h) && from.contains_key(h)),
        |h: Seq<u8>|
            if to.contains_key(h) {
                to[h]
            } else {
                from[h]
            },
    )
}

/// A transfer delivers: where `from` holds all that `root` reaches, and
/// `to` holds none of it in another form, `to` afterwards reaches from
/// `root` what `from` reaches, and reads each of those objects as `from`
/// does.
pub proof fn lemma_transfer_delivers(
    from: Map<Seq<u8>, Seq<u8>>,
    to: Map<Seq<u8>, Seq<u8>>,
    root: Seq<u8>,
)
    requires
        forall|h: Seq<u8>| closure(from, root).contains(h) ==> from.contains_key(h),
        forall|h: Seq<u8>|
            closure(from, root).contains(h) && to.contains_key(h) ==> to[h] == from[h],
    ensures
        closure(transfer(from, to, closure(from, root)), root) == closure(from, root),
        forall|h: Seq<u8>|
            closure(from, root).contains(h) ==> read_object(
                transfer(from, to, closure(from, root)),
                h,
            ) == read_object(from, h),
        forall|h: Seq<u8>|
            to.contains_key(h) ==> transfer(from, to, closure(from, root)).contains_key(h)
                && transfer(from, to, closure(from, root))[h] == to[h],
{
    let wanted = closure(from, root);
    let after = transfer(from, to, wanted);
    assert forall|h: Seq<u8>| wanted.contains(h) implies read_object(after, h) == read_object(
        from,
        h,
    ) by {
        assert(after.contains_key(h) && after[h] == from[h]);
    }
    lemma_closure_is_closed(from, root);
    lemma_same_closure(from, after, root, wanted);
}

/// Copies into `to` each object of `hashes` that `from` holds.
fn copy_objects(from: &ByteMap, to: &mut ByteMap, hashes: &ByteSet)
    requires
        forall|h: Seq<u8>| hashes@.contains(h) ==> !old(to)@.contains_key(h),
    ensures
        final(to)@ == transfer(from@, old(to)@, hashes@),
{
    let n = hashes.len();
    let mut i: usize = 0;
    assert(to@ =~= transfer(from@, to@, hashes.elements().take(0).to_set()));
    while i < n
        invariant
            i <= n,
            n == hashes.elements().len(),
            forall|h: Seq<u8>| hashes@.contains(h) ==> !old(to)@.contains_key(h),
            to@ == transfer(from@, old(to)@, hashes.elements().take(i as int).to_set()),
        decreases n - i,
    {
        let hash = hashes.get(i);
        let ghost before = to@;
        match from.get(hash.as_slice()) {
            Some(stream) => {
                to.insert(hash.clone(), stream.clone());
            },
            None => {},
        }
        proof {
            let elems = hashes.elements();
            let shorter = elems.take(i as int);
            let longer = elems.take(i + 1);
            assert(longer =~= shorter.push(elems[i as int]));
            assert forall|q: Seq<u8>| longer.to_set().contains(q) <==> shorter.to_set().contains(q)
                || q == elems[i as int] by {
                if longer.contains(q) {
                    let k = choose|k: int| 0 <= k < longer.len() && longer[k] == q;
                    if k < i {
                        assert(shorter[k] == q);
                    }
                }
                if shorter.contains(q) {
                    let k = choose|k: int| 0 <= k < shorter.len() && shorter[k] == q;
                    assert(longer[k] == q);
                }
                assert(longer[i as int] == elems[i as int]);
            }
            assert(to@ =~= transfer(from@, old(to)@, longer.to_set()));
        }
        i += 1;
    }
    assert(hashes.elements().take(i as int) =~= hashes.elements());
}

/// Gives `remote` the objects that the branch of `local` reaches and
/// `remote` lacks, and makes the branch of `remote` name the same commit.
///
/// Without the branch in `local` the push fails; so it does where an object
/// that the branch reaches cannot be read. `remote` is then left as it was.
pub fn push(local: &Repository, remote: &mut Repository, branch: &[u8]) -> (r: Result<(), Error>)
    ensures
        final(remote)@.index == old(remote)@.index,
        match r {
            Ok(_) => {
                &&& local@.refs.contains_key(branch_ref(branch@))
                &&& forall|h: Seq<u8>|
                    reachable(local@.objects, trim(local@.refs[branch_ref(branch@)]), h)
                        ==> read_object(local@.objects, h) is Ok
                &&& final(remote)@.objects == transfer(
                    local@.objects,
                    old(remote)@.objects,
                    closure(local@.objects, trim(local@.refs[branch_ref(branch@)])),
                )
                &&& final(remote)@.refs == old(remote)@.refs.insert(
                    branch_ref(branch@),
                    trim(local@.refs[branch_ref(branch@)]),
                )
            },
            Err(e) => {
                &&& final(remote)@.objects == old(remote)@.objects
                &&& final(remote)@.refs == old(remote)@.refs
                &&& if local@.refs.contains_key(branch_ref(branch@)) {
                    exists|h: Seq<u8>|
                        reachable(local@.objects, trim(local@.refs[branch_ref(branch@)]), h)
                            && #[trigger] read_object(local@.objects, h) == Err::<Seq<u8>, Error>(
                            e,
                        )
                } else {
                    e == Error::RefNotFound
                }
            },
        },
{
    let name = branch_ref_of(branch);
    let commit_hash = match local.refs.get(name.as_slice()) {
        Some(content) => trimmed(content.as_slice()),
        None => {
            return Err(Error::RefNotFound);
        },
    };
    let objects = collect_objects(&local.objects, commit_hash.as_slice())?;
    let missing = get_missing_objects(&remote.objects, &objects);
    let ghost before = remote.objects@;
    copy_objects(&local.objects, &mut remote.objects, &missing);
    assert(remote.objects@ =~= transfer(local@.objects, before, objects@)) by {
        assert forall|h: Seq<u8>| objects@.contains(h) implies local@.objects.contains_key(h) by {
            assert(read_object(local@.objects, h) is Ok);
        }
    }
    assert forall|h: Seq<u8>| reachable(local@.objects, commit_hash@, h) implies read_object(
        local@.objects,
        h,
    ) is Ok by {
        assert(closure(local@.objects, commit_hash@).contains(h));
    }
    update_ref(&mut remote.refs, name.as_slice(), commit_hash.as_slice());
    Ok(())
}

/// The reference under which a fetch records the branch of the other
/// repository.
pub open spec fn remote_ref(branch: Seq<u8>) -> Seq<u8> {
    ascii("refs/remotes/"@) + branch
}

/// Takes from `remote` the objects that its branch reaches and `local`
/// lacks, and records in `local` the commit that the branch names.
///
/// Without the branch in `remote` the fetch fails; so it does where an
/// object that the branch reaches cannot be read. `local` is then left as it
/// was.
pub fn fetch(remote: &Repository, local: &mut Repository, branch: &[u8]) -> (r: Result<(), Error>)
    ensures
        final(local)@.index == old(local)@.index,
        match r {
            Ok(_) => {
                &&& remote@.refs.contains_key(branch_ref(branch@))
                &&& forall|h: Seq<u8>|
                    reachable(remote@.objects, trim(remote@.refs[branch_ref(branch@)]), h)
                        ==> read_object(remote@.objects, h) is Ok
                &&& final(local)@.objects == transfer(
                    remote@.objects,
                    old(local)@.objects,
                    closure(remote@.objects, trim(remote@.refs[branch_ref(branch@)])),
                )
                &&& final(local)@.refs == old(local)@.refs.insert(
                    remote_ref(branch@),
                    trim(remote@.refs[branch_ref(branch@)]),
                )
            },
            Err(e) => {
                &&& final(local)@.objects == old(local)@.objects
                &&& final(local)@.refs == old(local)@.refs
                &&& if remote@.refs.contains_key(branch_ref(branch@)) {
                    exists|h: Seq<u8>|
                        reachable(remote@.objects, trim(remote@.refs[branch_ref(branch@)]), h)
                            && #[trigger] read_object(remote@.objects, h) == Err::<Seq<u8>, Error>(
                            e,
                        )
                } else {
                    e == Error::RefNotFound
                }
            },
        },
{
    proof {
        reveal_strlit("refs/remotes/");
    }
    let name = branch_ref_of(branch);
    let commit_hash = match remote.refs.get(name.as_slice()) {
        Some(content) => trimmed(content.as_slice()),
        None => {
            return Err(Error::RefNotFound);
        },
    };
    let objects = collect_objects(&remote.objects, commit_hash.as_slice())?;
    let missing = get_missing_objects(&local.objects, &objects);
    let ghost before = local.objects@;
    copy_objects(&remote.objects, &mut local.objects, &missing);
    assert(local.objects@ =~= transfer(remote@.objects, before, objects@)) by {
        assert forall|h: Seq<u8>| objects@.contains(h) implies remote@.objects.contains_key(h) by {
            assert(read_object(remote@.objects, h) is Ok);
        }
    }
    assert forall|h: Seq<u8>| reachable(remote@.objects, commit_hash@, h) implies read_object(
        remote@.objects,
        h,
    ) is Ok by {
        assert(closure(remote@.objects, commit_hash@).contains(h));
    }
    let mut recorded = slice_to_vec(literal("refs/remotes/"));
    recorded.extend_from_slice(branch);
    assert(recorded@ =~= remote_ref(branch@));
    update_ref(&mut local.refs, recorded.as_slice(), commit_hash.as_slice());
    Ok(())
}

} // verus!
