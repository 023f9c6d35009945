//! Walking the graph of objects: what a commit reaches, and which of a set
//! of objects a store lacks.

use crate::error::Error;
use crate::format::commit_text;
use crate::format::links_of;
use crate::format::object_links;
use crate::format::tree_text;
use crate::readback::all_words;
use crate::readback::lemma_commit_fields;
use crate::readback::lemma_tree_links;
use crate::store::cat_file;
use crate::store::read_object;
use crate::table::ByteMap;
use crate::table::ByteSet;
use crate::table::Entry;
use crate::text::is_word;
use crate::text::views;
use crate::text::NEWLINE;
use vstd::prelude::*;
use vstd::slice::slice_to_vec;

verus! {

/// The hashes that the object stored under `h` refers to. An object that
/// cannot be read refers to nothing.
pub open spec fn links(store: Map<Seq<u8>, Seq<u8>>, h: Seq<u8>) -> Seq<Seq<u8>> {
    match read_object(store, h) {
        Ok(content) => object_links(content),
        Err(_) => Seq::empty(),
    }
}

/// Each hash of `p` but the last refers to the next.
pub open spec fn is_path(store: Map<Seq<u8>, Seq<u8>>, p: Seq<Seq<u8>>) -> bool {
    &&& p.len() >= 1
    &&& forall|i: int| 0 <= i < p.len() - 1 ==> links(store, #[trigger] p[i]).contains(p[i + 1])
}

/// A path leads from `root` to `h`.
pub open spec fn reachable(store: Map<Seq<u8>, Seq<u8>>, root: Seq<u8>, h: Seq<u8>) -> bool {
    exists|p: Seq<Seq<u8>>| #[trigger] is_path(store, p) && p[0] == root && p.last() == h
}

/// Every hash that `root` reaches, `root` among them.
pub open spec fn closure(store: Map<Seq<u8>, Seq<u8>>, root: Seq<u8>) -> Set<Seq<u8>> {
    Set::new(|h: Seq<u8>| reachable(store, root, h))
}

/// An object reaches itself.
pub proof fn lemma_reachable_root(store: Map<Seq<u8>, Seq<u8>>, root: Seq<u8>)
    ensures
        reachable(store, root, root),
{
    let p = seq![root];
    assert(is_path(store, p) && p[0] == root && p.last() == root);
}

/// What a reached object refers to is reached too.
pub proof fn lemma_reachable_step(
    store: Map<Seq<u8>, Seq<u8>>,
    root: Seq<u8>,
    h: Seq<u8>,
    next: Seq<u8>,
)
    requires
        reachable(store, root, h),
        links(store, h).contains(next),
    ensures
        reachable(store, root, next),
{
    let p = choose|p: Seq<Seq<u8>>| #[trigger] is_path(store, p) && p[0] == root && p.last() == h;
    let q = p.push(next);
    assert forall|i: int| 0 <= i < q.len() - 1 implies links(store, #[trigger] q[i]).contains(
        q[i + 1],
    ) by {
        if i < p.len() - 1 {
            assert(q[i] == p[i] && q[i + 1] == p[i + 1]);
        } else {
            assert(q[i] == h && q[i + 1] == next);
        }
    }
    assert(is_path(store, q) && q[0] == root && q.last() == next);
}

/// Whether `s` holds, with each of its hashes, all that the hash refers to.
pub open spec fn closed_under_links(store: Map<Seq<u8>, Seq<u8>>, s: Set<Seq<u8>>) -> bool {
    forall|v: Seq<u8>, c: Seq<u8>| s.contains(v) && #[trigger] links(store, v).contains(c) ==> s.contains(c)
}

/// A path that begins in a set closed under links never leaves it.
proof fn lemma_path_stays_inside(
    store: Map<Seq<u8>, Seq<u8>>,
    s: Set<Seq<u8>>,
    p: Seq<Seq<u8>>,
    i: int,
)
    requires
        is_path(store, p),
        closed_under_links(store, s),
        s.contains(p[0]),
        0 <= i < p.len(),
    ensures
        s.contains(p[i]),
    decreases i,
{
    if i > 0 {
        lemma_path_stays_inside(store, s, p, i - 1);
        assert(links(store, p[i - 1]).contains(p[i - 1 + 1]));
    }
}

/// A set that holds `root` and all that its hashes refer to holds all that
/// `root` reaches.
pub proof fn lemma_closed_set_holds_closure(
    store: Map<Seq<u8>, Seq<u8>>,
    root: Seq<u8>,
    s: Set<Seq<u8>>,
)
    requires
        s.contains(root),
        closed_under_links(store, s),
    ensures
        closure(store, root).subset_of(s),
{
    assert forall|h: Seq<u8>| closure(store, root).contains(h) implies s.contains(h) by {
        let p = choose|p: Seq<Seq<u8>>| #[trigger]
            is_path(store, p) && p[0] == root && p.last() == h;
        lemma_path_stays_inside(store, s, p, p.len() - 1);
    }
}

/// What an object reaches is the object itself and what the objects
/// reach that it refers to.
pub proof fn lemma_closure_unfolds(store: Map<Seq<u8>, Seq<u8>>, root: Seq<u8>)
    ensures
        forall|h: Seq<u8>| #[trigger]
            closure(store, root).contains(h) <==> h == root || exists|next: Seq<u8>|
                links(store, root).contains(next) && #[trigger] reachable(store, next, h),
{
    assert forall|h: Seq<u8>| #[trigger]
        closure(store, root).contains(h) <==> h == root || exists|next: Seq<u8>|
            links(store, root).contains(next) && #[trigger] reachable(store, next, h) by {
        if reachable(store, root, h) && h != root {
            let p = choose|p: Seq<Seq<u8>>| #[trigger]
                is_path(store, p) && p[0] == root && p.last() == h;
            assert(p.len() >= 2);
            let q = p.skip(1);
            assert forall|i: int| 0 <= i < q.len() - 1 implies links(store, #[trigger] q[i]).contains(
                q[i + 1],
            ) by {
                assert(q[i] == p[i + 1] && q[i + 1] == p[i + 1 + 1]);
                assert(links(store, p[i + 1]).contains(p[i + 1 + 1]));
            }
            assert(is_path(store, q) && q[0] == p[1] && q.last() == h);
            assert(links(store, p[0]).contains(p[0int + 1]));
            assert(reachable(store, p[1], h));
        }
        if h == root {
            lemma_reachable_root(store, root);
        }
        if exists|next: Seq<u8>|
            links(store, root).contains(next) && #[trigger] reachable(store, next, h) {
            let next = choose|next: Seq<u8>|
                links(store, root).contains(next) && #[trigger] reachable(store, next, h);
            let p = choose|p: Seq<Seq<u8>>| #[trigger]
                is_path(store, p) && p[0] == next && p.last() == h;
            let q = seq![root] + p;
            assert forall|i: int| 0 <= i < q.len() - 1 implies links(store, #[trigger] q[i]).contains(
                q[i + 1],
            ) by {
                if i == 0 {
                    assert(q[0] == root && q[1] == next);
                } else {
                    assert(q[i] == p[i - 1] && q[i + 1] == p[i - 1 + 1]);
                    assert(links(store, p[i - 1]).contains(p[i - 1 + 1]));
                }
            }
            assert(is_path(store, q) && q[0] == root && q.last() == h);
        }
    }
}

/// What an object reaches holds, with each hash, all that the hash refers
/// to.
pub proof fn lemma_closure_is_closed(store: Map<Seq<u8>, Seq<u8>>, root: Seq<u8>)
    ensures
        closure(store, root).contains(root),
        closed_under_links(store, closure(store, root)),
{
    lemma_reachable_root(store, root);
    assert forall|v: Seq<u8>, c: Seq<u8>|
        closure(store, root).contains(v) && #[trigger] links(store, v).contains(c) implies closure(
        store,
        root,
    ).contains(c) by {
        lemma_reachable_step(store, root, v, c);
    }
}

/// What `root` reaches in `a` it reaches in `b`, where the two read the
/// objects of a closed set alike.
proof fn lemma_closure_carries_over(
    a: Map<Seq<u8>, Seq<u8>>,
    b: Map<Seq<u8>, Seq<u8>>,
    root: Seq<u8>,
    s: Set<Seq<u8>>,
)
    requires
        s.contains(root),
        closed_under_links(a, s),
        forall|h: Seq<u8>| s.contains(h) ==> read_object(a, h) == read_object(b, h),
    ensures
        closure(a, root).subset_of(closure(b, root)),
{
    assert forall|h: Seq<u8>| closure(a, root).contains(h) implies closure(b, root).contains(h) by {
        let p = choose|p: Seq<Seq<u8>>| #[trigger] is_path(a, p) && p[0] == root && p.last() == h;
        assert forall|i: int| 0 <= i < p.len() - 1 implies links(b, #[trigger] p[i]).contains(
            p[i + 1],
        ) by {
            lemma_path_stays_inside(a, s, p, i);
            assert(links(a, p[i]).contains(p[i + 1]));
        }
        assert(is_path(b, p) && p[0] == root && p.last() == h);
    }
}

/// Two stores in which the objects of a set read alike reach the same from
/// a root, where the set holds the root and all that its objects refer to.
pub proof fn lemma_same_closure(
    a: Map<Seq<u8>, Seq<u8>>,
    b: Map<Seq<u8>, Seq<u8>>,
    root: Seq<u8>,
    s: Set<Seq<u8>>,
)
    requires
        s.contains(root),
        closed_under_links(a, s),
        forall|h: Seq<u8>| s.contains(h) ==> read_object(a, h) == read_object(b, h),
    ensures
        closure(a, root) == closure(b, root),
{
    assert(closed_under_links(b, s)) by {
        assert forall|v: Seq<u8>, c: Seq<u8>|
            s.contains(v) && #[trigger] links(b, v).contains(c) implies s.contains(c) by {
            assert(links(a, v).contains(c));
        }
    }
    lemma_closure_carries_over(a, b, root, s);
    lemma_closure_carries_over(b, a, root, s);
    assert(closure(a, root) =~= closure(b, root));
}

/// An object that refers to nothing reaches itself alone.
pub proof fn lemma_closure_of_leaf(store: Map<Seq<u8>, Seq<u8>>, hash: Seq<u8>)
    requires
        links(store, hash).len() == 0,
    ensures
        closure(store, hash) == set![hash],
{
    lemma_closure_unfolds(store, hash);
    assert(closure(store, hash) =~= set![hash]);
}

/// What a commit reaches: itself, what its tree reaches, and what its parent
/// reaches.
pub proof fn lemma_closure_of_commit(
    store: Map<Seq<u8>, Seq<u8>>,
    commit: Seq<u8>,
    message: Seq<u8>,
    author: Seq<u8>,
    tree: Seq<u8>,
    parent: Option<Seq<u8>>,
)
    requires
        read_object(store, commit) == Ok::<Seq<u8>, Error>(
            commit_text(message, author, tree, parent),
        ),
        is_word(tree),
        !author.contains(NEWLINE),
        parent matches Some(p) ==> is_word(p),
    ensures
        closure(store, commit) == set![commit].union(closure(store, tree)).union(
            match parent {
                Some(p) => closure(store, p),
                None => Set::empty(),
            },
        ),
{
    lemma_commit_fields(message, author, tree, parent);
    lemma_closure_unfolds(store, commit);
    let named = links(store, commit);
    let rest = match parent {
        Some(p) => closure(store, p),
        None => Set::empty(),
    };
    let want = set![commit].union(closure(store, tree)).union(rest);
    assert(named[0] == tree);
    assert(named.contains(tree));
    if parent is Some {
        assert(named[1] == parent->0);
        assert(named.contains(parent->0));
    }
    assert forall|h: Seq<u8>| closure(store, commit).contains(h) <==> want.contains(h) by {
        if closure(store, commit).contains(h) && h != commit {
            let next = choose|next: Seq<u8>|
                named.contains(next) && #[trigger] reachable(store, next, h);
            let i = choose|i: int| 0 <= i < named.len() && named[i] == next;
            if i == 0 {
                assert(closure(store, tree).contains(h));
            } else {
                assert(parent is Some && closure(store, parent->0).contains(h));
            }
        }
        if closure(store, tree).contains(h) {
            assert(reachable(store, tree, h));
        }
        if rest.contains(h) {
            assert(reachable(store, parent->0, h));
        }
    }
    assert(closure(store, commit) =~= want);
}

/// What the tree of an index reaches: itself, and what the blobs of the
/// entries reach.
pub proof fn lemma_closure_of_tree(store: Map<Seq<u8>, Seq<u8>>, tree: Seq<u8>, es: Seq<Entry>)
    requires
        read_object(store, tree) == Ok::<Seq<u8>, Error>(tree_text(es)),
        all_words(es),
    ensures
        forall|h: Seq<u8>| #[trigger]
            closure(store, tree).contains(h) <==> h == tree || exists|i: int|
                0 <= i < es.len() && reachable(store, (#[trigger] es[i]).1, h),
{
    lemma_tree_links(es);
    lemma_closure_unfolds(store, tree);
    let named = links(store, tree);
    assert(named == es.map_values(|e: Entry| e.1));
    assert forall|h: Seq<u8>| #[trigger]
        closure(store, tree).contains(h) <==> h == tree || exists|i: int|
            0 <= i < es.len() && reachable(store, (#[trigger] es[i]).1, h) by {
        if closure(store, tree).contains(h) && h != tree {
            let next = choose|next: Seq<u8>|
                named.contains(next) && #[trigger] reachable(store, next, h);
            let i = choose|i: int| 0 <= i < named.len() && named[i] == next;
            assert(reachable(store, es[i].1, h));
        }
        if exists|i: int| 0 <= i < es.len() && reachable(store, (#[trigger] es[i]).1, h) {
            let i = choose|i: int| 0 <= i < es.len() && reachable(store, (#[trigger] es[i]).1, h);
            assert(named[i] == es[i].1);
            assert(named.contains(es[i].1));
        }
    }
}

/// All the objects that `commit_hash` reaches, itself among them.
///
/// The walk visits each object once, whatever the shape of the graph, and so
/// ends on a graph with cycles too. It fails when it meets an object that
/// cannot be read, with that object's error.
pub fn collect_objects(store: &ByteMap, commit_hash: &[u8]) -> (r: Result<ByteSet, Error>)
    ensures
        match r {
            Ok(found) => {
                &&& found@ == closure(store@, commit_hash@)
                &&& forall|h: Seq<u8>| found@.contains(h) ==> read_object(store@, h) is Ok
            },
            Err(e) => exists|h: Seq<u8>|
                reachable(store@, commit_hash@, h) && #[trigger] read_object(store@, h) == Err::<
                    Seq<u8>,
                    Error,
                >(e),
        },
{
    let ghost root = commit_hash@;
    let ghost graph = store@;
    // The store holds finitely many objects, which bounds the walk.
    let _stored: usize = store.len();
    let mut visited = ByteSet::new();
    let mut to_visit: Vec<Vec<u8>> = Vec::new();
    to_visit.push(slice_to_vec(commit_hash));
    proof {
        lemma_reachable_root(graph, root);
        assert(views(to_visit@)[0] == root);
    }
    while to_visit.len() > 0
        invariant
            graph == store@,
            root == commit_hash@,
            graph.dom().finite(),
            forall|h: Seq<u8>|
                visited@.contains(h) ==> reachable(graph, root, h) && read_object(graph, h) is Ok,
            forall|i: int|
                0 <= i < to_visit.len() ==> reachable(graph, root, #[trigger] views(to_visit@)[i]),
            visited@.contains(root) || views(to_visit@).contains(root),
            forall|v: Seq<u8>, c: Seq<u8>|
                visited@.contains(v) && #[trigger] links(graph, v).contains(c) ==> visited@.contains(
                    c,
                ) || views(to_visit@).contains(c),
        decreases graph.dom().difference(visited@).len(), to_visit.len(),
    {
        let ghost stack_before = views(to_visit@);
        let ghost seen_before = visited@;
        let current = to_visit.pop().unwrap();
        assert(views(to_visit@) =~= stack_before.drop_last());
        assert(stack_before.last() == current@);
        assert(reachable(graph, root, current@));
        assert forall|c: Seq<u8>| stack_before.contains(c) implies views(to_visit@).contains(c)
            || c == current@ by {
            let i = choose|i: int| 0 <= i < stack_before.len() && stack_before[i] == c;
            if i < stack_before.len() - 1 {
                assert(views(to_visit@)[i] == c);
            }
        }
        assert forall|i: int| 0 <= i < to_visit.len() implies reachable(
            graph,
            root,
            #[trigger] views(to_visit@)[i],
        ) by {
            assert(views(to_visit@)[i] == stack_before[i]);
        }
        if !visited.contains(current.as_slice()) {
            let content = match cat_file(store, current.as_slice()) {
                Ok(content) => content,
                Err(e) => {
                    assert(read_object(graph, current@) == Err::<Seq<u8>, Error>(e));
                    return Err(e);
                },
            };
            let children = links_of(content.as_slice());
            assert(views(children@) == links(graph, current@));
            assert(graph.dom().contains(current@));
            visited.insert(current.clone());
            proof {
                assert(graph.dom().difference(visited@) =~= graph.dom().difference(
                    seen_before,
                ).remove(current@));
                assert(graph.dom().difference(seen_before).contains(current@));
            }
            let ghost stack_mid = views(to_visit@);
            let mut j: usize = 0;
            while j < children.len()
                invariant
                    j <= children.len(),
                    views(children@) == links(graph, current@),
                    reachable(graph, root, current@),
                    forall|i: int|
                        0 <= i < to_visit.len() ==> reachable(
                            graph,
                            root,
                            #[trigger] views(to_visit@)[i],
                        ),
                    forall|c: Seq<u8>| stack_mid.contains(c) ==> views(to_visit@).contains(c),
                    forall|k: int|
                        0 <= k < j ==> views(to_visit@).contains(#[trigger] views(children@)[k]),
                decreases children.len() - j,
            {
                let ghost stack_now = views(to_visit@);
                to_visit.push(children[j].clone());
                proof {
                    let child = views(children@)[j as int];
                    assert(views(to_visit@) =~= stack_now.push(child));
                    assert(links(graph, current@).contains(child));
                    lemma_reachable_step(graph, root, current@, child);
                    assert forall|i: int| 0 <= i < to_visit.len() implies reachable(
                        graph,
                        root,
                        #[trigger] views(to_visit@)[i],
                    ) by {
                        if i < stack_now.len() {
                            assert(views(to_visit@)[i] == stack_now[i]);
                        }
                    }
                    assert forall|c: Seq<u8>| stack_now.contains(c) implies views(
                        to_visit@,
                    ).contains(c) by {
                        let i = choose|i: int| 0 <= i < stack_now.len() && stack_now[i] == c;
                        assert(views(to_visit@)[i] == c);
                    }
                    assert(views(to_visit@)[stack_now.len() as int] == child);
                }
                j += 1;
            }
            proof {
                assert forall|v: Seq<u8>, c: Seq<u8>|
                    visited@.contains(v) && #[trigger] links(graph, v).contains(
                        c,
                    ) implies visited@.contains(c) || views(to_visit@).contains(c) by {
                    if v == current@ {
                        let k = choose|k: int|
                            0 <= k < links(graph, v).len() && links(graph, v)[k] == c;
                        assert(views(children@)[k] == c);
                    } else {
                        assert(seen_before.contains(v));
                        if !seen_before.contains(c) {
                            assert(stack_before.contains(c));
                        }
                    }
                }
            }
        } else {
            assert forall|v: Seq<u8>, c: Seq<u8>|
                visited@.contains(v) && #[trigger] links(graph, v).contains(
                    c,
                ) implies visited@.contains(c) || views(to_visit@).contains(c) by {
                if !visited@.contains(c) {
                    assert(stack_before.contains(c));
                }
            }
        }
    }
    proof {
        assert(views(to_visit@) =~= Seq::<Seq<u8>>::empty());
        assert(closed_under_links(graph, visited@));
        lemma_closed_set_holds_closure(graph, root, visited@);
        assert(visited@ =~= closure(graph, root));
    }
    Ok(visited)
}

/// The objects of `objects` that the store does not hold.
///
/// Only the hashes are compared, never what is stored under them.
pub fn get_missing_objects(store: &ByteMap, objects: &ByteSet) -> (missing: ByteSet)
    ensures
        missing@ == objects@.difference(store@.dom()),
{
    let mut missing = ByteSet::new();
    let n = objects.len();
    let mut i: usize = 0;
    while i < n
        invariant
            i <= n,
            n == objects.elements().len(),
            forall|q: Seq<u8>|
                missing@.contains(q) <==> objects.elements().take(i as int).contains(q)
                    && !store@.dom().contains(q),
        decreases n - i,
    {
        let hash = objects.get(i);
        let ghost before = missing@;
        if !store.contains_key(hash.as_slice()) {
            missing.insert(hash.clone());
        }
        proof {
            let elems = objects.elements();
            assert(elems.take(i + 1) =~= elems.take(i as int).push(elems[i as int]));
            assert forall|q: Seq<u8>|
                missing@.contains(q) <==> elems.take(i + 1).contains(q) && !store@.dom().contains(
                    q,
                ) by {
                let shorter = elems.take(i as int);
                let longer = elems.take(i + 1);
                if longer.contains(q) {
                    let k = choose|k: int| 0 <= k < longer.len() && longer[k] == q;
                    if k < i {
                        assert(shorter[k] == q);
                    }
                }
                if shorter.contains(q) {
                    let k = choose|k: int| 0 <= k < shorter.len() && shorter[k] == q;
                    assert(longer[k] == q);
                }
                assert(longer[i as int] == elems[i as int]);
            }
        }
        i += 1;
    }
    proof {
        assert(objects.elements().take(i as int) =~= objects.elements());
        assert(missing@ =~= objects@.difference(store@.dom()));
    }
    missing
}

/// What a store lacks and what it holds of a set of objects are the two parts
/// of that set: together they make it up, and they share nothing.
pub proof fn lemma_missing_and_present(objects: Set<Seq<u8>>, stored: Set<Seq<u8>>)
    ensures
        objects.difference(stored).union(objects.intersect(stored)) == objects,
        objects.difference(stored).intersect(objects.intersect(stored)) == Set::<Seq<u8>>::empty(),
        objects.difference(stored).subset_of(objects),
{
    assert(objects.difference(stored).union(objects.intersect(stored)) =~= objects);
    assert(objects.difference(stored).intersect(objects.intersect(stored)) =~= Set::<
        Seq<u8>,
    >::empty());
}

} // verus!
