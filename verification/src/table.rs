//! Small keyed collections of byte strings, kept in insertion order.
//!
//! `ByteMap` maps a key to a value and `ByteSet` holds keys; in both no key
//! occurs twice. They are searched from the front, which suits the handful of
//! entries an index or a set of references holds.

use crate::text::bytes_eq;
use vstd::prelude::*;

verus! {

/// A key with its value.
pub type Entry = (Seq<u8>, Seq<u8>);

/// Whether some entry has the key `k`.
pub open spec fn has_key(es: Seq<Entry>, k: Seq<u8>) -> bool {
    exists|i: int| 0 <= i < es.len() && (#[trigger] es[i]).0 == k
}

/// The place of an entry with the key `k`.
pub open spec fn key_index(es: Seq<Entry>, k: Seq<u8>) -> int {
    choose|i: int| 0 <= i < es.len() && (#[trigger] es[i]).0 == k
}

/// No two entries share a key.
pub open spec fn distinct_keys(es: Seq<Entry>) -> bool {
    forall|i: int, j: int| 0 <= i < j < es.len() ==> (#[trigger] es[i]).0 != (#[trigger] es[j]).0
}

/// The map that a sequence of entries stands for.
pub open spec fn entries_map(es: Seq<Entry>) -> Map<Seq<u8>, Seq<u8>> {
    Map::new(|k: Seq<u8>| has_key(es, k), |k: Seq<u8>| es[key_index(es, k)].1)
}

/// The entries with `k` set to `v`: in place where `k` is present, at the end
/// where it is not.
pub open spec fn upsert(es: Seq<Entry>, k: Seq<u8>, v: Seq<u8>) -> Seq<Entry> {
    if has_key(es, k) {
        es.update(key_index(es, k), (k, v))
    } else {
        es.push((k, v))
    }
}

/// The entries without the one for `k`.
pub open spec fn without(es: Seq<Entry>, k: Seq<u8>) -> Seq<Entry> {
    if has_key(es, k) {
        es.remove(key_index(es, k))
    } else {
        es
    }
}

/// With distinct keys, the entry at `i` is the one found for its key.
pub proof fn lemma_entry_at(es: Seq<Entry>, i: int)
    requires
        distinct_keys(es),
        0 <= i < es.len(),
    ensures
        has_key(es, es[i].0),
        key_index(es, es[i].0) == i,
        entries_map(es).contains_key(es[i].0),
        entries_map(es)[es[i].0] == es[i].1,
{
    let j = key_index(es, es[i].0);
    assert(0 <= j < es.len() && es[j].0 == es[i].0);
    if j < i {
        assert(es[j].0 != es[i].0);
    } else if i < j {
        assert(es[i].0 != es[j].0);
    }
}

/// Setting a key keeps the keys distinct, and is an insertion into the map.
pub proof fn lemma_upsert(es: Seq<Entry>, k: Seq<u8>, v: Seq<u8>)
    requires
        distinct_keys(es),
    ensures
        distinct_keys(upsert(es, k, v)),
        entries_map(upsert(es, k, v)) == entries_map(es).insert(k, v),
{
    let after = upsert(es, k, v);
    let at: int = if has_key(es, k) {
        key_index(es, k)
    } else {
        es.len() as int
    };
    assert(after[at] == (k, v));
    assert forall|i: int, j: int| 0 <= i < j < after.len() implies (#[trigger] after[i]).0 != (
    #[trigger] after[j]).0 by {
        if i != at && j != at {
            assert(after[i] == es[i] && after[j] == es[j]);
        } else if i == at && has_key(es, k) {
            assert(after[j] == es[j]);
            assert(es[at].0 != es[j].0);
        } else if j == at {
            assert(after[i] == es[i]);
            if has_key(es, k) {
                assert(es[i].0 != es[at].0);
            }
        }
    }
    lemma_entry_at(after, at);
    assert forall|q: Seq<u8>| #[trigger]
        entries_map(after).contains_key(q) == entries_map(es).insert(k, v).contains_key(q) by {
        if has_key(after, q) {
            let i = key_index(after, q);
            if i != at {
                assert(es[i].0 == q);
            }
        }
        if has_key(es, q) {
            let i = key_index(es, q);
            assert(after[i].0 == q);
        }
    }
    assert forall|q: Seq<u8>| #[trigger]
        entries_map(after).contains_key(q) implies entries_map(after)[q] == entries_map(
        es,
    ).insert(k, v)[q] by {
        let i = key_index(after, q);
        lemma_entry_at(after, i);
        if i != at {
            assert(after[i] == es[i]);
            lemma_entry_at(es, i);
        }
    }
    assert(entries_map(after) =~= entries_map(es).insert(k, v));
}

/// Taking a key out keeps the keys distinct, and is a removal from the map.
pub proof fn lemma_without(es: Seq<Entry>, k: Seq<u8>)
    requires
        distinct_keys(es),
    ensures
        distinct_keys(without(es, k)),
        entries_map(without(es, k)) == entries_map(es).remove(k),
{
    let after = without(es, k);
    if has_key(es, k) {
        let at = key_index(es, k);
        lemma_entry_at(es, at);
        assert forall|i: int| 0 <= i < after.len() implies #[trigger] after[i] == es[if i < at {
            i
        } else {
            i + 1
        }] by {}
        assert forall|i: int, j: int| 0 <= i < j < after.len() implies (#[trigger] after[i]).0 != (
        #[trigger] after[j]).0 by {
            let a = if i < at {
                i
            } else {
                i + 1
            };
            let b = if j < at {
                j
            } else {
                j + 1
            };
            assert(es[a].0 != es[b].0);
        }
        assert forall|q: Seq<u8>| #[trigger]
            entries_map(after).contains_key(q) == entries_map(es).remove(k).contains_key(q) by {
            if has_key(after, q) {
                let i = key_index(after, q);
                let a = if i < at {
                    i
                } else {
                    i + 1
                };
                assert(es[a].0 == q);
                if q == k {
                    lemma_entry_at(es, a);
                }
            }
            if has_key(es, q) && q != k {
                let a = key_index(es, q);
                let i = if a < at {
                    a
                } else {
                    a - 1
                };
                assert(after[i].0 == q);
            }
        }
        assert forall|q: Seq<u8>| #[trigger]
            entries_map(after).contains_key(q) implies entries_map(after)[q] == entries_map(
            es,
        ).remove(k)[q] by {
            let i = key_index(after, q);
            lemma_entry_at(after, i);
            let a = if i < at {
                i
            } else {
                i + 1
            };
            lemma_entry_at(es, a);
        }
        assert(entries_map(after) =~= entries_map(es).remove(k));
    } else {
        assert(entries_map(es) =~= entries_map(es).remove(k));
    }
}

/// The keys of distinct entries are as many as the entries.
pub proof fn lemma_entries_map_len(es: Seq<Entry>)
    requires
        distinct_keys(es),
    ensures
        entries_map(es).dom().finite(),
        entries_map(es).dom().len() == es.len(),
    decreases es.len(),
{
    if es.len() == 0 {
        assert(entries_map(es).dom() =~= Set::<Seq<u8>>::empty());
    } else {
        let last = es.last();
        let front = es.drop_last();
        assert forall|i: int, j: int| 0 <= i < j < front.len() implies (#[trigger] front[i]).0 != (
        #[trigger] front[j]).0 by {
            assert(front[i] == es[i] && front[j] == es[j]);
        }
        lemma_entries_map_len(front);
        assert(!has_key(front, last.0)) by {
            if has_key(front, last.0) {
                let i = key_index(front, last.0);
                assert(es[i].0 != es[es.len() - 1].0);
            }
        }
        assert(es =~= upsert(front, last.0, last.1));
        lemma_upsert(front, last.0, last.1);
        assert(entries_map(es).dom() =~= entries_map(front).dom().insert(last.0));
    }
}

/// One more entry adds its key to those of the entries before it.
pub proof fn lemma_has_key_take(es: Seq<Entry>, n: int, q: Seq<u8>)
    requires
        0 <= n < es.len(),
    ensures
        has_key(es.take(n + 1), q) <==> has_key(es.take(n), q) || q == es[n].0,
{
    let shorter = es.take(n);
    let longer = es.take(n + 1);
    if has_key(longer, q) {
        let k = key_index(longer, q);
        if k < n {
            assert(shorter[k].0 == q);
        }
    }
    if has_key(shorter, q) {
        let k = key_index(shorter, q);
        assert(longer[k].0 == q);
    }
    assert(longer[n].0 == es[n].0);
}

/// A map from byte strings to byte strings.
#[derive(Debug)]
pub struct ByteMap {
    items: Vec<(Vec<u8>, Vec<u8>)>,
}

impl View for ByteMap {
    type V = Map<Seq<u8>, Seq<u8>>;

    open spec fn view(&self) -> Map<Seq<u8>, Seq<u8>> {
        entries_map(self.entries())
    }
}

impl ByteMap {
    /// The entries in the order in which their keys were first inserted.
    pub closed spec fn entries(&self) -> Seq<Entry> {
        Seq::new(self.items@.len(), |i: int| (self.items@[i].0@, self.items@[i].1@))
    }

    #[verifier::type_invariant]
    spec fn well_formed(&self) -> bool {
        distinct_keys(self.entries())
    }

    /// A map without entries.
    pub fn new() -> (m: ByteMap)
        ensures
            m.entries() == Seq::<Entry>::empty(),
            m@ == Map::<Seq<u8>, Seq<u8>>::empty(),
    {
        let m = ByteMap { items: Vec::new() };
        assert(m.entries() =~= Seq::<Entry>::empty());
        assert(m@ =~= Map::<Seq<u8>, Seq<u8>>::empty());
        m
    }

    /// The number of entries, which is the number of keys.
    pub fn len(&self) -> (n: usize)
        ensures
            n == self.entries().len(),
            distinct_keys(self.entries()),
            self@.dom().finite(),
            n == self@.dom().len(),
    {
        proof {
            use_type_invariant(self);
            lemma_entries_map_len(self.entries());
        }
        self.items.len()
    }

    /// The key of the entry at `i`.
    pub fn key_at(&self, i: usize) -> (k: &Vec<u8>)
        requires
            i < self.entries().len(),
        ensures
            k@ == self.entries()[i as int].0,
            self@.contains_key(k@),
    {
        proof {
            use_type_invariant(self);
            lemma_entry_at(self.entries(), i as int);
        }
        &self.items[i].0
    }

    /// The value of the entry at `i`.
    pub fn value_at(&self, i: usize) -> (v: &Vec<u8>)
        requires
            i < self.entries().len(),
        ensures
            v@ == self.entries()[i as int].1,
            v@ == self@[self.entries()[i as int].0],
    {
        proof {
            use_type_invariant(self);
            lemma_entry_at(self.entries(), i as int);
        }
        &self.items[i].1
    }

    /// The place of the entry for `key`.
    pub fn position(&self, key: &[u8]) -> (r: Option<usize>)
        ensures
            match r {
                Some(i) => has_key(self.entries(), key@) && i == key_index(self.entries(), key@),
                None => !has_key(self.entries(), key@),
            },
    {
        proof {
            use_type_invariant(self);
        }
        let mut i: usize = 0;
        while i < self.items.len()
            invariant
                i <= self.items.len(),
                distinct_keys(self.entries()),
                forall|j: int| 0 <= j < i ==> (#[trigger] self.entries()[j]).0 != key@,
            decreases self.items.len() - i,
        {
            if bytes_eq(self.items[i].0.as_slice(), key) {
                proof {
                    lemma_entry_at(self.entries(), i as int);
                }
                return Some(i);
            }
            i += 1;
        }
        None
    }

    /// Whether `key` has a value.
    pub fn contains_key(&self, key: &[u8]) -> (r: bool)
        ensures
            r == self@.contains_key(key@),
    {
        self.position(key).is_some()
    }

    /// The value of `key`, if it has one.
    pub fn get(&self, key: &[u8]) -> (r: Option<&Vec<u8>>)
        ensures
            match r {
                Some(v) => self@.contains_key(key@) && v@ == self@[key@],
                None => !self@.contains_key(key@),
            },
    {
        match self.position(key) {
            Some(i) => Some(self.value_at(i)),
            None => None,
        }
    }

    /// Sets `key` to `val`, whether or not `key` was present.
    pub fn insert(&mut self, key: Vec<u8>, val: Vec<u8>)
        ensures
            final(self)@ == old(self)@.insert(key@, val@),
            final(self).entries() == upsert(old(self).entries(), key@, val@),
    {
        proof {
            use_type_invariant(&*self);
            lemma_upsert(self.entries(), key@, val@);
        }
        let ghost before = self.entries();
        let ghost after = upsert(before, key@, val@);
        let at = self.position(key.as_slice());
        let mut items: Vec<(Vec<u8>, Vec<u8>)> = Vec::new();
        std::mem::swap(&mut items, &mut self.items);
        match at {
            Some(i) => {
                items.set(i, (key, val));
            },
            None => {
                items.push((key, val));
            },
        }
        assert(Seq::new(items@.len(), |i: int| (items@[i].0@, items@[i].1@)) =~= after);
        self.items = items;
    }

    /// Takes the entry for `key` out, and says whether there was one.
    pub fn remove(&mut self, key: &[u8]) -> (found: bool)
        ensures
            found == old(self)@.contains_key(key@),
            final(self)@ == old(self)@.remove(key@),
            final(self).entries() == without(old(self).entries(), key@),
    {
        proof {
            use_type_invariant(&*self);
            lemma_without(self.entries(), key@);
        }
        let ghost before = self.entries();
        match self.position(key) {
            Some(i) => {
                let mut items: Vec<(Vec<u8>, Vec<u8>)> = Vec::new();
                std::mem::swap(&mut items, &mut self.items);
                items.remove(i);
                assert(Seq::new(items@.len(), |i: int| (items@[i].0@, items@[i].1@)) =~= without(
                    before,
                    key@,
                ));
                self.items = items;
                true
            },
            None => false,
        }
    }
}

impl Clone for ByteMap {
    /// A map with the same entries in the same order.
    fn clone(&self) -> (copy: ByteMap)
        ensures
            copy.entries() == self.entries(),
            copy@ == self@,
    {
        proof {
            use_type_invariant(self);
        }
        let mut items: Vec<(Vec<u8>, Vec<u8>)> = Vec::new();
        let mut i: usize = 0;
        while i < self.items.len()
            invariant
                i <= self.items.len(),
                items@.len() == i,
                forall|j: int|
                    0 <= j < i ==> (#[trigger] items@[j]).0@ == self.items@[j].0@ && items@[j].1@
                        == self.items@[j].1@,
            decreases self.items.len() - i,
        {
            items.push((self.items[i].0.clone(), self.items[i].1.clone()));
            i += 1;
        }
        assert(Seq::new(items@.len(), |i: int| (items@[i].0@, items@[i].1@)) =~= self.entries());
        ByteMap { items }
    }
}

/// A set of byte strings.
#[derive(Debug)]
pub struct ByteSet {
    items: Vec<Vec<u8>>,
}

impl View for ByteSet {
    type V = Set<Seq<u8>>;

    open spec fn view(&self) -> Set<Seq<u8>> {
        self.elements().to_set()
    }
}

impl ByteSet {
    /// The elements in the order in which they were inserted.
    pub closed spec fn elements(&self) -> Seq<Seq<u8>> {
        Seq::new(self.items@.len(), |i: int| self.items@[i]@)
    }

    #[verifier::type_invariant]
    spec fn well_formed(&self) -> bool {
        self.elements().no_duplicates()
    }

    /// A set without elements.
    pub fn new() -> (s: ByteSet)
        ensures
            s.elements() == Seq::<Seq<u8>>::empty(),
            s@ == Set::<Seq<u8>>::empty(),
    {
        let s = ByteSet { items: Vec::new() };
        assert(s.elements() =~= Seq::<Seq<u8>>::empty());
        assert(s@ =~= Set::<Seq<u8>>::empty());
        s
    }

    /// The number of elements.
    pub fn len(&self) -> (n: usize)
        ensures
            n == self.elements().len(),
            self.elements().no_duplicates(),
            self@.finite(),
            n == self@.len(),
    {
        proof {
            use_type_invariant(self);
            self.elements().unique_seq_to_set();
            vstd::seq_lib::seq_to_set_is_finite(self.elements());
        }
        self.items.len()
    }

    /// The element at `i`.
    pub fn get(&self, i: usize) -> (k: &Vec<u8>)
        requires
            i < self.elements().len(),
        ensures
            k@ == self.elements()[i as int],
            self@.contains(k@),
    {
        assert(self.elements()[i as int] == self.items@[i as int]@);
        &self.items[i]
    }

    /// Whether `key` is in the set.
    pub fn contains(&self, key: &[u8]) -> (r: bool)
        ensures
            r == self@.contains(key@),
    {
        let mut i: usize = 0;
        while i < self.items.len()
            invariant
                i <= self.items.len(),
                forall|j: int| 0 <= j < i ==> #[trigger] self.elements()[j] != key@,
            decreases self.items.len() - i,
        {
            if bytes_eq(self.items[i].as_slice(), key) {
                assert(self.elements()[i as int] == key@);
                return true;
            }
            i += 1;
        }
        false
    }

    /// Puts `key` into the set, and says whether it was new.
    pub fn insert(&mut self, key: Vec<u8>) -> (fresh: bool)
        ensures
            fresh == !old(self)@.contains(key@),
            final(self)@ == old(self)@.insert(key@),
            final(self).elements() == if fresh {
                old(self).elements().push(key@)
            } else {
                old(self).elements()
            },
    {
        proof {
            use_type_invariant(&*self);
        }
        let ghost before = self.elements();
        if self.contains(key.as_slice()) {
            assert(self@ =~= self@.insert(key@));
            false
        } else {
            let mut items: Vec<Vec<u8>> = Vec::new();
            std::mem::swap(&mut items, &mut self.items);
            items.push(key);
            assert(Seq::new(items@.len(), |i: int| items@[i]@) =~= before.push(key@));
            assert(before.push(key@).no_duplicates()) by {
                assert(!before.contains(key@));
            }
            self.items = items;
            assert(self.elements() =~= before.push(key@));
            assert(self@ =~= before.to_set().insert(key@)) by {
                assert forall|q: Seq<u8>| #[trigger]
                    self@.contains(q) == before.to_set().insert(key@).contains(q) by {
                    if self.elements().contains(q) {
                        let i = choose|i: int|
                            0 <= i < self.elements().len() && self.elements()[i] == q;
                        if i < before.len() {
                            assert(before[i] == q);
                        }
                    }
                    if before.contains(q) {
                        let i = choose|i: int| 0 <= i < before.len() && before[i] == q;
                        assert(self.elements()[i] == q);
                    }
                    if q == key@ {
                        assert(self.elements()[before.len() as int] == q);
                    }
                }
            }
            true
        }
    }
}

impl Clone for ByteSet {
    /// A set with the same elements in the same order.
    fn clone(&self) -> (copy: ByteSet)
        ensures
            copy.elements() == self.elements(),
            copy@ == self@,
    {
        proof {
            use_type_invariant(self);
        }
        let mut items: Vec<Vec<u8>> = Vec::new();
        let mut i: usize = 0;
        while i < self.items.len()
            invariant
                i <= self.items.len(),
                items@.len() == i,
                forall|j: int| 0 <= j < i ==> (#[trigger] items@[j])@ == self.items@[j]@,
            decreases self.items.len() - i,
        {
            items.push(self.items[i].clone());
            i += 1;
        }
        assert(Seq::new(items@.len(), |i: int| items@[i]@) =~= self.elements());
        ByteSet { items }
    }
}

} // verus!
