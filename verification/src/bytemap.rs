//! An association list from byte strings to byte strings that keeps the order
//! in which its keys were first inserted.

use vstd::prelude::*;
use crate::bytes::{bytes_eq, copy_range};

verus! {

/// The mathematical content of a [`ByteMap`]: its entries in order.
pub type Pairs = Seq<(Seq<u8>, Seq<u8>)>;

/// The first position at or after `i` whose key is `k`, or the length of `m`
/// where there is none.
pub open spec fn position_from(m: Pairs, k: Seq<u8>, i: int) -> int
    decreases m.len() - i,
{
    if i >= m.len() || m[i].0 == k {
        i
    } else {
        position_from(m, k, i + 1)
    }
}

/// The position of key `k` in `m`, or the length of `m`.
pub open spec fn position(m: Pairs, k: Seq<u8>) -> int {
    position_from(m, k, 0)
}

/// `m` holds an entry under `k`.
pub open spec fn has_key(m: Pairs, k: Seq<u8>) -> bool {
    position(m, k) < m.len()
}

/// The value stored under `k`.
pub open spec fn lookup(m: Pairs, k: Seq<u8>) -> Option<Seq<u8>> {
    if has_key(m, k) {
        Some(m[position(m, k)].1)
    } else {
        None
    }
}

/// `m` with `v` under `k`: in the place of the old value where `k` was
/// present, at the end otherwise.
pub open spec fn spec_insert(m: Pairs, k: Seq<u8>, v: Seq<u8>) -> Pairs {
    if has_key(m, k) {
        m.update(position(m, k), (k, v))
    } else {
        m.push((k, v))
    }
}

/// `m` without the entry of `k`.
pub open spec fn spec_remove(m: Pairs, k: Seq<u8>) -> Pairs {
    if has_key(m, k) {
        m.remove(position(m, k))
    } else {
        m
    }
}

/// No key occurs twice.
pub open spec fn distinct_keys(m: Pairs) -> bool {
    forall|i: int, j: int| 0 <= i < j < m.len() ==> (#[trigger] m[i]).0 != (#[trigger] m[j]).0
}

/// What `position_from` promises: the first entry with key `k` from `i` on.
pub proof fn lemma_position_from(m: Pairs, k: Seq<u8>, i: int)
    requires
        0 <= i <= m.len(),
    ensures
        i <= position_from(m, k, i) <= m.len(),
        position_from(m, k, i) < m.len() ==> m[position_from(m, k, i)].0 == k,
        forall|j: int| i <= j < position_from(m, k, i) ==> (#[trigger] m[j]).0 != k,
    decreases m.len() - i,
{
    if i >= m.len() || m[i].0 == k {
    } else {
        lemma_position_from(m, k, i + 1);
    }
}

/// What `position` promises: the first entry with key `k`.
pub proof fn lemma_position(m: Pairs, k: Seq<u8>)
    ensures
        0 <= position(m, k) <= m.len(),
        has_key(m, k) ==> m[position(m, k)].0 == k,
        forall|j: int| 0 <= j < position(m, k) ==> (#[trigger] m[j]).0 != k,
        has_key(m, k) <==> exists|j: int| 0 <= j < m.len() && (#[trigger] m[j]).0 == k,
{
    lemma_position_from(m, k, 0);
    if exists|j: int| 0 <= j < m.len() && (#[trigger] m[j]).0 == k {
        let j = choose|j: int| 0 <= j < m.len() && (#[trigger] m[j]).0 == k;
        assert(m[j].0 == k);
        if !has_key(m, k) {
            assert(false);
        }
    }
}

/// An entry whose key occurs nowhere before it is the one `position` finds.
pub proof fn lemma_position_is(m: Pairs, k: Seq<u8>, p: int)
    requires
        0 <= p <= m.len(),
        p < m.len() ==> m[p].0 == k,
        forall|j: int| 0 <= j < p ==> (#[trigger] m[j]).0 != k,
    ensures
        position(m, k) == p,
{
    lemma_position(m, k);
    let q = position(m, k);
    if q < p {
        assert(m[q].0 == k);
    } else if p < q {
        assert(m[p].0 == k);
    }
}

/// Reading after `spec_insert`: the new value under the inserted key, the old
/// content under every other key.
pub proof fn lemma_insert_lookup(m: Pairs, k: Seq<u8>, v: Seq<u8>, other: Seq<u8>)
    ensures
        lookup(spec_insert(m, k, v), k) == Some(v),
        other != k ==> lookup(spec_insert(m, k, v), other) == lookup(m, other),
        distinct_keys(m) ==> distinct_keys(spec_insert(m, k, v)),
{
    lemma_position(m, k);
    lemma_position(m, other);
    let n = spec_insert(m, k, v);
    let p = position(m, k);
    if has_key(m, k) {
        assert forall|j: int| 0 <= j < p implies (#[trigger] n[j]).0 != k by {
            assert(m[j].0 != k);
        }
        lemma_position_is(n, k, p);
    } else {
        assert forall|j: int| 0 <= j < m.len() implies (#[trigger] n[j]).0 != k by {
            assert(m[j].0 != k);
        }
        lemma_position_is(n, k, m.len() as int);
    }
    if other != k {
        let q = position(m, other);
        if has_key(m, other) {
            assert(n[q] == m[q]);
            assert forall|j: int| 0 <= j < q implies (#[trigger] n[j]).0 != other by {
                assert(m[j].0 != other);
            }
            lemma_position_is(n, other, q);
        } else {
            assert forall|j: int| 0 <= j < n.len() implies (#[trigger] n[j]).0 != other by {
                if j < m.len() {
                    assert(m[j].0 != other);
                }
            }
            lemma_position_is(n, other, n.len() as int);
        }
    }
    if distinct_keys(m) {
        assert forall|i: int, j: int| 0 <= i < j < n.len() implies (#[trigger] n[i]).0 != (
        #[trigger] n[j]).0 by {
            if has_key(m, k) {
                if i == p {
                    assert(m[p].0 == k);
                    assert(m[i].0 != m[j].0);
                } else if j == p {
                    assert(m[i].0 != m[j].0);
                } else {
                    assert(m[i].0 != m[j].0);
                }
            } else {
                if j == m.len() {
                    assert(m[i].0 != k);
                } else {
                    assert(m[i].0 != m[j].0);
                }
            }
        }
    }
}

/// Reading after `spec_remove`, where no key occurs twice: nothing under the
/// removed key, the old content under every other key.
pub proof fn lemma_remove_lookup(m: Pairs, k: Seq<u8>, other: Seq<u8>)
    requires
        distinct_keys(m),
    ensures
        lookup(spec_remove(m, k), k) is None,
        other != k ==> lookup(spec_remove(m, k), other) == lookup(m, other),
        distinct_keys(spec_remove(m, k)),
{
    lemma_position(m, k);
    lemma_position(m, other);
    let n = spec_remove(m, k);
    let p = position(m, k);
    if has_key(m, k) {
        assert forall|j: int| 0 <= j < n.len() implies (#[trigger] n[j]).0 != k by {
            if j < p {
                assert(m[j].0 != k);
            } else {
                assert(n[j] == m[j + 1]);
                assert(m[p].0 != m[j + 1].0);
            }
        }
        lemma_position_is(n, k, n.len() as int);
        assert forall|i: int, j: int| 0 <= i < j < n.len() implies (#[trigger] n[i]).0 != (
        #[trigger] n[j]).0 by {
            let a = if i < p { i } else { i + 1 };
            let b = if j < p { j } else { j + 1 };
            assert(n[i] == m[a]);
            assert(n[j] == m[b]);
            assert(m[a].0 != m[b].0);
        }
        if other != k {
            let q = position(m, other);
            if has_key(m, other) {
                let q2 = if q < p { q } else { q - 1 };
                assert(n[q2] == m[q]);
                assert forall|j: int| 0 <= j < q2 implies (#[trigger] n[j]).0 != other by {
                    let a = if j < p { j } else { j + 1 };
                    assert(n[j] == m[a]);
                    assert(m[a].0 != other);
                }
                lemma_position_is(n, other, q2);
            } else {
                assert forall|j: int| 0 <= j < n.len() implies (#[trigger] n[j]).0 != other by {
                    let a = if j < p { j } else { j + 1 };
                    assert(n[j] == m[a]);
                    assert(m[a].0 != other);
                }
                lemma_position_is(n, other, n.len() as int);
            }
        }
    }
}

/// Where no key occurs twice, each entry is what `lookup` finds under its
/// key.
pub proof fn lemma_lookup_entry(m: Pairs, i: int)
    requires
        distinct_keys(m),
        0 <= i < m.len(),
    ensures
        position(m, m[i].0) == i,
        lookup(m, m[i].0) == Some(m[i].1),
{
    assert forall|j: int| 0 <= j < i implies (#[trigger] m[j]).0 != m[i].0 by {
        assert(m[j].0 != m[i].0);
    }
    lemma_position_is(m, m[i].0, i);
}

/// Adding an entry at the end: every position before the end is kept.
pub proof fn lemma_push_contains<T>(s: Seq<T>, x: T, y: T)
    ensures
        s.push(x).contains(y) <==> (s.contains(y) || x == y),
{
    if s.contains(y) {
        let i = choose|i: int| 0 <= i < s.len() && s[i] == y;
        assert(s.push(x)[i] == y);
    }
    if x == y {
        assert(s.push(x)[s.len() as int] == y);
    }
    if s.push(x).contains(y) {
        let i = choose|i: int| 0 <= i < s.push(x).len() && s.push(x)[i] == y;
        if i < s.len() {
            assert(s[i] == y);
        }
    }
}

/// One entry of a [`ByteMap`].
pub struct Entry {
    pub key: Vec<u8>,
    pub value: Vec<u8>,
}

/// A map from byte strings to byte strings, in insertion order.
pub struct ByteMap {
    pub entries: Vec<Entry>,
}

impl ByteMap {
    /// The entries in order, each as a pair of key and value.
    pub open spec fn view(&self) -> Pairs {
        Seq::new(self.entries@.len(), |i: int| (self.entries@[i].key@, self.entries@[i].value@))
    }

    /// No key occurs twice.
    pub open spec fn wf(&self) -> bool {
        distinct_keys(self@)
    }

    /// The empty map.
    pub fn new() -> (r: ByteMap)
        ensures
            r@ == Pairs::empty(),
            r.wf(),
    {
        let r = ByteMap { entries: Vec::new() };
        proof {
            assert(r@ =~= Pairs::empty());
        }
        r
    }

    /// The number of entries.
    pub fn len(&self) -> (r: usize)
        ensures
            r == self@.len(),
    {
        self.entries.len()
    }

    /// The key of the entry at position `i`.
    pub fn key_at(&self, i: usize) -> (r: &Vec<u8>)
        requires
            i < self@.len(),
        ensures
            r@ == self@[i as int].0,
    {
        &self.entries[i].key
    }

    /// The value of the entry at position `i`.
    pub fn value_at(&self, i: usize) -> (r: &Vec<u8>)
        requires
            i < self@.len(),
        ensures
            r@ == self@[i as int].1,
    {
        &self.entries[i].value
    }

    /// The position of `k`, or the number of entries where `k` is absent.
    pub fn find(&self, k: &[u8]) -> (r: usize)
        ensures
            r == position(self@, k@),
            r <= self@.len(),
    {
        let mut i: usize = 0;
        while i < self.entries.len() && !bytes_eq(self.entries[i].key.as_slice(), k)
            invariant
                i <= self.entries@.len(),
                position(self@, k@) == position_from(self@, k@, i as int),
            decreases self.entries@.len() - i,
        {
            i += 1;
        }
        i
    }

    /// True when the map holds an entry under `k`.
    pub fn contains_key(&self, k: &[u8]) -> (r: bool)
        ensures
            r == has_key(self@, k@),
    {
        self.find(k) < self.entries.len()
    }

    /// The value stored under `k`.
    pub fn get(&self, k: &[u8]) -> (r: Option<&Vec<u8>>)
        ensures
            lookup(self@, k@) == match r {
                Some(v) => Some(v@),
                None => None,
            },
    {
        let p = self.find(k);
        if p < self.entries.len() {
            Some(&self.entries[p].value)
        } else {
            None
        }
    }

    /// Stores `v` under `k`, in place of any value that `k` had.
    pub fn insert(&mut self, k: Vec<u8>, v: Vec<u8>)
        ensures
            final(self)@ == spec_insert(old(self)@, k@, v@),
            old(self).wf() ==> final(self).wf(),
    {
        let p = self.find(k.as_slice());
        proof {
            lemma_insert_lookup(self@, k@, v@, k@);
        }
        if p < self.entries.len() {
            self.entries.set(p, Entry { key: k, value: v });
        } else {
            self.entries.push(Entry { key: k, value: v });
        }
        proof {
            assert(self@ =~= spec_insert(old(self)@, k@, v@));
        }
    }

    /// Removes the entry of `k` and returns its value.
    pub fn remove(&mut self, k: &[u8]) -> (r: Option<Vec<u8>>)
        ensures
            final(self)@ == spec_remove(old(self)@, k@),
            lookup(old(self)@, k@) == match r {
                Some(v) => Some(v@),
                None => None,
            },
            old(self).wf() ==> final(self).wf(),
    {
        let p = self.find(k);
        proof {
            if self.wf() {
                lemma_remove_lookup(self@, k@, k@);
            }
        }
        if p < self.entries.len() {
            let e = self.entries.remove(p);
            proof {
                assert(self@ =~= spec_remove(old(self)@, k@));
            }
            Some(e.value)
        } else {
            None
        }
    }

    /// A copy of the map.
    pub fn copy(&self) -> (r: ByteMap)
        ensures
            r@ == self@,
    {
        let mut entries: Vec<Entry> = Vec::new();
        let mut i: usize = 0;
        while i < self.entries.len()
            invariant
                i <= self.entries@.len(),
                entries@.len() == i,
                forall|j: int|
                    0 <= j < i ==> (#[trigger] entries@[j]).key@ == self.entries@[j].key@
                        && entries@[j].value@ == self.entries@[j].value@,
            decreases self.entries@.len() - i,
        {
            let key = copy_range(self.entries[i].key.as_slice(), 0, self.entries[i].key.len());
            let value = copy_range(
                self.entries[i].value.as_slice(),
                0,
                self.entries[i].value.len(),
            );
            proof {
                assert(key@ =~= self.entries@[i as int].key@);
                assert(value@ =~= self.entries@[i as int].value@);
            }
            entries.push(Entry { key, value });
            i += 1;
        }
        let r = ByteMap { entries };
        proof {
            assert(r@ =~= self@);
        }
        r
    }
}

} // verus!
