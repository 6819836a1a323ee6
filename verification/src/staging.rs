//! The staging delta: the changes that the next commit will take up.

use vstd::prelude::*;
use crate::bytemap::{
    distinct_keys, has_key, lemma_insert_lookup, lemma_position, lemma_remove_lookup, lookup,
    spec_insert, spec_remove, ByteMap, Pairs,
};
use crate::bytes::{append, bytes_eq, copy_range};
use crate::text::{split_lines, split_tokens, spec_lines, spec_tokens, views};

verus! {

/// The content of a [`StagingArea`]: three lists keyed by path. `added` and
/// `modified` give each path its blob hash; the values of `deleted` are
/// empty.
pub struct StagingView {
    pub added: Pairs,
    pub modified: Pairs,
    pub deleted: Pairs,
}

/// The staging delta with no pending change.
pub open spec fn empty_staging() -> StagingView {
    StagingView { added: Pairs::empty(), modified: Pairs::empty(), deleted: Pairs::empty() }
}

/// `path` is in one of the three partitions.
pub open spec fn staged(v: StagingView, path: Seq<u8>) -> bool {
    has_key(v.added, path) || has_key(v.modified, path) || has_key(v.deleted, path)
}

/// No path is a key of both lists.
pub open spec fn apart(x: Pairs, y: Pairs) -> bool {
    forall|p: Seq<u8>|
        #![trigger has_key(x, p)]
        #![trigger has_key(y, p)]
        !(has_key(x, p) && has_key(y, p))
}

/// No path is in more than one partition, and in none more than once.
pub open spec fn partitioned(v: StagingView) -> bool {
    &&& distinct_keys(v.added)
    &&& distinct_keys(v.modified)
    &&& distinct_keys(v.deleted)
    &&& apart(v.added, v.modified)
    &&& apart(v.added, v.deleted)
    &&& apart(v.modified, v.deleted)
}

/// `path` recorded as new with `hash`, and as nothing else.
pub open spec fn spec_add(v: StagingView, path: Seq<u8>, hash: Seq<u8>) -> StagingView {
    StagingView {
        added: spec_insert(v.added, path, hash),
        modified: spec_remove(v.modified, path),
        deleted: spec_remove(v.deleted, path),
    }
}

/// `path` recorded as changed to `hash`, and as nothing else.
pub open spec fn spec_modify(v: StagingView, path: Seq<u8>, hash: Seq<u8>) -> StagingView {
    StagingView {
        added: spec_remove(v.added, path),
        modified: spec_insert(v.modified, path, hash),
        deleted: spec_remove(v.deleted, path),
    }
}

/// `path` recorded as removed, and as nothing else.
pub open spec fn spec_delete(v: StagingView, path: Seq<u8>) -> StagingView {
    StagingView {
        added: spec_remove(v.added, path),
        modified: spec_remove(v.modified, path),
        deleted: spec_insert(v.deleted, path, Seq::empty()),
    }
}

proof fn lemma_has_key_insert(m: Pairs, k: Seq<u8>, v: Seq<u8>, p: Seq<u8>)
    ensures
        has_key(spec_insert(m, k, v), p) == (p == k || has_key(m, p)),
        distinct_keys(m) ==> distinct_keys(spec_insert(m, k, v)),
{
    lemma_insert_lookup(m, k, v, p);
}

proof fn lemma_has_key_remove(m: Pairs, k: Seq<u8>, p: Seq<u8>)
    requires
        distinct_keys(m),
    ensures
        has_key(spec_remove(m, k), p) == (p != k && has_key(m, p)),
        distinct_keys(spec_remove(m, k)),
{
    lemma_remove_lookup(m, k, p);
}

proof fn lemma_apart_steps(x: Pairs, y: Pairs, k: Seq<u8>, v: Seq<u8>)
    requires
        distinct_keys(x),
        distinct_keys(y),
        apart(x, y),
    ensures
        apart(spec_insert(x, k, v), spec_remove(y, k)),
        apart(spec_remove(x, k), spec_insert(y, k, v)),
        apart(spec_remove(x, k), spec_remove(y, k)),
{
    assert forall|p: Seq<u8>|
        !(#[trigger] has_key(spec_insert(x, k, v), p) && has_key(spec_remove(y, k), p)) by {
        lemma_has_key_insert(x, k, v, p);
        lemma_has_key_remove(y, k, p);
        assert(!(has_key(x, p) && has_key(y, p)));
    }
    assert forall|p: Seq<u8>|
        !(has_key(spec_insert(x, k, v), p) && #[trigger] has_key(spec_remove(y, k), p)) by {
        lemma_has_key_insert(x, k, v, p);
        lemma_has_key_remove(y, k, p);
        assert(!(has_key(x, p) && has_key(y, p)));
    }
    assert forall|p: Seq<u8>|
        !(#[trigger] has_key(spec_remove(x, k), p) && has_key(spec_insert(y, k, v), p)) by {
        lemma_has_key_insert(y, k, v, p);
        lemma_has_key_remove(x, k, p);
        assert(!(has_key(x, p) && has_key(y, p)));
    }
    assert forall|p: Seq<u8>|
        !(has_key(spec_remove(x, k), p) && #[trigger] has_key(spec_insert(y, k, v), p)) by {
        lemma_has_key_insert(y, k, v, p);
        lemma_has_key_remove(x, k, p);
        assert(!(has_key(x, p) && has_key(y, p)));
    }
    assert forall|p: Seq<u8>|
        !(#[trigger] has_key(spec_remove(x, k), p) && has_key(spec_remove(y, k), p)) by {
        lemma_has_key_remove(x, k, p);
        lemma_has_key_remove(y, k, p);
        assert(!(has_key(x, p) && has_key(y, p)));
    }
    assert forall|p: Seq<u8>|
        !(has_key(spec_remove(x, k), p) && #[trigger] has_key(spec_remove(y, k), p)) by {
        lemma_has_key_remove(x, k, p);
        lemma_has_key_remove(y, k, p);
        assert(!(has_key(x, p) && has_key(y, p)));
    }
}

/// Each of the three recording steps keeps the partitions apart.
pub proof fn lemma_steps_keep_partition(v: StagingView, path: Seq<u8>, hash: Seq<u8>)
    requires
        partitioned(v),
    ensures
        partitioned(spec_add(v, path, hash)),
        partitioned(spec_modify(v, path, hash)),
        partitioned(spec_delete(v, path)),
{
    let e = Seq::<u8>::empty();
    lemma_has_key_insert(v.added, path, hash, path);
    lemma_has_key_insert(v.modified, path, hash, path);
    lemma_has_key_insert(v.deleted, path, e, path);
    lemma_has_key_remove(v.added, path, path);
    lemma_has_key_remove(v.modified, path, path);
    lemma_has_key_remove(v.deleted, path, path);
    lemma_apart_steps(v.added, v.modified, path, hash);
    lemma_apart_steps(v.added, v.deleted, path, hash);
    lemma_apart_steps(v.added, v.deleted, path, e);
    lemma_apart_steps(v.modified, v.deleted, path, hash);
    lemma_apart_steps(v.modified, v.deleted, path, e);
}

/// The pending changes, keyed by path.
pub struct StagingArea {
    added: ByteMap,
    modified: ByteMap,
    deleted: ByteMap,
}

impl StagingArea {
    /// The three partitions.
    pub closed spec fn view(&self) -> StagingView {
        StagingView { added: self.added@, modified: self.modified@, deleted: self.deleted@ }
    }

    /// The invariant of the staging delta: the partitions are disjoint.
    pub open spec fn wf(&self) -> bool {
        partitioned(self@)
    }

    /// The staging delta with no pending change.
    pub fn new() -> (r: StagingArea)
        ensures
            r@ == empty_staging(),
            r.wf(),
    {
        let r = StagingArea {
            added: ByteMap::new(),
            modified: ByteMap::new(),
            deleted: ByteMap::new(),
        };
        proof {
            assert forall|p: Seq<u8>| !has_key(Pairs::empty(), p) by {
                lemma_position(Pairs::empty(), p);
            }
        }
        r
    }

    /// Records `path` as new, with blob `hash`.
    pub fn add(&mut self, path: Vec<u8>, hash: Vec<u8>)
        ensures
            final(self)@ == spec_add(old(self)@, path@, hash@),
            old(self).wf() ==> final(self).wf(),
    {
        proof {
            if self.wf() {
                lemma_steps_keep_partition(self@, path@, hash@);
            }
        }
        self.modified.remove(path.as_slice());
        self.deleted.remove(path.as_slice());
        self.added.insert(path, hash);
    }

    /// Records `path` as changed, with blob `hash`.
    pub fn modify(&mut self, path: Vec<u8>, hash: Vec<u8>)
        ensures
            final(self)@ == spec_modify(old(self)@, path@, hash@),
            old(self).wf() ==> final(self).wf(),
    {
        proof {
            if self.wf() {
                lemma_steps_keep_partition(self@, path@, hash@);
            }
        }
        self.added.remove(path.as_slice());
        self.deleted.remove(path.as_slice());
        self.modified.insert(path, hash);
    }

    /// Records `path` as removed.
    pub fn delete(&mut self, path: Vec<u8>)
        ensures
            final(self)@ == spec_delete(old(self)@, path@),
            old(self).wf() ==> final(self).wf(),
    {
        proof {
            if self.wf() {
                lemma_steps_keep_partition(self@, path@, Seq::empty());
            }
        }
        self.added.remove(path.as_slice());
        self.modified.remove(path.as_slice());
        let none: Vec<u8> = Vec::new();
        self.deleted.insert(path, none);
    }

    /// True when `path` is in one of the three partitions.
    pub fn is_staged(&self, path: &[u8]) -> (r: bool)
        ensures
            r == staged(self@, path@),
    {
        self.added.contains_key(path) || self.modified.contains_key(path)
            || self.deleted.contains_key(path)
    }

    /// True when no change is pending.
    pub fn is_empty(&self) -> (r: bool)
        ensures
            r == (self@.added.len() == 0 && self@.modified.len() == 0 && self@.deleted.len()
                == 0),
    {
        self.added.len() == 0 && self.modified.len() == 0 && self.deleted.len() == 0
    }

    /// The paths recorded as new, each with its blob hash.
    pub fn added(&self) -> (r: &ByteMap)
        ensures
            r@ == self@.added,
    {
        &self.added
    }

    /// The paths recorded as changed, each with its blob hash.
    pub fn modified(&self) -> (r: &ByteMap)
        ensures
            r@ == self@.modified,
    {
        &self.modified
    }

    /// The paths recorded as removed; the values are empty.
    pub fn deleted(&self) -> (r: &ByteMap)
        ensures
            r@ == self@.deleted,
    {
        &self.deleted
    }
}

} // verus!
