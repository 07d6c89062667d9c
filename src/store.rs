use vstd::prelude::*;

use crate::batch::{
    apply_item, apply_items, violates, violation_indices, BatchFailure, BatchItem, BatchReport,
    FailureCause, ViolationPolicy,
};
use crate::bound::{in_range, lemma_prefix_range, prefix_upper, prefix_upper_spec};
use crate::keys::starts_with;
use crate::partition::{
    bytes_view, entries_view, is_prefix_listing, is_range_listing, lookup, Contents, Entry, Partition, StorageError,
};

verus! {

/// A list of item indices, as integers.
pub open spec fn indices_view(v: Seq<usize>) -> Seq<int> {
    v.map_values(|i: usize| i as int)
}

/// The key-value adapter over a partition: point operations, prefix scans
/// and ordered batches. Each point operation and each scan is one call of
/// the partition, and so one transaction; a batch makes one such call per
/// item and is not atomic as a whole.
pub struct KvStore<P: Partition> {
    partition: P,
}

impl<P: Partition> KvStore<P> {
    /// The partition underneath is well formed.
    pub closed spec fn inv(&self) -> bool {
        self.partition.inv()
    }

    /// What the store holds.
    pub closed spec fn contents(&self) -> Contents {
        self.partition.contents()
    }

    /// The partition underneath answers every call with `Ok`.
    pub closed spec fn never_fails(&self) -> bool {
        self.partition.never_fails()
    }

    /// An adapter over `partition`.
    pub fn new(partition: P) -> (r: KvStore<P>)
        requires
            partition.inv(),
        ensures
            r.inv(),
            r.contents() == partition.contents(),
            r.never_fails() == partition.never_fails(),
    {
        KvStore { partition }
    }

    /// The partition underneath.
    pub fn partition(&self) -> (r: &P)
        ensures
            r.contents() == self.contents(),
            r.never_fails() == self.never_fails(),
            self.inv() ==> r.inv(),
    {
        &self.partition
    }

    /// The value stored under `key`; `None` when the key holds none.
    pub fn get(&self, key: &[u8]) -> (r: Result<Option<Vec<u8>>, StorageError>)
        requires
            self.inv(),
        ensures
            r matches Ok(v) ==> bytes_view(v) == lookup(self.contents(), key@),
            self.never_fails() ==> r is Ok,
    {
        self.partition.read(key)
    }

    /// Stores `value` under `key` and returns the value it held before.
    /// On a fault nothing is stored.
    pub fn insert(&mut self, key: &[u8], value: &[u8]) -> (r: Result<Option<Vec<u8>>, StorageError>)
        requires
            old(self).inv(),
        ensures
            final(self).inv(),
            r matches Ok(prev) ==> bytes_view(prev) == lookup(old(self).contents(), key@)
                && final(self).contents() == old(self).contents().insert(key@, value@),
            r is Err ==> final(self).contents() == old(self).contents(),
            final(self).never_fails() == old(self).never_fails(),
            old(self).never_fails() ==> r is Ok,
    {
        self.partition.write(key, value)
    }

    /// Deletes `key` and returns the value it held before; `None`, with
    /// nothing changed, when it held none. On a fault nothing is deleted.
    pub fn remove(&mut self, key: &[u8]) -> (r: Result<Option<Vec<u8>>, StorageError>)
        requires
            old(self).inv(),
        ensures
            final(self).inv(),
            r matches Ok(prev) ==> bytes_view(prev) == lookup(old(self).contents(), key@)
                && final(self).contents() == old(self).contents().remove(key@),
            r is Err ==> final(self).contents() == old(self).contents(),
            final(self).never_fails() == old(self).never_fails(),
            old(self).never_fails() ==> r is Ok,
    {
        self.partition.erase(key)
    }

    /// Every entry whose key starts with `prefix`, by ascending key. The
    /// partition is read over `[prefix, upper)`, with `upper` the prefix's
    /// upper bound; an empty prefix reads the whole partition, and so takes
    /// time in proportion to its size.
    pub fn scan_prefix(&self, prefix: &[u8]) -> (r: Result<Vec<Entry>, StorageError>)
        requires
            self.inv(),
        ensures
            r matches Ok(s) ==> is_prefix_listing(self.contents(), prefix@, entries_view(s@)),
            self.never_fails() ==> r is Ok,
    {
        let upper = prefix_upper(prefix);
        let ghost up = prefix_upper_spec(prefix@);
        let s = match &upper {
            Some(u) => self.partition.read_range(prefix, Some(u.as_slice()))?,
            None => self.partition.read_range(prefix, None)?,
        };
        proof {
            let ev = entries_view(s@);
            let m = self.contents();
            assert(is_range_listing(m, prefix@, up, ev));
            assert forall|k: Seq<u8>| #[trigger] starts_with(k, prefix@) == in_range(k, prefix@, up) by {
                lemma_prefix_range(prefix@, k);
            }
            assert forall|i: int| 0 <= i < ev.len() implies m.contains_key(#[trigger] ev[i].0)
                && m[ev[i].0] == ev[i].1 && starts_with(ev[i].0, prefix@) by {
                assert(in_range(ev[i].0, prefix@, up));
            }
            assert forall|k: Seq<u8>| m.contains_key(k) && #[trigger] starts_with(k, prefix@) implies
                exists|i: int| 0 <= i < ev.len() && ev[i].0 == k by {
                assert(in_range(k, prefix@, up));
            }
        }
        Ok(s)
    }

    /// Applies the items of `batch` left to right, each through its own
    /// point operation. An item whose expectation about its key proves false
    /// is recorded, and under `ViolationPolicy::Stop` ends the batch after
    /// it. A storage fault ends the batch at the failing item: the items
    /// before it stay applied, it and the items after it take no effect.
    pub fn apply_batch(&mut self, batch: &[BatchItem], policy: ViolationPolicy) -> (r: Result<
        BatchReport,
        BatchFailure,
    >)
        requires
            old(self).inv(),
        ensures
            final(self).inv(),
            final(self).never_fails() == old(self).never_fails(),
            old(self).never_fails() ==> !(r matches Err(f) && f.cause is Fault),
            r matches Ok(rep) ==> {
                &&& final(self).contents() == apply_items(old(self).contents(), batch@)
                &&& indices_view(rep.violations@) == violation_indices(old(self).contents(), batch@)
                &&& policy == ViolationPolicy::Stop ==> rep.violations@.len() == 0
            },
            r matches Err(f) ==> {
                &&& f.index < batch@.len()
                &&& indices_view(f.violations@) == violation_indices(
                    old(self).contents(),
                    batch@.subrange(0, f.index as int),
                )
                &&& f.cause is Fault ==> final(self).contents() == apply_items(
                    old(self).contents(),
                    batch@.subrange(0, f.index as int),
                )
                &&& f.cause is Violation ==> {
                    &&& policy == ViolationPolicy::Stop
                    &&& f.violations@.len() == 0
                    &&& violates(
                        apply_items(old(self).contents(), batch@.subrange(0, f.index as int)),
                        batch@[f.index as int],
                    )
                    &&& final(self).contents() == apply_items(
                        old(self).contents(),
                        batch@.subrange(0, f.index + 1),
                    )
                }
            },
    {
        let ghost m0 = self.contents();
        let mut violations: Vec<usize> = Vec::new();
        let mut i: usize = 0;
        assert(batch@.subrange(0, 0) =~= Seq::<BatchItem>::empty());
        while i < batch.len()
            invariant
                self.inv(),
                m0 == old(self).contents(),
                self.never_fails() == old(self).never_fails(),
                i <= batch.len(),
                self.contents() == apply_items(m0, batch@.subrange(0, i as int)),
                indices_view(violations@) == violation_indices(m0, batch@.subrange(0, i as int)),
                policy == ViolationPolicy::Stop ==> violations@.len() == 0,
            decreases batch.len() - i,
        {
            let ghost before = self.contents();
            let outcome = match &batch[i] {
                BatchItem::InsertNew(k, v) => match self.insert(k.as_slice(), v.as_slice()) {
                    Ok(prev) => Ok(prev.is_some()),
                    Err(e) => Err(e),
                },
                BatchItem::Insert(k, v) => match self.insert(k.as_slice(), v.as_slice()) {
                    Ok(_) => Ok(false),
                    Err(e) => Err(e),
                },
                BatchItem::Delete(k) => match self.remove(k.as_slice()) {
                    Ok(prev) => Ok(prev.is_none()),
                    Err(e) => Err(e),
                },
                BatchItem::MaybeDelete(k) => match self.remove(k.as_slice()) {
                    Ok(_) => Ok(false),
                    Err(e) => Err(e),
                },
            };
            proof {
                let s = batch@.subrange(0, i + 1);
                assert(s.drop_last() =~= batch@.subrange(0, i as int));
                assert(s.last() == batch@[i as int]);
            }
            match outcome {
                Err(e) => {
                    return Err(BatchFailure { index: i, cause: FailureCause::Fault(e), violations });
                },
                Ok(violated) => {
                    assert(self.contents() == apply_item(before, batch@[i as int]));
                    assert(violated == violates(before, batch@[i as int]));
                    if violated {
                        if policy == ViolationPolicy::Stop {
                            return Err(
                                BatchFailure { index: i, cause: FailureCause::Violation, violations },
                            );
                        }
                        let ghost old_v = violations@;
                        violations.push(i);
                        assert(indices_view(violations@) =~= indices_view(old_v).push(i as int));
                    }
                },
            }
            i = i + 1;
        }
        assert(batch@.subrange(0, batch@.len() as int) =~= batch@);
        Ok(BatchReport { violations })
    }
}

/// What `insert` stores, `get` reads back: after `insert(k, v)` the key
/// `k` holds `v`.
pub proof fn lemma_insert_then_get(m: Contents, k: Seq<u8>, v: Seq<u8>)
    ensures
        lookup(m.insert(k, v), k) == Some(v),
{
}

/// A scan with the empty prefix lists every stored entry, and only those.
pub proof fn lemma_empty_prefix_lists_all(m: Contents, s: Seq<(Seq<u8>, Seq<u8>)>)
    requires
        is_prefix_listing(m, Seq::empty(), s),
    ensures
        forall|k: Seq<u8>| #[trigger] m.contains_key(k) ==> exists|i: int| 0 <= i < s.len() && s[i] == (k, m[k]),
        forall|i: int| 0 <= i < s.len() ==> #[trigger] lookup(m, s[i].0) == Some(s[i].1),
{
    assert forall|k: Seq<u8>| #[trigger] m.contains_key(k) implies exists|i: int| 0 <= i < s.len() && s[i] == (k, m[k]) by {
        assert(starts_with(k, Seq::empty())) by {
            assert(k.subrange(0, 0) =~= Seq::<u8>::empty());
        }
        let i = choose|i: int| 0 <= i < s.len() && s[i].0 == k;
        assert(s[i] == (k, m[k]));
    }
}

/// Removing a key that holds no value returns nothing and changes nothing,
/// and so does removing it again.
pub proof fn lemma_remove_absent(m: Contents, k: Seq<u8>)
    requires
        !m.contains_key(k),
    ensures
        lookup(m, k) == None::<Seq<u8>>,
        m.remove(k) == m,
        lookup(m.remove(k), k) == None::<Seq<u8>>,
        m.remove(k).remove(k) == m,
{
    assert(m.remove(k) =~= m);
}

} // verus!
