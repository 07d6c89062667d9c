use vstd::prelude::*;

use crate::bound::{in_range, key_in_range};
use crate::keys::{
    key_less, key_lt, lemma_key_lt_irreflexive, lemma_key_lt_total, lemma_key_lt_transitive,
};
use crate::partition::{
    copy_bytes, entries_view, entry_view, keys_ascending, upper_view, Contents, Entry, Partition,
    StorageError,
};

verus! {

/// A partition held in memory: its entries in a vector kept in ascending key
/// order. It never fails.
pub struct MemPartition {
    entries: Vec<Entry>,
    model: Ghost<Contents>,
}

impl MemPartition {
    pub closed spec fn view_entries(&self) -> Seq<(Seq<u8>, Seq<u8>)> {
        entries_view(self.entries@)
    }

    pub closed spec fn well_formed(&self) -> bool {
        let ev = self.view_entries();
        &&& keys_ascending(ev)
        &&& forall|i: int|
            0 <= i < ev.len() ==> self.model@.contains_key(#[trigger] ev[i].0) && self.model@[ev[i].0]
                == ev[i].1
        &&& forall|k: Seq<u8>|
            #[trigger] self.model@.contains_key(k) ==> exists|i: int| 0 <= i < ev.len() && ev[i].0 == k
    }

    /// An empty partition.
    pub fn new() -> (r: MemPartition)
        ensures
            r.inv(),
            r.contents() == Contents::empty(),
    {
        MemPartition { entries: Vec::new(), model: Ghost(Contents::empty()) }
    }

    /// The number of stored entries.
    pub fn len(&self) -> (r: usize)
        requires
            self.inv(),
        ensures
            r == self.contents().len(),
    {
        proof {
            self.lemma_dom_is_keys();
        }
        self.entries.len()
    }

    proof fn lemma_dom_is_keys(&self)
        requires
            self.well_formed(),
        ensures
            self.model@.dom() == self.view_entries().map_values(|e: (Seq<u8>, Seq<u8>)| e.0).to_set(),
            self.model@.len() == self.view_entries().len(),
    {
        let ev = self.view_entries();
        let ks = ev.map_values(|e: (Seq<u8>, Seq<u8>)| e.0);
        assert forall|k: Seq<u8>| self.model@.contains_key(k) <==> ks.contains(k) by {
            if self.model@.contains_key(k) {
                let i = choose|i: int| 0 <= i < ev.len() && ev[i].0 == k;
                assert(ks[i] == k);
            }
            if ks.contains(k) {
                let i = choose|i: int| 0 <= i < ks.len() && ks[i] == k;
                assert(self.model@.contains_key(ev[i].0));
            }
        }
        assert(self.model@.dom() =~= ks.to_set());
        assert forall|i: int, j: int| 0 <= i < ks.len() && 0 <= j < ks.len() && i != j implies ks[i] != ks[j] by {
            if i < j {
                assert(key_lt(ev[i].0, ev[j].0));
            } else {
                assert(key_lt(ev[j].0, ev[i].0));
            }
            lemma_key_lt_irreflexive(ks[i]);
        }
        ks.unique_seq_to_set();
    }

    /// The position of `key`: every entry before it has a smaller key, and
    /// the entry there, if any, holds `key` exactly when `found` is true.
    fn find(&self, key: &[u8]) -> (r: (usize, bool))
        requires
            self.well_formed(),
        ensures
            r.0 <= self.entries.len(),
            forall|i: int| 0 <= i < r.0 ==> key_lt(#[trigger] self.view_entries()[i].0, key@),
            r.1 ==> r.0 < self.entries.len() && self.view_entries()[r.0 as int].0 == key@,
            !r.1 ==> forall|i: int|
                r.0 <= i < self.entries.len() ==> key_lt(key@, #[trigger] self.view_entries()[i].0),
            !r.1 ==> !self.model@.contains_key(key@),
    {
        let ghost ev = self.view_entries();
        let mut i: usize = 0;
        while i < self.entries.len() && key_less(self.entries[i].0.as_slice(), key)
            invariant
                i <= self.entries.len(),
                ev == self.view_entries(),
                forall|j: int| 0 <= j < i ==> key_lt(#[trigger] ev[j].0, key@),
            decreases self.entries.len() - i,
        {
            i = i + 1;
        }
        let found = i < self.entries.len() && self.entries[i].0.len() == key.len()
            && !key_less(key, self.entries[i].0.as_slice());
        proof {
            lemma_key_lt_irreflexive(key@);
            if i < self.entries.len() {
                lemma_key_lt_total(ev[i as int].0, key@);
                if ev[i as int].0 != key@ {
                    assert forall|j: int| i <= j < ev.len() implies key_lt(key@, #[trigger] ev[j].0) by {
                        if j > i {
                            lemma_key_lt_transitive(key@, ev[i as int].0, ev[j].0);
                        }
                    }
                }
            }
            if !found && self.model@.contains_key(key@) {
                let j = choose|j: int| 0 <= j < ev.len() && ev[j].0 == key@;
                if j >= i {
                    assert(key_lt(key@, ev[j].0));
                }
            }
        }
        (i, found)
    }
}

impl Partition for MemPartition {
    closed spec fn inv(&self) -> bool {
        self.well_formed()
    }

    closed spec fn contents(&self) -> Contents {
        self.model@
    }

    open spec fn never_fails(&self) -> bool {
        true
    }

    fn read(&self, key: &[u8]) -> (r: Result<Option<Vec<u8>>, StorageError>) {
        let (i, found) = self.find(key);
        if found {
            Ok(Some(copy_bytes(self.entries[i].1.as_slice())))
        } else {
            Ok(None)
        }
    }

    fn write(&mut self, key: &[u8], value: &[u8]) -> (r: Result<Option<Vec<u8>>, StorageError>) {
        let (i, found) = self.find(key);
        let prev = if found {
            Some(copy_bytes(self.entries[i].1.as_slice()))
        } else {
            None
        };
        let ghost ev = self.view_entries();
        let ghost m = self.model@;
        let e: Entry = (copy_bytes(key), copy_bytes(value));
        proof {
            lemma_key_lt_irreflexive(key@);
        }
        if found {
            self.entries.set(i, e);
        } else {
            self.entries.insert(i, e);
        }
        self.model = Ghost(m.insert(key@, value@));
        proof {
            let nv = self.view_entries();
            if found {
                assert(nv =~= ev.update(i as int, (key@, value@)));
                assert forall|j: int| 0 <= j < nv.len() && j != i implies #[trigger] nv[j] == ev[j] && ev[j].0 != key@ by {
                    if j < i {
                        assert(key_lt(ev[j].0, ev[i as int].0));
                    } else {
                        assert(key_lt(ev[i as int].0, ev[j].0));
                    }
                }
            } else {
                assert(nv =~= ev.insert(i as int, (key@, value@)));
                assert forall|a: int, b: int| 0 <= a < b < nv.len() implies key_lt(#[trigger] nv[a].0, #[trigger] nv[b].0) by {
                    if b < i {
                    } else if a < i && b == i {
                    } else if a < i {
                        assert(nv[b] == ev[b - 1]);
                        lemma_key_lt_transitive(nv[a].0, key@, nv[b].0);
                    } else if a == i {
                        assert(nv[b] == ev[b - 1]);
                    } else {
                        assert(nv[a] == ev[a - 1] && nv[b] == ev[b - 1]);
                    }
                }
                assert forall|j: int| 0 <= j < nv.len() && j != i implies nv[j].0 != key@ by {
                    if j < i {
                        assert(key_lt(nv[j].0, key@));
                    } else {
                        assert(nv[j] == ev[j - 1]);
                        assert(key_lt(key@, nv[j].0));
                    }
                }
            }
            assert forall|k: Seq<u8>| #[trigger] self.model@.contains_key(k) implies exists|j: int|
                0 <= j < nv.len() && nv[j].0 == k by {
                if k == key@ {
                    assert(nv[i as int].0 == k);
                } else {
                    let j = choose|j: int| 0 <= j < ev.len() && ev[j].0 == k;
                    if found || j < i {
                        assert(nv[j].0 == k);
                    } else {
                        assert(nv[j + 1].0 == k);
                    }
                }
            }
            assert forall|j: int| 0 <= j < nv.len() implies self.model@.contains_key(#[trigger] nv[j].0)
                && self.model@[nv[j].0] == nv[j].1 by {
                if j != i && !found && j > i {
                    assert(nv[j] == ev[j - 1]);
                }
            }
        }
        Ok(prev)
    }

    fn erase(&mut self, key: &[u8]) -> (r: Result<Option<Vec<u8>>, StorageError>) {
        let (i, found) = self.find(key);
        let ghost ev = self.view_entries();
        let ghost m = self.model@;
        if found {
            let removed = self.entries.remove(i);
            assert(entry_view(removed) == ev[i as int]);
            self.model = Ghost(m.remove(key@));
            proof {
                let nv = self.view_entries();
                assert(nv =~= ev.remove(i as int));
                lemma_key_lt_irreflexive(key@);
                assert forall|a: int, b: int| 0 <= a < b < nv.len() implies key_lt(#[trigger] nv[a].0, #[trigger] nv[b].0) by {
                    if b < i {
                    } else if a < i {
                        assert(nv[b] == ev[b + 1]);
                    } else {
                        assert(nv[a] == ev[a + 1] && nv[b] == ev[b + 1]);
                    }
                }
                assert forall|j: int| 0 <= j < nv.len() implies self.model@.contains_key(#[trigger] nv[j].0)
                    && self.model@[nv[j].0] == nv[j].1 by {
                    if j < i {
                        assert(key_lt(nv[j].0, key@));
                    } else {
                        assert(nv[j] == ev[j + 1]);
                        assert(key_lt(key@, nv[j].0));
                    }
                }
                assert forall|k: Seq<u8>| #[trigger] self.model@.contains_key(k) implies exists|j: int|
                    0 <= j < nv.len() && nv[j].0 == k by {
                    let j = choose|j: int| 0 <= j < ev.len() && ev[j].0 == k;
                    if j < i {
                        assert(nv[j].0 == k);
                    } else {
                        assert(nv[j - 1].0 == k);
                    }
                }
            }
            Ok(Some(removed.1))
        } else {
            assert(m.remove(key@) =~= m);
            Ok(None)
        }
    }

    fn read_range(&self, lower: &[u8], upper: Option<&[u8]>) -> (r: Result<Vec<Entry>, StorageError>) {
        let ghost ev = self.view_entries();
        let ghost up = upper_view(upper);
        let mut out: Vec<Entry> = Vec::new();
        let ghost mut idx: Seq<int> = Seq::empty();
        let mut i: usize = 0;
        while i < self.entries.len()
            invariant
                self.well_formed(),
                ev == self.view_entries(),
                up == upper_view(upper),
                i <= self.entries.len(),
                idx.len() == out@.len(),
                forall|t: int| 0 <= t < idx.len() ==> 0 <= #[trigger] idx[t] < i && entries_view(out@)[t] == ev[idx[t]],
                forall|t: int| 0 <= t < idx.len() ==> in_range(#[trigger] entries_view(out@)[t].0, lower@, up),
                forall|a: int, b: int| 0 <= a < b < idx.len() ==> idx[a] < idx[b],
                forall|j: int| 0 <= j < i && in_range(#[trigger] ev[j].0, lower@, up) ==>
                    exists|t: int| 0 <= t < idx.len() && idx[t] == j,
            decreases self.entries.len() - i,
        {
            let k = self.entries[i].0.as_slice();
            if key_in_range(k, lower, upper) {
                let e: Entry = (copy_bytes(k), copy_bytes(self.entries[i].1.as_slice()));
                let ghost old_out = entries_view(out@);
                let ghost old_idx = idx;
                out.push(e);
                proof {
                    idx = idx.push(i as int);
                    assert(entries_view(out@) =~= old_out.push(ev[i as int]));
                    assert forall|j: int| 0 <= j < i + 1 && in_range(#[trigger] ev[j].0, lower@, up) implies
                        exists|t: int| 0 <= t < idx.len() && idx[t] == j by {
                        if j == i {
                            assert(idx[idx.len() - 1] == j);
                        } else {
                            let t = choose|t: int| 0 <= t < old_idx.len() && old_idx[t] == j;
                            assert(idx[t] == j);
                        }
                    }
                }
            }
            i = i + 1;
        }
        proof {
            let ov = entries_view(out@);
            assert forall|a: int, b: int| 0 <= a < b < ov.len() implies key_lt(#[trigger] ov[a].0, #[trigger] ov[b].0) by {
                assert(key_lt(ev[idx[a]].0, ev[idx[b]].0));
            }
            assert forall|k: Seq<u8>| self.model@.contains_key(k) && #[trigger] in_range(k, lower@, up) implies
                exists|t: int| 0 <= t < ov.len() && ov[t].0 == k by {
                let j = choose|j: int| 0 <= j < ev.len() && ev[j].0 == k;
                let t = choose|t: int| 0 <= t < idx.len() && idx[t] == j;
                assert(ov[t].0 == k);
            }
            assert forall|t: int| 0 <= t < ov.len() implies self.model@.contains_key(#[trigger] ov[t].0)
                && self.model@[ov[t].0] == ov[t].1 && in_range(ov[t].0, lower@, up) by {
                assert(ov[t] == ev[idx[t]]);
            }
        }
        Ok(out)
    }
}

/// A partition over another that refuses every write and delete once a
/// given number of them has been made, with `StorageError::TransactionFailed`.
/// It stands for a storage that starts to fail partway through a run.
pub struct LimitedPartition<P: Partition> {
    inner: P,
    budget: usize,
}

impl<P: Partition> LimitedPartition<P> {
    /// How many more writes and deletes will be accepted.
    pub closed spec fn remaining(&self) -> nat {
        self.budget as nat
    }

    /// Wraps `inner`, accepting `budget` more writes and deletes.
    pub fn new(inner: P, budget: usize) -> (r: LimitedPartition<P>)
        requires
            inner.inv(),
        ensures
            r.inv(),
            r.contents() == inner.contents(),
            r.remaining() == budget,
    {
        LimitedPartition { inner, budget }
    }
}

impl<P: Partition> Partition for LimitedPartition<P> {
    closed spec fn inv(&self) -> bool {
        self.inner.inv()
    }

    closed spec fn contents(&self) -> Contents {
        self.inner.contents()
    }

    open spec fn never_fails(&self) -> bool {
        false
    }

    fn read(&self, key: &[u8]) -> (r: Result<Option<Vec<u8>>, StorageError>) {
        self.inner.read(key)
    }

    fn write(&mut self, key: &[u8], value: &[u8]) -> (r: Result<Option<Vec<u8>>, StorageError>) {
        if self.budget == 0 {
            return Err(StorageError::TransactionFailed);
        }
        self.budget = self.budget - 1;
        self.inner.write(key, value)
    }

    fn erase(&mut self, key: &[u8]) -> (r: Result<Option<Vec<u8>>, StorageError>) {
        if self.budget == 0 {
            return Err(StorageError::TransactionFailed);
        }
        self.budget = self.budget - 1;
        self.inner.erase(key)
    }

    fn read_range(&self, lower: &[u8], upper: Option<&[u8]>) -> (r: Result<Vec<Entry>, StorageError>) {
        self.inner.read_range(lower, upper)
    }
}

} // verus!
