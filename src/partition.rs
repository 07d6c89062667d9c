use vstd::prelude::*;

use crate::bound::in_range;
use crate::keys::{key_lt, starts_with};

verus! {

/// A fault of the storage underneath the adapter.
#[derive(Clone, Copy, Debug, PartialEq, Eq, Structural)]
pub enum StorageError {
    /// The partition could not be created or opened.
    OpenFailed,
    /// A transaction could not be acquired or committed.
    TransactionFailed,
    /// A stored value did not have the shape of a byte array.
    CodecMismatch,
}

/// A stored pair of key and value.
pub type Entry = (Vec<u8>, Vec<u8>);

/// The abstract contents of a partition: at most one value per key.
pub type Contents = Map<Seq<u8>, Seq<u8>>;

pub open spec fn entry_view(e: Entry) -> (Seq<u8>, Seq<u8>) {
    (e.0@, e.1@)
}

pub open spec fn entries_view(s: Seq<Entry>) -> Seq<(Seq<u8>, Seq<u8>)> {
    s.map_values(|e: Entry| entry_view(e))
}

pub open spec fn bytes_view(v: Option<Vec<u8>>) -> Option<Seq<u8>> {
    match v {
        Some(b) => Some(b@),
        None => None,
    }
}

pub open spec fn upper_view(u: Option<&[u8]>) -> Option<Seq<u8>> {
    match u {
        Some(b) => Some(b@),
        None => None,
    }
}

/// The value stored under `k`, if any.
pub open spec fn lookup(m: Contents, k: Seq<u8>) -> Option<Seq<u8>> {
    if m.contains_key(k) {
        Some(m[k])
    } else {
        None
    }
}

/// Keys strictly ascend along `s`.
pub open spec fn keys_ascending(s: Seq<(Seq<u8>, Seq<u8>)>) -> bool {
    forall|i: int, j: int| 0 <= i < j < s.len() ==> key_lt(#[trigger] s[i].0, #[trigger] s[j].0)
}

/// `s` lists, by ascending key, exactly the entries of `m` that satisfy `sel`.
pub open spec fn is_listing(m: Contents, s: Seq<(Seq<u8>, Seq<u8>)>, sel: spec_fn(Seq<u8>) -> bool) -> bool {
    &&& keys_ascending(s)
    &&& forall|i: int|
        0 <= i < s.len() ==> {
            &&& m.contains_key(#[trigger] s[i].0)
            &&& m[s[i].0] == s[i].1
            &&& sel(s[i].0)
        }
    &&& forall|k: Seq<u8>|
        #[trigger] m.contains_key(k) && sel(k) ==> exists|i: int| 0 <= i < s.len() && s[i].0 == k
}

/// `s` lists the entries of `m` whose key lies in `[lower, upper)`.
pub open spec fn is_range_listing(
    m: Contents,
    lower: Seq<u8>,
    upper: Option<Seq<u8>>,
    s: Seq<(Seq<u8>, Seq<u8>)>,
) -> bool {
    is_listing(m, s, |k: Seq<u8>| in_range(k, lower, upper))
}

/// `s` lists the entries of `m` whose key starts with `p`.
pub open spec fn is_prefix_listing(m: Contents, p: Seq<u8>, s: Seq<(Seq<u8>, Seq<u8>)>) -> bool {
    is_listing(m, s, |k: Seq<u8>| starts_with(k, p))
}

/// A keyspace of byte keys and byte values that the adapter stores into:
/// point reads, writes and deletes and ordered half-open range reads. Each
/// call runs in one transaction of the storage, which commits it whole or
/// refuses it with no effect.
pub trait Partition {
    /// The well-formedness of the implementation's state.
    spec fn inv(&self) -> bool;

    /// What the partition holds.
    spec fn contents(&self) -> Contents;

    /// The partition answers every call with `Ok`.
    spec fn never_fails(&self) -> bool;

    /// Reads the value stored under `key`.
    fn read(&self, key: &[u8]) -> (r: Result<Option<Vec<u8>>, StorageError>)
        requires
            self.inv(),
        ensures
            r matches Ok(v) ==> bytes_view(v) == lookup(self.contents(), key@),
            self.never_fails() ==> r is Ok,
    ;

    /// Stores `value` under `key` and returns the value it replaced.
    fn write(&mut self, key: &[u8], value: &[u8]) -> (r: Result<Option<Vec<u8>>, StorageError>)
        requires
            old(self).inv(),
        ensures
            final(self).inv(),
            r matches Ok(prev) ==> bytes_view(prev) == lookup(old(self).contents(), key@)
                && final(self).contents() == old(self).contents().insert(key@, value@),
            r is Err ==> final(self).contents() == old(self).contents(),
            final(self).never_fails() == old(self).never_fails(),
            old(self).never_fails() ==> r is Ok,
    ;

    /// Deletes the value stored under `key`, if any, and returns it.
    fn erase(&mut self, key: &[u8]) -> (r: Result<Option<Vec<u8>>, StorageError>)
        requires
            old(self).inv(),
        ensures
            final(self).inv(),
            r matches Ok(prev) ==> bytes_view(prev) == lookup(old(self).contents(), key@)
                && final(self).contents() == old(self).contents().remove(key@),
            r is Err ==> final(self).contents() == old(self).contents(),
            final(self).never_fails() == old(self).never_fails(),
            old(self).never_fails() ==> r is Ok,
    ;

    /// Reads, by ascending key, every entry whose key lies in `[lower, upper)`.
    fn read_range(&self, lower: &[u8], upper: Option<&[u8]>) -> (r: Result<Vec<Entry>, StorageError>)
        requires
            self.inv(),
        ensures
            r matches Ok(s) ==> is_range_listing(
                self.contents(),
                lower@,
                upper_view(upper),
                entries_view(s@),
            ),
            self.never_fails() ==> r is Ok,
    ;
}

/// Copies a byte slice into a vector of its own.
pub fn copy_bytes(b: &[u8]) -> (r: Vec<u8>)
    ensures
        r@ == b@,
{
    let mut r: Vec<u8> = Vec::new();
    let mut i: usize = 0;
    while i < b.len()
        invariant
            i <= b.len(),
            r@ == b@.subrange(0, i as int),
        decreases b.len() - i,
    {
        r.push(b[i]);
        assert(r@ =~= b@.subrange(0, i + 1));
        i = i + 1;
    }
    assert(r@ =~= b@);
    r
}

} // verus!
