use vstd::prelude::*;

use crate::partition::{lookup, Contents, StorageError};

verus! {

/// One directive of a batch.
#[derive(Clone, Debug)]
pub enum BatchItem {
    /// Stores a value under a key that is expected to hold none.
    InsertNew(Vec<u8>, Vec<u8>),
    /// Stores a value under a key, whatever it held.
    Insert(Vec<u8>, Vec<u8>),
    /// Deletes a key that is expected to hold a value.
    Delete(Vec<u8>),
    /// Deletes a key if it holds a value.
    MaybeDelete(Vec<u8>),
}

/// What a batch does when an item's expectation about its key proves false.
#[derive(Clone, Copy, Debug, PartialEq, Eq, Structural)]
pub enum ViolationPolicy {
    /// Record the item's index and go on with the next item.
    Continue,
    /// Stop the batch after that item.
    Stop,
}

/// Why a batch stopped before its end.
#[derive(Clone, Copy, Debug, PartialEq, Eq, Structural)]
pub enum FailureCause {
    /// The storage failed the item; the item took no effect.
    Fault(StorageError),
    /// The item was applied and its expectation proved false, under
    /// `ViolationPolicy::Stop`.
    Violation,
}

/// The outcome of a batch that ran to its end.
#[derive(Clone, Debug)]
pub struct BatchReport {
    /// The indices of the items whose expectation proved false, ascending.
    pub violations: Vec<usize>,
}

/// The outcome of a batch that stopped at item `index`.
#[derive(Clone, Debug)]
pub struct BatchFailure {
    pub index: usize,
    pub cause: FailureCause,
    /// The indices of the earlier items whose expectation proved false.
    pub violations: Vec<usize>,
}

/// The contents after applying `it` to `m`.
pub open spec fn apply_item(m: Contents, it: BatchItem) -> Contents {
    match it {
        BatchItem::InsertNew(k, v) => m.insert(k@, v@),
        BatchItem::Insert(k, v) => m.insert(k@, v@),
        BatchItem::Delete(k) => m.remove(k@),
        BatchItem::MaybeDelete(k) => m.remove(k@),
    }
}

/// Applying `it` to `m` proves its expectation about its key false.
pub open spec fn violates(m: Contents, it: BatchItem) -> bool {
    match it {
        BatchItem::InsertNew(k, _) => m.contains_key(k@),
        BatchItem::Delete(k) => !m.contains_key(k@),
        _ => false,
    }
}

/// The contents after applying the items of `s` to `m`, left to right.
pub open spec fn apply_items(m: Contents, s: Seq<BatchItem>) -> Contents
    decreases s.len(),
{
    if s.len() == 0 {
        m
    } else {
        apply_item(apply_items(m, s.drop_last()), s.last())
    }
}

/// The indices of the items of `s` whose expectation proves false when they
/// are applied to `m` left to right.
pub open spec fn violation_indices(m: Contents, s: Seq<BatchItem>) -> Seq<int>
    decreases s.len(),
{
    if s.len() == 0 {
        Seq::empty()
    } else {
        let earlier = violation_indices(m, s.drop_last());
        if violates(apply_items(m, s.drop_last()), s.last()) {
            earlier.push(s.len() - 1)
        } else {
            earlier
        }
    }
}

/// Applying a batch that begins with `it` is applying `it`, then the rest.
pub proof fn lemma_apply_items_first(m: Contents, it: BatchItem, rest: Seq<BatchItem>)
    ensures
        apply_items(m, seq![it] + rest) == apply_items(apply_item(m, it), rest),
    decreases rest.len(),
{
    if rest.len() == 0 {
        assert(seq![it] + rest =~= seq![it]);
        assert(seq![it].drop_last() =~= Seq::<BatchItem>::empty());
        assert(apply_items(m, seq![it].drop_last()) == m);
        assert(apply_items(apply_item(m, it), rest) == apply_item(m, it));
    } else {
        let s = seq![it] + rest;
        assert(s.drop_last() =~= seq![it] + rest.drop_last());
        assert(s.last() == rest.last());
        lemma_apply_items_first(m, it, rest.drop_last());
    }
}

/// A later item on the same key wins: after `[Insert(k, v1), Insert(k, v2)]`
/// the key holds `v2`.
pub proof fn lemma_later_insert_wins(m: Contents, k: Vec<u8>, v1: Vec<u8>, v2: Vec<u8>)
    ensures
        lookup(
            apply_items(m, seq![BatchItem::Insert(k, v1), BatchItem::Insert(k, v2)]),
            k@,
        ) == Some(v2@),
{
    let s = seq![BatchItem::Insert(k, v1), BatchItem::Insert(k, v2)];
    assert(s.drop_last() =~= seq![BatchItem::Insert(k, v1)]);
    assert(s.drop_last().drop_last() =~= Seq::<BatchItem>::empty());
}

/// An `InsertNew` on a key that already holds a value is recorded as a
/// violation, still stores its value, and the items after it are applied
/// as they would be after a plain insert.
pub proof fn lemma_violation_does_not_abort(
    m: Contents,
    k: Vec<u8>,
    v: Vec<u8>,
    rest: Seq<BatchItem>,
)
    requires
        m.contains_key(k@),
    ensures
        violates(m, BatchItem::InsertNew(k, v)),
        violation_indices(m, seq![BatchItem::InsertNew(k, v)]) == seq![0int],
        apply_items(m, seq![BatchItem::InsertNew(k, v)] + rest) == apply_items(
            m.insert(k@, v@),
            rest,
        ),
{
    lemma_apply_items_first(m, BatchItem::InsertNew(k, v), rest);
    let s = seq![BatchItem::InsertNew(k, v)];
    assert(s.drop_last() =~= Seq::<BatchItem>::empty());
    assert(apply_items(m, s.drop_last()) == m);
    assert(violation_indices(m, s.drop_last()) == Seq::<int>::empty());
    assert(seq![0int] =~= Seq::<int>::empty().push(0));
}

} // verus!
