use kv_adapter::batch::{BatchItem, FailureCause, ViolationPolicy};
use kv_adapter::bound::{key_in_range, prefix_upper};
use kv_adapter::keys::key_less;
use kv_adapter::mem::{LimitedPartition, MemPartition};
use kv_adapter::partition::{Entry, StorageError};
use kv_adapter::store::KvStore;

fn store() -> KvStore<MemPartition> {
    KvStore::new(MemPartition::new())
}

fn keys_of(entries: &[Entry]) -> Vec<Vec<u8>> {
    entries.iter().map(|e| e.0.clone()).collect()
}

#[test]
fn insert_then_get_round_trip() {
    let mut s = store();
    assert_eq!(s.insert(b"alpha", b"one").unwrap(), None);
    assert_eq!(s.get(b"alpha").unwrap(), Some(b"one".to_vec()));
    assert_eq!(s.get(b"beta").unwrap(), None);
}

#[test]
fn insert_reports_prior_value() {
    let mut s = store();
    assert_eq!(s.insert(b"k", b"v1").unwrap(), None);
    assert_eq!(s.insert(b"k", b"v2").unwrap(), Some(b"v1".to_vec()));
    assert_eq!(s.get(b"k").unwrap(), Some(b"v2".to_vec()));
}

#[test]
fn remove_reports_prior_value() {
    let mut s = store();
    s.insert(b"k", b"v").unwrap();
    assert_eq!(s.remove(b"k").unwrap(), Some(b"v".to_vec()));
    assert_eq!(s.get(b"k").unwrap(), None);
}

#[test]
fn remove_absent_twice_is_noop() {
    let mut s = store();
    s.insert(b"other", b"x").unwrap();
    assert_eq!(s.remove(b"k").unwrap(), None);
    assert_eq!(s.remove(b"k").unwrap(), None);
    assert_eq!(s.partition().len(), 1);
    assert_eq!(s.get(b"other").unwrap(), Some(b"x".to_vec()));
}

#[test]
fn empty_key_and_value_are_stored() {
    let mut s = store();
    assert_eq!(s.insert(b"", b"").unwrap(), None);
    assert_eq!(s.get(b"").unwrap(), Some(Vec::new()));
}

#[test]
fn scan_prefix_returns_matches_in_order() {
    let mut s = store();
    for k in [&b"ab"[..], b"b", b"abc", b"a", b"aa", b"ab\x00", b"ac"] {
        s.insert(k, k).unwrap();
    }
    let got = s.scan_prefix(b"ab").unwrap();
    assert_eq!(keys_of(&got), vec![b"ab".to_vec(), b"ab\x00".to_vec(), b"abc".to_vec()]);
    for e in &got {
        assert_eq!(e.0, e.1);
    }
    let none = s.scan_prefix(b"zz").unwrap();
    assert!(none.is_empty());
}

#[test]
fn scan_empty_prefix_returns_everything() {
    let mut s = store();
    s.insert(b"c", b"3").unwrap();
    s.insert(b"a", b"1").unwrap();
    s.insert(b"b", b"2").unwrap();
    let got = s.scan_prefix(b"").unwrap();
    assert_eq!(
        got,
        vec![
            (b"a".to_vec(), b"1".to_vec()),
            (b"b".to_vec(), b"2".to_vec()),
            (b"c".to_vec(), b"3".to_vec()),
        ]
    );
}

#[test]
fn scan_prefix_ending_in_max_byte() {
    let mut s = store();
    s.insert(&[1, 0xFF], b"exact").unwrap();
    s.insert(&[1, 0xFF, 0xFF], b"longer").unwrap();
    s.insert(&[1, 0xFF, 7], b"seven").unwrap();
    s.insert(&[2], b"next").unwrap();
    s.insert(&[1, 0xFE], b"before").unwrap();
    let got = s.scan_prefix(&[1, 0xFF]).unwrap();
    assert_eq!(
        keys_of(&got),
        vec![vec![1, 0xFF], vec![1, 0xFF, 7], vec![1, 0xFF, 0xFF]]
    );
}

#[test]
fn scan_prefix_of_only_max_bytes_is_unbounded() {
    let mut s = store();
    s.insert(&[0xFF], b"a").unwrap();
    s.insert(&[0xFF, 0xFF, 0xFF], b"b").unwrap();
    s.insert(&[0xFE, 0xFF], b"c").unwrap();
    let got = s.scan_prefix(&[0xFF, 0xFF]).unwrap();
    assert_eq!(keys_of(&got), vec![vec![0xFF, 0xFF, 0xFF]]);
}

#[test]
fn prefix_upper_carries_over_max_bytes() {
    assert_eq!(prefix_upper(b""), None);
    assert_eq!(prefix_upper(&[0xFF, 0xFF]), None);
    assert_eq!(prefix_upper(&[1, 2]), Some(vec![1, 3]));
    assert_eq!(prefix_upper(&[1, 0xFF]), Some(vec![2]));
    assert_eq!(prefix_upper(&[1, 0xFE, 0xFF, 0xFF]), Some(vec![1, 0xFF]));
}

#[test]
fn key_order_is_lexicographic() {
    assert!(key_less(b"", b"a"));
    assert!(!key_less(b"a", b""));
    assert!(key_less(b"ab", b"abc"));
    assert!(key_less(b"abc", b"abd"));
    assert!(!key_less(b"abd", b"abc"));
    assert!(!key_less(b"abc", b"abc"));
    assert!(key_less(&[0x01, 0xFF], &[0x02]));
}

#[test]
fn range_membership() {
    assert!(key_in_range(b"b", b"a", Some(b"c")));
    assert!(!key_in_range(b"c", b"a", Some(b"c")));
    assert!(key_in_range(b"a", b"a", None));
    assert!(!key_in_range(b"0", b"a", None));
}

#[test]
fn batch_later_insert_wins() {
    let mut s = store();
    let batch = vec![
        BatchItem::Insert(b"k".to_vec(), b"v1".to_vec()),
        BatchItem::Insert(b"k".to_vec(), b"v2".to_vec()),
    ];
    let rep = s.apply_batch(&batch, ViolationPolicy::Continue).unwrap();
    assert!(rep.violations.is_empty());
    assert_eq!(s.get(b"k").unwrap(), Some(b"v2".to_vec()));
}

#[test]
fn batch_violation_does_not_abort() {
    let mut s = store();
    s.insert(b"k", b"old").unwrap();
    let batch = vec![
        BatchItem::InsertNew(b"k".to_vec(), b"new".to_vec()),
        BatchItem::Insert(b"j".to_vec(), b"later".to_vec()),
        BatchItem::Delete(b"missing".to_vec()),
        BatchItem::MaybeDelete(b"missing".to_vec()),
        BatchItem::Delete(b"j".to_vec()),
    ];
    let rep = s.apply_batch(&batch, ViolationPolicy::Continue).unwrap();
    assert_eq!(rep.violations, vec![0, 2]);
    assert_eq!(s.get(b"k").unwrap(), Some(b"new".to_vec()));
    assert_eq!(s.get(b"j").unwrap(), None);
}

#[test]
fn batch_stop_policy_ends_after_violation() {
    let mut s = store();
    s.insert(b"k", b"old").unwrap();
    let batch = vec![
        BatchItem::Insert(b"a".to_vec(), b"1".to_vec()),
        BatchItem::InsertNew(b"k".to_vec(), b"new".to_vec()),
        BatchItem::Insert(b"b".to_vec(), b"2".to_vec()),
    ];
    let f = s.apply_batch(&batch, ViolationPolicy::Stop).unwrap_err();
    assert_eq!(f.index, 1);
    assert_eq!(f.cause, FailureCause::Violation);
    assert!(f.violations.is_empty());
    assert_eq!(s.get(b"a").unwrap(), Some(b"1".to_vec()));
    assert_eq!(s.get(b"k").unwrap(), Some(b"new".to_vec()));
    assert_eq!(s.get(b"b").unwrap(), None);
}

#[test]
fn batch_fault_keeps_earlier_items_only() {
    let mut s = KvStore::new(LimitedPartition::new(MemPartition::new(), 2));
    let batch = vec![
        BatchItem::Insert(b"a".to_vec(), b"1".to_vec()),
        BatchItem::Delete(b"none".to_vec()),
        BatchItem::Insert(b"b".to_vec(), b"2".to_vec()),
        BatchItem::Insert(b"c".to_vec(), b"3".to_vec()),
    ];
    let f = s.apply_batch(&batch, ViolationPolicy::Continue).unwrap_err();
    assert_eq!(f.index, 2);
    assert_eq!(f.cause, FailureCause::Fault(StorageError::TransactionFailed));
    assert_eq!(f.violations, vec![1]);
    assert_eq!(s.get(b"a").unwrap(), Some(b"1".to_vec()));
    assert_eq!(s.get(b"b").unwrap(), None);
    assert_eq!(s.get(b"c").unwrap(), None);
}

#[test]
fn point_operations_surface_faults() {
    let mut s = KvStore::new(LimitedPartition::new(MemPartition::new(), 0));
    assert_eq!(s.insert(b"k", b"v"), Err(StorageError::TransactionFailed));
    assert_eq!(s.remove(b"k"), Err(StorageError::TransactionFailed));
    assert_eq!(s.get(b"k").unwrap(), None);
}

#[test]
fn storage_error_variants_are_distinct() {
    assert_ne!(StorageError::OpenFailed, StorageError::TransactionFailed);
    assert_ne!(StorageError::TransactionFailed, StorageError::CodecMismatch);
    assert_ne!(StorageError::OpenFailed, StorageError::CodecMismatch);
}
