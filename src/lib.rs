//! A key-value storage adapter over a host partition of byte keys and byte
//! values: point reads, inserts and removes that report the prior value,
//! prefix scans in ascending key order, and ordered batches of insert and
//! delete directives.
//!
//! `keys` defines the lexicographic key order, `bound` turns a prefix into a
//! half-open key range, `partition` states what a partition must do,
//! `mem` holds an in-memory partition, `batch` gives the meaning of a batch,
//! and `store` is the adapter.

pub mod keys;
pub mod bound;
pub mod partition;
pub mod mem;
pub mod batch;
pub mod store;
