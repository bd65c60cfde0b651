//! The ports: what a storage adapter provides to the operations.
pub mod storage;

pub use storage::{Clock, KvEntries, ReadTxn, StorageEngine, SystemClock, WriteTxn};
