//! Settings of the storage and key-value layers.

use vstd::prelude::*;

verus! {

#[derive(Clone, Debug, Default)]
pub struct StorageConfig {
    /// Directory of the data files.
    pub path: String,
    /// Bytes per main block record.
    pub block_size: usize,
    /// Bytes a change buffer page may hold.
    pub page_max_cap: usize,
}

#[derive(Clone, Debug, Default)]
pub struct KvConfig {
    pub storage: StorageConfig,
    /// Directory of the key-value log.
    pub wal_path: String,
    /// Entries the read cache may hold.
    pub cache_cap: usize,
    /// Bytes a change buffer page may hold.
    pub cbf_cap: usize,
    /// Number of hash slots.
    pub slot_qty: u32,
}

} // verus!
