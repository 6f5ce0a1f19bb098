//! Configuration of the storage engine.

use vstd::prelude::*;

verus! {

/// How a write-ahead log is set up.
#[derive(Clone, Debug)]
pub struct WalConfig {
    /// Starting segment id.
    pub id: u64,
    /// Bytes appended to a segment before the log rotates.
    pub max_size: u64,
    /// Where the segment files live.
    pub log_directory: String,
    /// Size of the in-memory append buffer; a default is used when absent.
    pub buffer_size: Option<usize>,
}

impl WalConfig {
    pub fn new(id: u64, max_size: u64, log_directory: String, buffer_size: Option<usize>) -> (r:
        WalConfig)
        ensures
            r.id == id,
            r.max_size == max_size,
            r.log_directory@ == log_directory@,
            r.buffer_size == buffer_size,
    {
        WalConfig { id, max_size, log_directory, buffer_size }
    }
}

/// How a memtable is set up.
#[derive(Clone, Debug)]
pub struct MemtableConfig {
    /// Starting memtable id.
    pub id: u64,
    /// Bytes of accumulated values before the memtable is rotated out.
    pub max_size: u64,
}

impl MemtableConfig {
    pub fn new(id: u64, max_size: u64) -> (r: MemtableConfig)
        ensures
            r.id == id,
            r.max_size == max_size,
    {
        MemtableConfig { id, max_size }
    }
}

/// Configuration of a whole store: its log and its memtable.
#[derive(Clone, Debug)]
pub struct ChipmunkConfig {
    pub wal: WalConfig,
    pub memtable: MemtableConfig,
}

} // verus!
