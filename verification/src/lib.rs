//! Core of an embedded, ordered key-value storage engine in the
//! log-structured merge-tree style: the sorted-table read path (blocks,
//! block iterators, table iterators), the N-way merge iterator, the
//! per-level handlers with the L0 admission bound, and the write-ahead
//! log with its entry framing and torn-tail-tolerant forward iteration.

use vstd::prelude::*;

pub mod block;
pub mod codec;
pub mod error;
pub mod format;
pub mod levels;
pub mod merge;
pub mod table;
pub mod value;
pub mod wal;

verus! {

/// Configuration recognized by the engine core.
pub struct AgateOptions {
    /// Number of LSM levels; must be at least 1.
    pub max_levels: usize,
    /// Admission bound for level 0: adding a table beyond this count stalls.
    pub num_level_zero_tables_stall: usize,
    /// Soft threshold above which a WAL reports that it should be rotated;
    /// WAL files are pre-extended to twice this size.
    pub value_log_file_size: u64,
    /// If set, finishing a WAL syncs the file before truncating it.
    pub sync_writes: bool,
    /// If set, table admission skips manifest updates.
    pub in_memory: bool,
}

impl Clone for AgateOptions {
    fn clone(&self) -> (r: Self)
        ensures
            r == *self,
    {
        AgateOptions {
            max_levels: self.max_levels,
            num_level_zero_tables_stall: self.num_level_zero_tables_stall,
            value_log_file_size: self.value_log_file_size,
            sync_writes: self.sync_writes,
            in_memory: self.in_memory,
        }
    }
}

impl Default for AgateOptions {
    fn default() -> (r: Self)
        ensures
            r.max_levels == 7,
            r.num_level_zero_tables_stall == 15,
            r.value_log_file_size == 0x4000_0000u64,
            !r.sync_writes,
            !r.in_memory,
    {
        AgateOptions {
            max_levels: 7,
            num_level_zero_tables_stall: 15,
            value_log_file_size: 0x4000_0000u64,
            sync_writes: false,
            in_memory: false,
        }
    }
}

} // verus!
