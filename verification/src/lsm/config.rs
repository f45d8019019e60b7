//! The settings of a storage engine and the two decisions they drive: when the in-memory
//! table is flushed to a table file, and when table files are merged.
use vstd::prelude::*;

verus! {

/// Where tables are kept and the thresholds that trigger flushing and compaction.
#[derive(Debug, Clone)]
pub struct LsmConfig {
    /// The directory that holds the table files.
    pub data_dir: String,
    /// The in-memory table is flushed once it weighs this many bytes.
    pub flush_threshold_bytes: usize,
    /// Table files are merged once there are this many.
    pub compaction_trigger_files: usize,
}

impl Default for LsmConfig {
    fn default() -> (r: Self)
        ensures
            r.data_dir@ == "data/lsm_storage"@,
            r.flush_threshold_bytes == 1024 * 1024,
            r.compaction_trigger_files == 4,
    {
        LsmConfig {
            data_dir: "data/lsm_storage".to_owned(),
            flush_threshold_bytes: 1024 * 1024,
            compaction_trigger_files: 4,
        }
    }
}

impl LsmConfig {
    /// An in-memory table of `weight` bytes is due to be flushed.
    pub fn needs_flush(&self, weight: usize) -> (r: bool)
        ensures
            r == (weight >= self.flush_threshold_bytes),
    {
        weight >= self.flush_threshold_bytes
    }

    /// `tables` table files are due to be merged.
    pub fn needs_compaction(&self, tables: usize) -> (r: bool)
        ensures
            r == (tables >= self.compaction_trigger_files),
    {
        tables >= self.compaction_trigger_files
    }
}

} // verus!
