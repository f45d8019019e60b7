//! A log-structured key-value store: the in-memory table, the sorted table file format, and
//! the merging of tables.
pub mod order;
pub mod lookup;
pub mod memtable;
pub mod sstable;
pub mod compactor;
pub mod config;
