//! The storage engine: the write-ahead log and the tables below it.

pub mod batch;
pub mod block;
pub mod bloom;
pub mod cache;
pub mod compaction;
pub mod compaction_laws;
pub mod fault_laws;
pub mod file_names;
pub mod format_laws;
pub mod iterator;
pub mod layer_laws;
pub mod lsm;
pub mod lsm_laws;
pub mod manifest;
pub mod memtable;
pub mod merge_laws;
pub mod reading_laws;
pub mod recovery_laws;
pub mod scan;
pub mod scan_laws;
pub mod size_laws;
pub mod sstable;
pub mod table_builder;
pub mod table_iterator;
pub mod table_laws;
pub mod wal;
pub mod write_laws;
