//! The storage engine's components.
pub mod memtable;
pub mod format;
pub mod merge;
pub mod block;
pub mod sstable;
pub mod wal;
pub mod manifest;
pub mod compaction;
pub mod table_laws;
pub mod levels;

pub use manifest::SSTableMeta;
pub mod store;
pub mod search_laws;
