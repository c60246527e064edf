//! The log-structured merge tree: log, memory table, sorted tables on disk, and the engine.
pub mod bytes;
pub mod engine;
pub mod layout_laws;
pub mod memtable;
pub mod names;
pub mod points;
pub mod protocol;
pub mod runs;
pub mod scan_laws;
pub mod sstable;
pub mod store;
pub mod table_format;
pub mod table_laws;
pub mod turns;
pub mod wal;
