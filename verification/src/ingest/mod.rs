//! The write path: the hot buffer, the write-ahead log's names and
//! checksums, the compactor's rules and the decisions of an ingest.

pub mod compactor;
pub mod coordinator;
pub mod flusher;
pub mod hot;
pub mod memtable;
pub mod wal;
