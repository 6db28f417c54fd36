//! Write-ingest core of a time-series database ingester.
//!
//! Writes are durably recorded in a segmented write-ahead log, applied to an
//! in-memory buffer tree indexed namespace / table / partition, and later
//! compacted into immutable snapshots that a persistence pipeline turns into
//! columnar files.  On startup the log is replayed to rebuild the buffer.

pub mod buffer;
pub mod bytes;
pub mod codec;
pub mod config;
pub mod deferred;
pub mod frame;
pub mod ids;
pub mod init;
pub mod name_resolver;
pub mod op;
pub mod oracle;
pub mod partition_cache;
pub mod persist;
pub mod replay;
pub mod response;
pub mod sink;
pub mod wal;
