//! The core of an embeddable log-structured key-value storage engine.
//!
//! - [`wal`]: the write-ahead log, with framed and checksummed records, size
//!   accounting for the writer and sequential replay for the reader.
//! - [`memtable`]: the in-memory multi-version table over an ordered list of
//!   versioned entries, with reads and scans as of a version.
//! - [`sstable`]: the sorted string table format, its writer and its reader.
//! - [`store`]: small in-memory stores from text keys to text values.
//!
//! Keys and values are byte strings; [`bytes`] orders them, [`order`] orders
//! keys with their versions, and [`codec`] lays integers out in bytes. The
//! library works on bytes in memory: files are read and written by its
//! callers.

pub mod bytes;
pub mod codec;
pub mod error;
pub mod memtable;
pub mod order;
pub mod sstable;
pub mod store;
pub mod text;
pub mod types;
pub mod wal;
