//! Fundamental data types shared by every storage component.

use vstd::prelude::*;

verus! {

/// A key in the database, represented as a byte vector.
pub type Key = Vec<u8>;

/// A value in the database, represented as a byte vector.
pub type Value = Vec<u8>;

/// A monotonically increasing sequence number for ordering operations.
pub type SequenceNumber = u64;

/// A version stamp for multi-version reads.
pub type Timestamp = u64;

/// The type of operation performed on a key.
#[derive(Debug, Clone, Copy, PartialEq, Eq, Structural)]
pub enum Operation {
    /// Insert or update a key-value pair.
    Put,
    /// Delete a key.
    Delete,
}

/// A key with its value.
#[derive(Debug, Clone, PartialEq, Eq)]
pub struct KeyValue {
    /// The key.
    pub key: Key,
    /// The value.
    pub value: Value,
}

/// A key with its value, the version it was written at and the operation
/// that wrote it.
#[derive(Debug, Clone, PartialEq, Eq)]
pub struct TimestampedKeyValue {
    /// The key.
    pub key: Key,
    /// The value; empty for deletions.
    pub value: Value,
    /// The version of this operation.
    pub timestamp: Timestamp,
    /// The type of operation.
    pub operation: Operation,
}

/// Compression algorithms named by the configuration.
#[derive(Debug, Clone, Copy, PartialEq, Eq, Structural)]
pub enum CompressionType {
    /// No compression.
    NoCompression,
    /// LZ4 compression.
    Lz4,
    /// Snappy compression.
    Snappy,
}

/// Durability modes for write-ahead logging.
#[derive(Debug, Clone, Copy, PartialEq, Eq, Structural)]
pub enum SyncMode {
    /// No synchronization after a write.
    NoSync,
    /// Flush the process buffer to the operating system.
    Normal,
    /// Flush and synchronize the file to stable storage.
    Full,
}

} // verus!
