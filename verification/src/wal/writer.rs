//! The log writer: size accounting and durability for appended records.
//!
//! The writer decides whether a record may be appended and what has to reach
//! the file; the caller owns the file and carries the decision out.

use vstd::prelude::*;
use vstd::string::*;

use crate::error::{Error, Result};
use crate::types::SyncMode;
use crate::wal::log_entry::{encode_record, encoded_len, WALEntry};

verus! {

/// Default size limit of a log file in bytes.
pub const DEFAULT_WAL_SIZE_LIMIT: u64 = 64 * 1024 * 1024;

/// What an accepted append asks of the file: the bytes to write at its end,
/// and how far to push them towards stable storage afterwards.
#[derive(Debug)]
pub struct WalWrite {
    /// The encoded record.
    pub bytes: Vec<u8>,
    /// Whether to flush the process buffer to the operating system.
    pub flush: bool,
    /// Whether to synchronize the file to stable storage after the flush.
    pub sync: bool,
}

/// Whether a durability mode asks for a flush after each record.
pub open spec fn flushes(mode: SyncMode) -> bool {
    mode != SyncMode::NoSync
}

/// Whether a durability mode asks for a synchronization after each record.
pub open spec fn syncs(mode: SyncMode) -> bool {
    mode == SyncMode::Full
}

/// Accounting for an append-only log file with a size limit.
pub struct WALWriter {
    path: String,
    size: u64,
    sync_mode: SyncMode,
    size_limit: u64,
}

impl WALWriter {
    /// The number of bytes that the log file holds.
    pub closed spec fn tracked_size(&self) -> int {
        self.size as int
    }

    /// The size that the log file may not pass.
    pub closed spec fn limit(&self) -> int {
        self.size_limit as int
    }

    /// The durability mode of the writer.
    pub closed spec fn mode(&self) -> SyncMode {
        self.sync_mode
    }

    /// The path of the log file.
    pub closed spec fn file_path(&self) -> Seq<char> {
        self.path@
    }

    /// Creates a writer for the log file at `path`, which holds
    /// `existing_size` bytes already.
    pub fn new(path: &str, sync_mode: SyncMode, size_limit: u64, existing_size: u64) -> (writer:
        Self)
        ensures
            writer.tracked_size() == existing_size,
            writer.limit() == size_limit,
            writer.mode() == sync_mode,
            writer.file_path() == path@,
    {
        WALWriter { path: String::from_str(path), size: existing_size, sync_mode, size_limit }
    }

    /// Appends a record. The record is encoded once. When it would take the
    /// file past the size limit it is refused and nothing changes; the
    /// caller rotates the log. Otherwise the encoded bytes are returned for
    /// writing, with what the durability mode asks for, and are counted.
    pub fn append(&mut self, entry: &WALEntry) -> (r: Result<WalWrite>)
        ensures
            final(self).limit() == old(self).limit(),
            final(self).mode() == old(self).mode(),
            final(self).file_path() == old(self).file_path(),
            if old(self).tracked_size() + encoded_len(entry@) > old(self).limit() {
                &&& r matches Err(Error::StorageEngine(msg)) && msg@
                    == "WAL file size limit reached"@
                &&& final(self).tracked_size() == old(self).tracked_size()
            } else {
                &&& r matches Ok(write) && write.bytes@ == encode_record(entry@) && write.flush
                    == flushes(old(self).mode()) && write.sync == syncs(old(self).mode())
                &&& final(self).tracked_size() == old(self).tracked_size() + encoded_len(entry@)
            },
    {
        let bytes = entry.encode();
        let entry_size = bytes.len();
        if self.size > self.size_limit || entry_size as u64 > self.size_limit - self.size {
            return Err(Error::StorageEngine(String::from_str("WAL file size limit reached")));
        }
        self.size = self.size + entry_size as u64;
        let (flush, sync) = match self.sync_mode {
            SyncMode::NoSync => (false, false),
            SyncMode::Normal => (true, false),
            SyncMode::Full => (true, true),
        };
        Ok(WalWrite { bytes, flush, sync })
    }

    /// Returns the number of bytes that the log file holds.
    pub fn size(&self) -> (n: u64)
        ensures
            n == self.tracked_size(),
    {
        self.size
    }

    /// Returns the path of the log file.
    pub fn path(&self) -> (p: &str)
        ensures
            p@ == self.file_path(),
    {
        self.path.as_str()
    }
}

} // verus!
