//! The in-memory multi-version write buffer.
//!
//! A `MemTable` keeps every written version of every key in an ordered
//! list, accounts approximately for the bytes it holds, and signals when its
//! size limit is passed so that the caller can seal and flush it.

pub mod model;
pub mod skip_list;

use vstd::prelude::*;

use crate::error::{Error, Result};
use crate::memtable::model::{get_of, inserted, scan_of, Entry};
use crate::memtable::skip_list::SkipList;
use crate::types::{Key, Operation, Timestamp, Value};

verus! {

/// Default size limit of an in-memory table in bytes.
pub const DEFAULT_MEMTABLE_SIZE: usize = 4 * 1024 * 1024;

/// Bytes charged to every entry on top of its key and value.
pub const ENTRY_OVERHEAD: usize = 64;

/// The sum of two sizes, held at the largest representable size.
pub open spec fn capped_sum(a: int, b: int) -> int {
    if a + b > usize::MAX {
        usize::MAX as int
    } else {
        a + b
    }
}

/// The bytes charged for an entry with a key of `key_len` and a value of
/// `value_len` bytes.
pub open spec fn entry_charge(key_len: int, value_len: int) -> int {
    capped_sum(capped_sum(key_len, value_len), ENTRY_OVERHEAD as int)
}

/// An in-memory write buffer over versioned entries.
pub struct MemTable {
    skiplist: SkipList,
    memory_usage: usize,
    max_size: usize,
}

impl MemTable {
    /// The entries of the table, in internal-key order.
    pub closed spec fn view(&self) -> Seq<Entry> {
        self.skiplist@
    }

    /// The table is well formed.
    pub closed spec fn wf(&self) -> bool {
        self.skiplist.wf()
    }

    /// The approximate number of bytes charged so far.
    pub closed spec fn usage(&self) -> int {
        self.memory_usage as int
    }

    /// The size limit that the table was created with.
    pub closed spec fn limit(&self) -> int {
        self.max_size as int
    }

    /// Creates a new empty table with the given size limit in bytes.
    pub fn new(max_size: usize) -> (table: Self)
        ensures
            table.wf(),
            table@ == Seq::<Entry>::empty(),
            table.usage() == 0,
            table.limit() == max_size,
    {
        MemTable { skiplist: SkipList::new(), memory_usage: 0, max_size }
    }

    /// Charges `charge` bytes and tells whether the limit is now passed.
    fn account(&mut self, charge: usize) -> (r: Result<()>)
        ensures
            final(self).skiplist == old(self).skiplist,
            final(self).max_size == old(self).max_size,
            final(self).memory_usage == capped_sum(old(self).memory_usage as int, charge as int),
            r is Ok <==> old(self).memory_usage + charge <= old(self).max_size,
            r is Err ==> r matches Err(Error::MemTableFull),
    {
        let before = self.memory_usage;
        self.memory_usage = before.saturating_add(charge);
        if charge > self.max_size || before > self.max_size - charge {
            Err(Error::MemTableFull)
        } else {
            Ok(())
        }
    }

    /// Writes `value` under `key` at version `timestamp`. The entry is
    /// inserted and its bytes are charged in every case; the result is
    /// `MemTableFull` exactly when the charge takes the total past the limit,
    /// which tells the caller to seal and flush the table.
    pub fn put(&mut self, key: Key, value: Value, timestamp: Timestamp) -> (r: Result<()>)
        requires
            old(self).wf(),
        ensures
            final(self).wf(),
            final(self).limit() == old(self).limit(),
            final(self)@ == inserted(
                old(self)@,
                Entry { user_key: key@, timestamp, operation: Operation::Put, value: value@ },
            ),
            final(self).usage() == capped_sum(
                old(self).usage(),
                entry_charge(key@.len() as int, value@.len() as int),
            ),
            r is Ok <==> old(self).usage() + entry_charge(key@.len() as int, value@.len() as int)
                <= old(self).limit(),
            r is Err ==> r matches Err(Error::MemTableFull),
    {
        let charge = key.len().saturating_add(value.len()).saturating_add(ENTRY_OVERHEAD);
        self.skiplist.insert(key, value, timestamp, Operation::Put);
        self.account(charge)
    }

    /// Marks `key` as deleted at version `timestamp` by writing a tombstone
    /// with an empty value. Charging and the result are as for `put`.
    pub fn delete(&mut self, key: Key, timestamp: Timestamp) -> (r: Result<()>)
        requires
            old(self).wf(),
        ensures
            final(self).wf(),
            final(self).limit() == old(self).limit(),
            final(self)@ == inserted(
                old(self)@,
                Entry {
                    user_key: key@,
                    timestamp,
                    operation: Operation::Delete,
                    value: Seq::<u8>::empty(),
                },
            ),
            final(self).usage() == capped_sum(
                old(self).usage(),
                entry_charge(key@.len() as int, 0),
            ),
            r is Ok <==> old(self).usage() + entry_charge(key@.len() as int, 0) <=
                old(self).limit(),
            r is Err ==> r matches Err(Error::MemTableFull),
    {
        let charge = key.len().saturating_add(ENTRY_OVERHEAD);
        self.skiplist.insert(key, Vec::new(), timestamp, Operation::Delete);
        self.account(charge)
    }

    /// Reads `key` as of `timestamp`: the value and operation of the entry
    /// with the greatest version not above `timestamp`, or `None` when the
    /// key has no such version.
    pub fn get(&self, key: &[u8], timestamp: Timestamp) -> (r: Option<(Value, Operation)>)
        requires
            self.wf(),
        ensures
            get_of(self@, key@, timestamp, r),
    {
        self.skiplist.get(key, timestamp)
    }

    /// Scans the user keys in `[start_key, end_key)` as of `timestamp`,
    /// reporting for each the visible value unless a tombstone hides it.
    pub fn scan(&self, start_key: &[u8], end_key: &[u8], timestamp: Timestamp) -> (out: Vec<
        (Key, Value),
    >)
        requires
            self.wf(),
        ensures
            scan_of(self@, start_key@, end_key@, timestamp, out@),
    {
        self.skiplist.scan(start_key, end_key, timestamp)
    }

    /// Returns the approximate number of bytes charged so far.
    pub fn memory_usage(&self) -> (n: usize)
        ensures
            n == self.usage(),
    {
        self.memory_usage
    }

    /// Returns the approximate size of the table in bytes.
    pub fn approximate_size(&self) -> (n: usize)
        ensures
            n == self.usage(),
    {
        self.memory_usage
    }

    /// Tells whether the charged bytes have reached the size limit.
    pub fn is_full(&self) -> (full: bool)
        ensures
            full == (self.usage() >= self.limit()),
    {
        self.memory_usage >= self.max_size
    }

    /// Returns the number of entries, counting every version of every key.
    pub fn entry_count(&self) -> (n: usize)
        requires
            self.wf(),
        ensures
            n == self@.len(),
    {
        self.skiplist.size()
    }
}

} // verus!
