//! Sorted string tables: immutable files of sorted entries.
//!
//! A table file is laid out, from offset zero, as data blocks, the index
//! block, the bloom region and the footer:
//!
//! ```text
//! entry:        key_len u32 | value_len u32 | version u64 | op u8 | key | value
//! data block:   entry_count u32 | entries | checksum u32
//! index entry:  block_offset u64 | first_key_len u32 | first_key
//! index block:  entry_count u32 | index entries | checksum u32
//! bloom region: bits (8 bytes) | hash_count u32 | checksum u32
//! footer:       index_offset u64 | index_length u64 | bloom_offset u64
//!               | bloom_length u64 | magic u64
//! ```
//!
//! All integers are little-endian. Entries are sorted by user key ascending
//! and, within one user key, by version descending. In an entry the
//! operation byte is `0` for a put and `1` for a deletion.

pub mod key;
pub mod laws;
pub mod layout;
pub mod reader;
pub mod writer;

pub use key::InternalKey;
pub use reader::{SSTableIterator, SSTableReader, SSTableReaderInfo};
pub use writer::{SSTableInfo, SSTableWriter};

use vstd::bytes::*;
use vstd::prelude::*;
use vstd::string::*;

use crate::bytes::copy_bytes;
use crate::codec::{le_u64_at, read_u64_le};
use crate::error::{Error, Result};
use crate::memtable::model::Entry;
use crate::text::{decimal, decimal_digits};
use crate::types::{Key, Operation, Value};

verus! {

/// Magic number of table files: the bytes of "FERRISDB" read big-endian.
pub const SSTABLE_MAGIC: u64 = 0x46455252_49534442;

/// Default target size of a data block in bytes.
pub const DEFAULT_BLOCK_SIZE: usize = 4096;

/// Size of the footer in bytes.
pub const FOOTER_SIZE: usize = 40;

/// Maximum size of a single key or value in bytes.
pub const MAX_ENTRY_SIZE: usize = 16 * 1024 * 1024;

/// An entry of a table: key, value and operation.
#[derive(Debug, Clone, PartialEq, Eq)]
pub struct SSTableEntry {
    /// The internal key: user key and version.
    pub key: InternalKey,
    /// The value of this version of the key.
    pub value: Value,
    /// Whether this entry stores a value or marks a deletion.
    pub operation: Operation,
}

impl View for SSTableEntry {
    type V = Entry;

    open spec fn view(&self) -> Entry {
        Entry {
            user_key: self.key.user_key@,
            timestamp: self.key.timestamp,
            operation: self.operation,
            value: self.value@,
        }
    }
}

/// The entries that a vector of table entries stands for.
pub open spec fn entries_view(v: Seq<SSTableEntry>) -> Seq<Entry> {
    Seq::new(v.len(), |i: int| v[i]@)
}

impl SSTableEntry {
    /// Creates a new table entry.
    pub fn new(key: InternalKey, value: Value, operation: Operation) -> (entry: Self)
        ensures
            entry.key == key,
            entry.value == value,
            entry.operation == operation,
    {
        SSTableEntry { key, value, operation }
    }

    /// Returns the serialized size of this entry: its key, the value length
    /// field, the value and the operation byte.
    pub fn serialized_size(&self) -> (n: usize)
        requires
            self.key.user_key@.len() + self.value@.len() + 17 <= usize::MAX,
        ensures
            n == 17 + self.key.user_key@.len() + self.value@.len(),
    {
        self.key.serialized_size() + 4 + self.value.len() + 1
    }

    /// Copies the entry.
    pub fn duplicate(&self) -> (entry: Self)
        ensures
            entry@ == self@,
    {
        SSTableEntry {
            key: self.key.duplicate(),
            value: copy_bytes(self.value.as_slice()),
            operation: self.operation,
        }
    }
}

/// An index entry: where a data block starts and the first user key in it.
#[derive(Debug, Clone)]
pub struct IndexEntry {
    /// File offset of the data block.
    pub block_offset: u64,
    /// First user key in the data block.
    pub first_key: Key,
}

/// The mathematical content of an index entry.
pub struct IndexRecord {
    pub block_offset: u64,
    pub first_key: Seq<u8>,
}

impl View for IndexEntry {
    type V = IndexRecord;

    open spec fn view(&self) -> IndexRecord {
        IndexRecord { block_offset: self.block_offset, first_key: self.first_key@ }
    }
}

/// The index records that a vector of index entries stands for.
pub open spec fn index_view(v: Seq<IndexEntry>) -> Seq<IndexRecord> {
    Seq::new(v.len(), |i: int| v[i]@)
}

impl IndexEntry {
    /// Creates a new index entry.
    pub fn new(block_offset: u64, first_key: Key) -> (entry: Self)
        ensures
            entry.block_offset == block_offset,
            entry.first_key == first_key,
    {
        IndexEntry { block_offset, first_key }
    }

    /// Returns the serialized size of this index entry: offset, key length
    /// field and key.
    pub fn serialized_size(&self) -> (n: usize)
        requires
            self.first_key@.len() + 12 <= usize::MAX,
        ensures
            n == 8 + 4 + self.first_key@.len(),
    {
        8 + 4 + self.first_key.len()
    }
}

/// The trailer of a table file, which locates the index and the bloom
/// region.
#[derive(Debug, Clone, Copy)]
pub struct Footer {
    /// Offset of the index block.
    pub index_offset: u64,
    /// Length of the index block.
    pub index_length: u64,
    /// Offset of the bloom region.
    pub bloom_offset: u64,
    /// Length of the bloom region.
    pub bloom_length: u64,
    /// Magic number for validation.
    pub magic: u64,
}

/// The forty bytes of a footer.
pub open spec fn footer_bytes(f: Footer) -> Seq<u8> {
    spec_u64_to_le_bytes(f.index_offset) + spec_u64_to_le_bytes(f.index_length)
        + spec_u64_to_le_bytes(f.bloom_offset) + spec_u64_to_le_bytes(f.bloom_length)
        + spec_u64_to_le_bytes(f.magic)
}

/// The message for a footer whose magic number is `found`.
pub open spec fn bad_magic_text(found: u64) -> Seq<char> {
    "Invalid magic number: expected "@ + decimal_digits(SSTABLE_MAGIC as nat) + ", got "@
        + decimal_digits(found as nat)
}

/// What parsing a footer from `b` yields: the footer, or the reason why the
/// bytes are rejected as malformed.
pub open spec fn parse_footer(b: Seq<u8>) -> core::result::Result<Footer, Seq<char>> {
    if b.len() != FOOTER_SIZE {
        Err("Invalid footer size"@)
    } else if le_u64_at(b, 32) != SSTABLE_MAGIC {
        Err(bad_magic_text(le_u64_at(b, 32)))
    } else {
        Ok(
            Footer {
                index_offset: le_u64_at(b, 0),
                index_length: le_u64_at(b, 8),
                bloom_offset: le_u64_at(b, 16),
                bloom_length: le_u64_at(b, 24),
                magic: le_u64_at(b, 32),
            },
        )
    }
}

/// The fields of a serialized footer read back as they were written.
pub proof fn lemma_footer_fields(f: Footer)
    ensures
        footer_bytes(f).len() == FOOTER_SIZE,
        le_u64_at(footer_bytes(f), 0) == f.index_offset,
        le_u64_at(footer_bytes(f), 8) == f.index_length,
        le_u64_at(footer_bytes(f), 16) == f.bloom_offset,
        le_u64_at(footer_bytes(f), 24) == f.bloom_length,
        le_u64_at(footer_bytes(f), 32) == f.magic,
{
    lemma_auto_spec_u64_to_from_le_bytes();
    let b = footer_bytes(f);
    let a0 = spec_u64_to_le_bytes(f.index_offset);
    let a1 = spec_u64_to_le_bytes(f.index_length);
    let a2 = spec_u64_to_le_bytes(f.bloom_offset);
    let a3 = spec_u64_to_le_bytes(f.bloom_length);
    let a4 = spec_u64_to_le_bytes(f.magic);
    assert(a0.len() == 8 && a1.len() == 8 && a2.len() == 8 && a3.len() == 8 && a4.len() == 8);
    assert(b.subrange(0, 8) =~= a0);
    assert(b.subrange(8, 16) =~= a1);
    assert(b.subrange(16, 24) =~= a2);
    assert(b.subrange(24, 32) =~= a3);
    assert(b.subrange(32, 40) =~= a4);
}

/// Parsing the bytes of a footer returns the footer when it carries the
/// magic number, and rejects it as malformed when it carries any other.
pub proof fn lemma_footer_round_trip(f: Footer)
    ensures
        f.magic == SSTABLE_MAGIC ==> parse_footer(footer_bytes(f)) == Ok::<Footer, Seq<char>>(f),
        f.magic != SSTABLE_MAGIC ==> parse_footer(footer_bytes(f)) == Err::<Footer, Seq<char>>(
            bad_magic_text(f.magic),
        ),
{
    lemma_footer_fields(f);
}

impl Footer {
    /// Creates a new footer, which carries the magic number.
    pub fn new(index_offset: u64, index_length: u64, bloom_offset: u64, bloom_length: u64) -> (f:
        Self)
        ensures
            f == (Footer {
                index_offset,
                index_length,
                bloom_offset,
                bloom_length,
                magic: SSTABLE_MAGIC,
            }),
    {
        Footer { index_offset, index_length, bloom_offset, bloom_length, magic: SSTABLE_MAGIC }
    }

    /// Serializes the footer.
    pub fn to_bytes(&self) -> (bytes: [u8; 40])
        ensures
            bytes@ == footer_bytes(*self),
    {
        let mut image: Vec<u8> = Vec::new();
        crate::codec::put_u64_le(&mut image, self.index_offset);
        crate::codec::put_u64_le(&mut image, self.index_length);
        crate::codec::put_u64_le(&mut image, self.bloom_offset);
        crate::codec::put_u64_le(&mut image, self.bloom_length);
        crate::codec::put_u64_le(&mut image, self.magic);
        proof {
            lemma_footer_fields(*self);
            assert(image@ =~= footer_bytes(*self));
        }
        let mut bytes = [0u8; 40];
        let mut i: usize = 0;
        while i < 40
            invariant
                i <= 40,
                image@.len() == 40,
                forall|j: int| 0 <= j < i ==> bytes@[j] == image@[j],
            decreases 40 - i,
        {
            bytes[i] = image[i];
            i += 1;
        }
        proof {
            assert(bytes@ =~= image@);
        }
        bytes
    }

    /// Deserializes a footer. The input must hold exactly forty bytes and
    /// carry the magic number; anything else is rejected as an invalid
    /// format.
    pub fn from_bytes(bytes: &[u8]) -> (r: Result<Self>)
        ensures
            match r {
                Ok(f) => parse_footer(bytes@) == Ok::<Footer, Seq<char>>(f),
                Err(Error::InvalidFormat(msg)) => parse_footer(bytes@) == Err::<Footer, Seq<char>>(
                    msg@,
                ),
                Err(_) => false,
            },
    {
        if bytes.len() != FOOTER_SIZE {
            return Err(Error::InvalidFormat(String::from_str("Invalid footer size")));
        }
        let index_offset = read_u64_le(bytes, 0);
        let index_length = read_u64_le(bytes, 8);
        let bloom_offset = read_u64_le(bytes, 16);
        let bloom_length = read_u64_le(bytes, 24);
        let magic = read_u64_le(bytes, 32);
        if magic != SSTABLE_MAGIC {
            let mut msg = String::from_str("Invalid magic number: expected ");
            let expected = decimal(SSTABLE_MAGIC);
            msg.append(expected.as_str());
            msg.append(", got ");
            let found = decimal(magic);
            msg.append(found.as_str());
            return Err(Error::InvalidFormat(msg));
        }
        Ok(Footer { index_offset, index_length, bloom_offset, bloom_length, magic })
    }
}

} // verus!
