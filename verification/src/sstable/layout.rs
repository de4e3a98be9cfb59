//! The byte layout of a table file, as mathematical functions: what the
//! writer emits for entries, blocks, the index and the whole file, and what
//! a reader obtains from bytes.

use vstd::bytes::*;
use vstd::prelude::*;

use crate::codec::{le_u32_at, le_u64_at, low_u32};
use crate::memtable::model::Entry;
use crate::sstable::{footer_bytes, Footer, IndexRecord, SSTABLE_MAGIC};
use crate::types::Operation;

verus! {

/// Size of the bloom region that the writer emits.
pub const BLOOM_SIZE: usize = 16;

/// The byte that stands for an operation in a table entry.
pub open spec fn sst_op_byte(op: Operation) -> u8 {
    match op {
        Operation::Put => 0,
        Operation::Delete => 1,
    }
}

/// The bytes of one entry.
pub open spec fn entry_bytes(e: Entry) -> Seq<u8> {
    spec_u32_to_le_bytes(low_u32(e.user_key.len() as int)) + spec_u32_to_le_bytes(
        low_u32(e.value.len() as int),
    ) + spec_u64_to_le_bytes(e.timestamp) + seq![sst_op_byte(e.operation)] + e.user_key + e.value
}

/// The number of bytes of one entry.
pub open spec fn entry_size(e: Entry) -> nat {
    17 + e.user_key.len() + e.value.len()
}

/// The bytes of a run of entries, one after another.
pub open spec fn entries_bytes(es: Seq<Entry>) -> Seq<u8>
    decreases es.len(),
{
    if es.len() == 0 {
        Seq::<u8>::empty()
    } else {
        entries_bytes(es.drop_last()) + entry_bytes(es.last())
    }
}

/// The bytes of a data block: entry count, entries, reserved checksum.
pub open spec fn block_bytes(es: Seq<Entry>) -> Seq<u8> {
    spec_u32_to_le_bytes(low_u32(es.len() as int)) + entries_bytes(es) + spec_u32_to_le_bytes(0)
}

/// The bytes of a run of data blocks.
pub open spec fn blocks_bytes(blocks: Seq<Seq<Entry>>) -> Seq<u8>
    decreases blocks.len(),
{
    if blocks.len() == 0 {
        Seq::<u8>::empty()
    } else {
        blocks_bytes(blocks.drop_last()) + block_bytes(blocks.last())
    }
}

/// The bytes of one index entry.
pub open spec fn index_entry_bytes(r: IndexRecord) -> Seq<u8> {
    spec_u64_to_le_bytes(r.block_offset) + spec_u32_to_le_bytes(low_u32(r.first_key.len() as int))
        + r.first_key
}

/// The bytes of a run of index entries.
pub open spec fn index_entries_bytes(rs: Seq<IndexRecord>) -> Seq<u8>
    decreases rs.len(),
{
    if rs.len() == 0 {
        Seq::<u8>::empty()
    } else {
        index_entries_bytes(rs.drop_last()) + index_entry_bytes(rs.last())
    }
}

/// The bytes of the index block: entry count, entries, reserved checksum.
pub open spec fn index_bytes(rs: Seq<IndexRecord>) -> Seq<u8> {
    spec_u32_to_le_bytes(low_u32(rs.len() as int)) + index_entries_bytes(rs)
        + spec_u32_to_le_bytes(0)
}

/// The bytes of the bloom region: an empty bit array of eight bytes, a hash
/// count of zero and a reserved checksum.
pub open spec fn bloom_bytes() -> Seq<u8> {
    Seq::new(8, |i: int| 0u8) + spec_u32_to_le_bytes(0) + spec_u32_to_le_bytes(0)
}

/// The index of a run of non-empty blocks: for each block the offset at
/// which it starts and the user key of its first entry.
pub open spec fn index_of(blocks: Seq<Seq<Entry>>) -> Seq<IndexRecord> {
    Seq::new(
        blocks.len(),
        |i: int|
            IndexRecord {
                block_offset: blocks_bytes(blocks.take(i)).len() as u64,
                first_key: blocks[i][0].user_key,
            },
    )
}

/// The footer of the table made of `blocks`.
pub open spec fn footer_of(blocks: Seq<Seq<Entry>>) -> Footer {
    let data = blocks_bytes(blocks);
    let index = index_bytes(index_of(blocks));
    Footer {
        index_offset: data.len() as u64,
        index_length: index.len() as u64,
        bloom_offset: (data.len() + index.len()) as u64,
        bloom_length: BLOOM_SIZE as u64,
        magic: SSTABLE_MAGIC,
    }
}

/// The bytes of the table file made of `blocks`.
pub open spec fn table_bytes(blocks: Seq<Seq<Entry>>) -> Seq<u8> {
    blocks_bytes(blocks) + index_bytes(index_of(blocks)) + bloom_bytes() + footer_bytes(
        footer_of(blocks),
    )
}

/// All entries of a run of blocks, in order.
pub open spec fn flatten(blocks: Seq<Seq<Entry>>) -> Seq<Entry>
    decreases blocks.len(),
{
    if blocks.len() == 0 {
        Seq::<Entry>::empty()
    } else {
        flatten(blocks.drop_last()) + blocks.last()
    }
}

/// Why reading from a table file fails.
#[derive(Debug, Clone, Copy, PartialEq, Eq)]
pub enum ReadError {
    /// The file ends before the bytes that were asked for.
    UnexpectedEof,
    /// An entry carries an operation byte that stands for no operation.
    InvalidOperation(u8),
}

/// What reading one entry at `pos` yields: the entry and the position after
/// it.
pub open spec fn parse_entry(data: Seq<u8>, pos: int) -> core::result::Result<
    (Entry, int),
    ReadError,
> {
    if pos < 0 || pos + 17 > data.len() {
        Err(ReadError::UnexpectedEof)
    } else if data[pos + 16] > 1 {
        Err(ReadError::InvalidOperation(data[pos + 16]))
    } else {
        let k = le_u32_at(data, pos) as int;
        let v = le_u32_at(data, pos + 4) as int;
        if pos + 17 + k + v > data.len() {
            Err(ReadError::UnexpectedEof)
        } else {
            Ok(
                (
                    Entry {
                        user_key: data.subrange(pos + 17, pos + 17 + k),
                        timestamp: le_u64_at(data, pos + 8),
                        operation: if data[pos + 16] == 0 {
                            Operation::Put
                        } else {
                            Operation::Delete
                        },
                        value: data.subrange(pos + 17 + k, pos + 17 + k + v),
                    },
                    pos + 17 + k + v,
                ),
            )
        }
    }
}

/// What reading `count` entries from `pos` yields: the entries and the
/// position after them, or the failure of the first entry that fails.
pub open spec fn parse_entries(data: Seq<u8>, pos: int, count: nat) -> core::result::Result<
    (Seq<Entry>, int),
    ReadError,
>
    decreases count,
{
    if count == 0 {
        Ok((Seq::<Entry>::empty(), pos))
    } else {
        match parse_entries(data, pos, (count - 1) as nat) {
            Err(e) => Err(e),
            Ok((es, p)) => match parse_entry(data, p) {
                Err(e) => Err(e),
                Ok((e, q)) => Ok((es.push(e), q)),
            },
        }
    }
}

/// What reading the data block at `pos` yields.
pub open spec fn parse_block(data: Seq<u8>, pos: int) -> core::result::Result<
    Seq<Entry>,
    ReadError,
> {
    if pos < 0 || pos + 4 > data.len() {
        Err(ReadError::UnexpectedEof)
    } else {
        match parse_entries(data, pos + 4, le_u32_at(data, pos) as nat) {
            Err(e) => Err(e),
            Ok((es, q)) => if q + 4 > data.len() {
                Err(ReadError::UnexpectedEof)
            } else {
                Ok(es)
            },
        }
    }
}

/// What reading one index entry at `pos` yields.
pub open spec fn parse_index_entry(data: Seq<u8>, pos: int) -> core::result::Result<
    (IndexRecord, int),
    ReadError,
> {
    if pos < 0 || pos + 12 > data.len() {
        Err(ReadError::UnexpectedEof)
    } else {
        let k = le_u32_at(data, pos + 8) as int;
        if pos + 12 + k > data.len() {
            Err(ReadError::UnexpectedEof)
        } else {
            Ok(
                (
                    IndexRecord {
                        block_offset: le_u64_at(data, pos),
                        first_key: data.subrange(pos + 12, pos + 12 + k),
                    },
                    pos + 12 + k,
                ),
            )
        }
    }
}

/// What reading `count` index entries from `pos` yields.
pub open spec fn parse_index_entries(data: Seq<u8>, pos: int, count: nat) -> core::result::Result<
    (Seq<IndexRecord>, int),
    ReadError,
>
    decreases count,
{
    if count == 0 {
        Ok((Seq::<IndexRecord>::empty(), pos))
    } else {
        match parse_index_entries(data, pos, (count - 1) as nat) {
            Err(e) => Err(e),
            Ok((rs, p)) => match parse_index_entry(data, p) {
                Err(e) => Err(e),
                Ok((r, q)) => Ok((rs.push(r), q)),
            },
        }
    }
}

/// What reading the index block at `pos` yields.
pub open spec fn parse_index(data: Seq<u8>, pos: int) -> core::result::Result<
    Seq<IndexRecord>,
    ReadError,
> {
    if pos < 0 || pos + 4 > data.len() {
        Err(ReadError::UnexpectedEof)
    } else {
        match parse_index_entries(data, pos + 4, le_u32_at(data, pos) as nat) {
            Err(e) => Err(e),
            Ok((rs, q)) => if q + 4 > data.len() {
                Err(ReadError::UnexpectedEof)
            } else {
                Ok(rs)
            },
        }
    }
}

} // verus!
