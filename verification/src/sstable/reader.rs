//! The table reader: opens the bytes of a table file, looks keys up in the
//! block that the index selects, and streams entries in file order.

use std::collections::BTreeMap;
use vstd::prelude::*;
use vstd::slice::*;
use vstd::string::*;

use crate::bytes::{
    compare_bytes, copy_bytes, lemma_lex_asymmetric, lemma_lex_irreflexive, lemma_lex_total,
    lemma_lex_transitive, lex_le, lex_lt, KeyOrder,
};
use crate::codec::{le_u32_at, read_u32_le, read_u64_le};
use crate::error::{Error, Result};
use crate::memtable::model::{entry_lt, has_key, readable, sorted, visible_at, Entry};
use crate::order::{compare_keys, key_lt, lemma_key_asymmetric, lemma_key_transitive};
use crate::sstable::{
    entries_view, index_view, parse_footer, FOOTER_SIZE, Footer, IndexEntry, IndexRecord,
    InternalKey, SSTableEntry,
};
use crate::sstable::layout::{
    parse_block, parse_entries, parse_entry, parse_index, parse_index_entries, parse_index_entry,
    ReadError,
};
use crate::text::{decimal, decimal_digits};
use crate::types::{Key, Operation, Timestamp, Value};

verus! {

/// The error `err` reports the read failure `why`.
pub open spec fn read_failure(err: Error, why: ReadError) -> bool {
    match why {
        ReadError::UnexpectedEof => err matches Error::Io(msg) && msg@
            == "failed to fill whole buffer"@,
        ReadError::InvalidOperation(b) => err matches Error::InvalidFormat(msg) && msg@
            == "Invalid operation byte: "@ + decimal_digits(b as nat),
    }
}

/// The error that reports a read failure: an end of file is an input
/// failure, a bad operation byte an invalid format.
fn failure_error(why: &ReadError) -> (err: Error)
    ensures
        read_failure(err, *why),
{
    match why {
        ReadError::UnexpectedEof => Error::Io(String::from_str("failed to fill whole buffer")),
        ReadError::InvalidOperation(b) => {
            let mut msg = String::from_str("Invalid operation byte: ");
            let digits = decimal(*b as u64);
            msg.append(digits.as_str());
            Error::InvalidFormat(msg)
        },
    }
}

/// Once an entry fails to parse, every longer run of entries fails in the
/// same way.
proof fn lemma_parse_entries_fails(data: Seq<u8>, pos: int, done: nat, count: nat)
    requires
        done < count,
        parse_entries(data, pos, done) is Ok,
        parse_entry(data, parse_entries(data, pos, done)->Ok_0.1) is Err,
    ensures
        parse_entries(data, pos, count) == Err::<(Seq<Entry>, int), ReadError>(
            parse_entry(data, parse_entries(data, pos, done)->Ok_0.1)->Err_0,
        ),
    decreases count,
{
    if count - 1 > done {
        lemma_parse_entries_fails(data, pos, done, (count - 1) as nat);
    }
}

/// Once an index entry fails to parse, every longer run of index entries
/// fails in the same way.
proof fn lemma_parse_index_entries_fails(data: Seq<u8>, pos: int, done: nat, count: nat)
    requires
        done < count,
        parse_index_entries(data, pos, done) is Ok,
        parse_index_entry(data, parse_index_entries(data, pos, done)->Ok_0.1) is Err,
    ensures
        parse_index_entries(data, pos, count) == Err::<(Seq<IndexRecord>, int), ReadError>(
            parse_index_entry(data, parse_index_entries(data, pos, done)->Ok_0.1)->Err_0,
        ),
    decreases count,
{
    if count - 1 > done {
        lemma_parse_index_entries_fails(data, pos, done, (count - 1) as nat);
    }
}

/// Reads one entry at `pos` and returns it with the position after it.
fn read_entry(data: &[u8], pos: usize) -> (r: core::result::Result<(SSTableEntry, usize),
    ReadError>)
    ensures
        match parse_entry(data@, pos as int) {
            Ok((e, q)) => r matches Ok((entry, next)) && entry@ == e && next == q,
            Err(why) => r matches Err(e) && e == why,
        },
{
    let n = data.len();
    if n < pos || n - pos < 17 {
        return Err(ReadError::UnexpectedEof);
    }
    let key_len = read_u32_le(data, pos);
    let value_len = read_u32_le(data, pos + 4);
    let timestamp = read_u64_le(data, pos + 8);
    let op = data[pos + 16];
    if op > 1 {
        return Err(ReadError::InvalidOperation(op));
    }
    let operation = if op == 0 {
        Operation::Put
    } else {
        Operation::Delete
    };
    let rest = n - pos - 17;
    if key_len as u64 + value_len as u64 > rest as u64 {
        return Err(ReadError::UnexpectedEof);
    }
    let key_start = pos + 17;
    let value_start = key_start + key_len as usize;
    let end = value_start + value_len as usize;
    let user_key = copy_bytes(slice_subrange(data, key_start, value_start));
    let value = copy_bytes(slice_subrange(data, value_start, end));
    Ok((SSTableEntry::new(InternalKey::new(user_key, timestamp), value, operation), end))
}

/// Reads the data block at `offset`.
fn read_block(data: &[u8], offset: u64) -> (r: core::result::Result<Vec<SSTableEntry>, ReadError>)
    ensures
        match parse_block(data@, offset as int) {
            Ok(es) => r matches Ok(entries) && entries_view(entries@) == es,
            Err(why) => r matches Err(e) && e == why,
        },
{
    let n = data.len();
    if offset > n as u64 || n - (offset as usize) < 4 {
        return Err(ReadError::UnexpectedEof);
    }
    let start = offset as usize;
    let count = read_u32_le(data, start);
    let mut entries: Vec<SSTableEntry> = Vec::new();
    let mut pos: usize = start + 4;
    let mut i: u32 = 0;
    proof {
        assert(entries_view(entries@) =~= Seq::<Entry>::empty());
    }
    while i < count
        invariant
            i <= count,
            n == data@.len(),
            pos <= n,
            start == offset,
            start + 4 <= n,
            count == le_u32_at(data@, start as int),
            parse_entries(data@, start + 4, i as nat) == Ok::<(Seq<Entry>, int), ReadError>(
                (entries_view(entries@), pos as int),
            ),
        decreases count - i,
    {
        match read_entry(data, pos) {
            Ok((entry, next)) => {
                proof {
                    assert(entries_view(entries@.push(entry)) =~= entries_view(entries@).push(
                        entry@,
                    ));
                }
                entries.push(entry);
                pos = next;
            },
            Err(err) => {
                proof {
                    lemma_parse_entries_fails(data@, start + 4, i as nat, count as nat);
                }
                return Err(err);
            },
        }
        i += 1;
    }
    if n - pos < 4 {
        return Err(ReadError::UnexpectedEof);
    }
    Ok(entries)
}

/// Reads one index entry at `pos` and returns it with the position after
/// it.
fn read_index_entry(data: &[u8], pos: usize) -> (r: core::result::Result<(IndexEntry, usize),
    ReadError>)
    ensures
        match parse_index_entry(data@, pos as int) {
            Ok((e, q)) => r matches Ok((entry, next)) && entry@ == e && next == q,
            Err(why) => r matches Err(e) && e == why,
        },
{
    let n = data.len();
    if n < pos || n - pos < 12 {
        return Err(ReadError::UnexpectedEof);
    }
    let block_offset = read_u64_le(data, pos);
    let key_len = read_u32_le(data, pos + 8);
    let rest = n - pos - 12;
    if key_len as u64 > rest as u64 {
        return Err(ReadError::UnexpectedEof);
    }
    let key_start = pos + 12;
    let end = key_start + key_len as usize;
    let first_key = copy_bytes(slice_subrange(data, key_start, end));
    Ok((IndexEntry::new(block_offset, first_key), end))
}

/// Reads the index block that the footer locates. The reserved checksum
/// after the entries is read and not checked.
fn read_index(data: &[u8], footer: &Footer) -> (r: core::result::Result<Vec<IndexEntry>, ReadError>)
    ensures
        match parse_index(data@, footer.index_offset as int) {
            Ok(rs) => r matches Ok(index) && index_view(index@) == rs,
            Err(why) => r matches Err(e) && e == why,
        },
{
    let n = data.len();
    let offset = footer.index_offset;
    if offset > n as u64 || n - (offset as usize) < 4 {
        return Err(ReadError::UnexpectedEof);
    }
    let start = offset as usize;
    let count = read_u32_le(data, start);
    let mut index: Vec<IndexEntry> = Vec::new();
    let mut pos: usize = start + 4;
    let mut i: u32 = 0;
    proof {
        assert(index_view(index@) =~= Seq::<IndexRecord>::empty());
    }
    while i < count
        invariant
            i <= count,
            n == data@.len(),
            pos <= n,
            start == offset,
            offset == footer.index_offset,
            start + 4 <= n,
            count == le_u32_at(data@, start as int),
            parse_index_entries(data@, start + 4, i as nat) == Ok::<
                (Seq<IndexRecord>, int),
                ReadError,
            >((index_view(index@), pos as int)),
        decreases count - i,
    {
        match read_index_entry(data, pos) {
            Ok((entry, next)) => {
                proof {
                    assert(index_view(index@.push(entry)) =~= index_view(index@).push(entry@));
                }
                index.push(entry);
                pos = next;
            },
            Err(err) => {
                proof {
                    lemma_parse_index_entries_fails(data@, start + 4, i as nat, count as nat);
                }
                return Err(err);
            },
        }
        i += 1;
    }
    if n - pos < 4 {
        return Err(ReadError::UnexpectedEof);
    }
    Ok(index)
}

/// What reading the footer from the end of a file yields.
pub open spec fn parse_trailer(data: Seq<u8>) -> core::result::Result<Footer, Seq<char>> {
    if data.len() < FOOTER_SIZE {
        Err("File too small to contain footer"@)
    } else {
        parse_footer(data.subrange(data.len() - FOOTER_SIZE, data.len() as int))
    }
}

/// Reads the footer from the last forty bytes of the file.
fn read_footer(data: &[u8]) -> (r: Result<Footer>)
    ensures
        match r {
            Ok(f) => parse_trailer(data@) == Ok::<Footer, Seq<char>>(f),
            Err(Error::InvalidFormat(msg)) => parse_trailer(data@) == Err::<Footer, Seq<char>>(
                msg@,
            ),
            Err(_) => false,
        },
{
    let n = data.len();
    if n < FOOTER_SIZE {
        return Err(Error::InvalidFormat(String::from_str("File too small to contain footer")));
    }
    Footer::from_bytes(slice_subrange(data, n - FOOTER_SIZE, n))
}

/// The block that the index selects for the user key `k` among its first
/// `n` entries: the last one whose first key is not above `k`, or the first
/// block when there is none.
pub open spec fn block_for(index: Seq<IndexRecord>, k: Seq<u8>, n: nat) -> int
    decreases n,
{
    if n == 0 {
        0
    } else if lex_le(index[n - 1].first_key, k) {
        n - 1
    } else {
        block_for(index, k, (n - 1) as nat)
    }
}

/// `found` is what a lookup of exactly `(k, ts)` returns from the block
/// `es`: a value of an entry with that user key and version, or nothing. In
/// a sorted block nothing is returned only when no such entry exists.
pub open spec fn exact_hit(es: Seq<Entry>, k: Seq<u8>, ts: u64, found: Option<Value>) -> bool {
    match found {
        Some(value) => exists|i: int|
            0 <= i < es.len() && (#[trigger] es[i]).user_key == k && es[i].timestamp == ts
                && es[i].value == value@,
        None => sorted(es) ==> !has_key(es, k, ts),
    }
}

/// `found` is what a lookup of the latest version of `k` not above `cap`
/// returns from the block `es`. In a sorted block the entry returned is the
/// visible one, and nothing is returned only when no version is readable.
pub open spec fn latest_hit(
    es: Seq<Entry>,
    k: Seq<u8>,
    cap: u64,
    found: Option<(Value, Timestamp, Operation)>,
) -> bool {
    match found {
        Some((value, timestamp, operation)) => exists|i: int| #[trigger]
            readable(es, i, k, cap) && es[i].timestamp == timestamp && es[i].value == value@
                && es[i].operation == operation && (sorted(es) ==> visible_at(es, i, k, cap)),
        None => sorted(es) ==> forall|i: int| !#[trigger] readable(es, i, k, cap),
    }
}

/// A stream of entries, which may end in a read failure.
pub struct Stream {
    pub items: Seq<Entry>,
    pub failure: Option<ReadError>,
}

/// The user key `k` lies below the lower bound `start`, if there is one.
pub open spec fn below(k: Seq<u8>, start: Option<Seq<u8>>) -> bool {
    start matches Some(s) && lex_lt(k, s)
}

/// The user key `k` has reached the upper bound `end`, if there is one.
pub open spec fn reached(k: Seq<u8>, end: Option<Seq<u8>>) -> bool {
    end matches Some(e) && !lex_lt(k, e)
}

/// What a bounded walk yields from the entries of `b` from position `i`
/// on: entries below the lower bound are passed over, and the walk stops at
/// the first other entry that has reached the upper bound. The boolean
/// tells whether it stopped.
pub open spec fn take_range(
    b: Seq<Entry>,
    i: int,
    start: Option<Seq<u8>>,
    end: Option<Seq<u8>>,
) -> (Seq<Entry>, bool)
    decreases b.len() - i,
{
    if i < 0 || i >= b.len() {
        (Seq::<Entry>::empty(), false)
    } else if below(b[i].user_key, start) {
        take_range(b, i + 1, start, end)
    } else if reached(b[i].user_key, end) {
        (Seq::<Entry>::empty(), true)
    } else {
        let rest = take_range(b, i + 1, start, end);
        (seq![b[i]] + rest.0, rest.1)
    }
}

/// What a bounded walk over the blocks from position `pos` of the index on
/// yields: the entries of each block in turn, until the walk stops at the
/// upper bound, a block fails to read, or the blocks end.
pub open spec fn stream_from(
    data: Seq<u8>,
    index: Seq<IndexRecord>,
    pos: int,
    start: Option<Seq<u8>>,
    end: Option<Seq<u8>>,
) -> Stream
    decreases index.len() - pos,
{
    if pos < 0 || pos >= index.len() {
        Stream { items: Seq::<Entry>::empty(), failure: None }
    } else {
        match parse_block(data, index[pos].block_offset as int) {
            Err(why) => Stream { items: Seq::<Entry>::empty(), failure: Some(why) },
            Ok(b) => {
                let taken = take_range(b, 0, start, end);
                if taken.1 {
                    Stream { items: taken.0, failure: None }
                } else {
                    let rest = stream_from(data, index, pos + 1, start, end);
                    Stream { items: taken.0 + rest.items, failure: rest.failure }
                }
            },
        }
    }
}

/// The bound that an optional key stands for.
pub open spec fn bound_of(key: Option<&Key>) -> Option<Seq<u8>> {
    match key {
        Some(k) => Some(k@),
        None => None,
    }
}

/// Searches a block for the entry with exactly the given user key and
/// version, by bisection in internal-key order.
fn search_exact(entries: &Vec<SSTableEntry>, user_key: &[u8], timestamp: Timestamp) -> (r: Option<
    usize,
>)
    ensures
        match r {
            Some(i) => i < entries@.len() && entries@[i as int]@.user_key == user_key@
                && entries@[i as int]@.timestamp == timestamp,
            None => sorted(entries_view(entries@)) ==> !has_key(
                entries_view(entries@),
                user_key@,
                timestamp,
            ),
        },
{
    let ghost es = entries_view(entries@);
    let ghost k = user_key@;
    let mut lo: usize = 0;
    let mut hi: usize = entries.len();
    while lo < hi
        invariant
            lo <= hi <= entries@.len(),
            es == entries_view(entries@),
            k == user_key@,
            sorted(es) ==> forall|i: int|
                0 <= i < lo ==> key_lt(#[trigger] es[i].user_key, es[i].timestamp, k, timestamp),
            sorted(es) ==> forall|i: int|
                hi <= i < es.len() ==> key_lt(k, timestamp, #[trigger] es[i].user_key,
                    es[i].timestamp),
        decreases hi - lo,
    {
        let mid = lo + (hi - lo) / 2;
        let entry = &entries[mid];
        proof {
            assert(es[mid as int] == entry@);
        }
        match compare_keys(
            entry.key.user_key.as_slice(),
            entry.key.timestamp,
            user_key,
            timestamp,
        ) {
            KeyOrder::Equal => {
                return Some(mid);
            },
            KeyOrder::Less => {
                proof {
                    if sorted(es) {
                        assert forall|i: int| 0 <= i < mid + 1 implies key_lt(
                            #[trigger] es[i].user_key,
                            es[i].timestamp,
                            k,
                            timestamp,
                        ) by {
                            if i < mid {
                                assert(entry_lt(es[i], es[mid as int]));
                                lemma_key_transitive(
                                    es[i].user_key,
                                    es[i].timestamp,
                                    es[mid as int].user_key,
                                    es[mid as int].timestamp,
                                    k,
                                    timestamp,
                                );
                            }
                        }
                    }
                }
                lo = mid + 1;
            },
            KeyOrder::Greater => {
                proof {
                    if sorted(es) {
                        assert forall|i: int| mid <= i < es.len() implies key_lt(
                            k,
                            timestamp,
                            #[trigger] es[i].user_key,
                            es[i].timestamp,
                        ) by {
                            if i > mid {
                                assert(entry_lt(es[mid as int], es[i]));
                                lemma_key_transitive(
                                    k,
                                    timestamp,
                                    es[mid as int].user_key,
                                    es[mid as int].timestamp,
                                    es[i].user_key,
                                    es[i].timestamp,
                                );
                            }
                        }
                    }
                }
                hi = mid;
            },
        }
    }
    proof {
        if sorted(es) {
            assert forall|i: int| 0 <= i < es.len() implies !((#[trigger] es[i]).user_key == k
                && es[i].timestamp == timestamp) by {
                if i < lo {
                    lemma_key_asymmetric(es[i].user_key, es[i].timestamp, k, timestamp);
                } else {
                    lemma_key_asymmetric(k, timestamp, es[i].user_key, es[i].timestamp);
                }
            }
        }
    }
    None
}

/// Finds, by bisection, the first position of a block whose user key is
/// not below `user_key`.
fn first_not_below(entries: &Vec<SSTableEntry>, user_key: &[u8]) -> (p: usize)
    ensures
        p <= entries@.len(),
        sorted(entries_view(entries@)) ==> {
            &&& forall|i: int| 0 <= i < p ==> lex_lt((#[trigger] entries@[i])@.user_key, user_key@)
            &&& forall|i: int|
                p <= i < entries@.len() ==> !lex_lt((#[trigger] entries@[i])@.user_key, user_key@)
        },
{
    let ghost es = entries_view(entries@);
    let ghost k = user_key@;
    let mut lo: usize = 0;
    let mut hi: usize = entries.len();
    while lo < hi
        invariant
            lo <= hi <= entries@.len(),
            es == entries_view(entries@),
            k == user_key@,
            sorted(es) ==> forall|i: int| 0 <= i < lo ==>
                lex_lt((#[trigger] entries@[i])@.user_key, k),
            sorted(es) ==> forall|i: int|
                hi <= i < entries@.len() ==> !lex_lt((#[trigger] entries@[i])@.user_key, k),
        decreases hi - lo,
    {
        let mid = lo + (hi - lo) / 2;
        let entry = &entries[mid];
        match compare_bytes(entry.key.user_key.as_slice(), user_key) {
            KeyOrder::Less => {
                proof {
                    if sorted(es) {
                        assert forall|i: int| 0 <= i < mid + 1 implies lex_lt(
                            (#[trigger] entries@[i])@.user_key,
                            k,
                        ) by {
                            if i < mid {
                                assert(entry_lt(es[i], es[mid as int]));
                                if lex_lt(es[i].user_key, es[mid as int].user_key) {
                                    lemma_lex_transitive(
                                        es[i].user_key,
                                        es[mid as int].user_key,
                                        k,
                                    );
                                }
                            }
                        }
                    }
                }
                lo = mid + 1;
            },
            _ => {
                proof {
                    if sorted(es) {
                        assert forall|i: int| mid <= i < entries@.len() implies !lex_lt(
                            (#[trigger] entries@[i])@.user_key,
                            k,
                        ) by {
                            if i > mid {
                                assert(entry_lt(es[mid as int], es[i]));
                                if lex_lt(es[i].user_key, k) {
                                    if lex_lt(es[mid as int].user_key, es[i].user_key) {
                                        lemma_lex_transitive(
                                            es[mid as int].user_key,
                                            es[i].user_key,
                                            k,
                                        );
                                    }
                                }
                            }
                        }
                    }
                }
                hi = mid;
            },
        }
    }
    lo
}

/// What is known of an open table.
#[derive(Debug, Clone)]
pub struct SSTableReaderInfo {
    /// Number of index entries, which is the number of data blocks.
    pub index_entries: usize,
    /// The footer of the file.
    pub footer: Footer,
}

/// A reader over the bytes of a table file.
#[derive(Debug)]
pub struct SSTableReader {
    data: Vec<u8>,
    footer: Footer,
    index: Vec<IndexEntry>,
    block_cache: BTreeMap<u64, Vec<SSTableEntry>>,
}

impl SSTableReader {
    /// The bytes of the file.
    pub closed spec fn image(&self) -> Seq<u8> {
        self.data@
    }

    /// The index of the file.
    pub closed spec fn index(&self) -> Seq<IndexRecord> {
        index_view(self.index@)
    }

    /// The footer of the file.
    pub closed spec fn footer(&self) -> Footer {
        self.footer
    }

    /// The reader is well formed: footer and index are those of the file,
    /// and every cached block is what the file holds at its offset.
    pub closed spec fn wf(&self) -> bool {
        &&& parse_trailer(self.data@) == Ok::<Footer, Seq<char>>(self.footer)
        &&& parse_index(self.data@, self.footer.index_offset as int) == Ok::<
            Seq<IndexRecord>,
            ReadError,
        >(index_view(self.index@))
        &&& forall|off: u64| #[trigger]
            self.block_cache@.contains_key(off) ==> parse_block(self.data@, off as int) == Ok::<
                Seq<Entry>,
                ReadError,
            >(entries_view(self.block_cache@[off]@))
    }

    /// `other` reads the same file as this reader.
    pub open spec fn same_file(&self, other: &Self) -> bool {
        &&& self.image() == other.image()
        &&& self.index() == other.index()
        &&& self.footer() == other.footer()
    }

    /// Opens a table from the bytes of its file: reads the footer from the
    /// end, checks the magic number and reads the index block.
    pub fn open(data: Vec<u8>) -> (r: Result<Self>)
        ensures
            match parse_trailer(data@) {
                Err(msg) => r matches Err(Error::InvalidFormat(m)) && m@ == msg,
                Ok(f) => match parse_index(data@, f.index_offset as int) {
                    Err(why) => r matches Err(err) && read_failure(err, why),
                    Ok(rs) => r matches Ok(reader) && reader.wf() && reader.image() == data@
                        && reader.footer() == f && reader.index() == rs,
                },
            },
    {
        let footer = match read_footer(data.as_slice()) {
            Ok(f) => f,
            Err(err) => {
                return Err(err);
            },
        };
        let index = match read_index(data.as_slice(), &footer) {
            Ok(index) => index,
            Err(why) => {
                return Err(failure_error(&why));
            },
        };
        Ok(SSTableReader { data, footer, index, block_cache: BTreeMap::new() })
    }

    /// Returns what is known of the table.
    pub fn info(&self) -> (info: SSTableReaderInfo)
        ensures
            info.index_entries == self.index().len(),
            info.footer == self.footer(),
    {
        SSTableReaderInfo { index_entries: self.index.len(), footer: self.footer }
    }

    /// Finds the position in the index of the block that may hold
    /// `user_key`; `None` when the index is empty.
    fn find_block_index(&self, user_key: &[u8]) -> (r: Option<usize>)
        ensures
            match r {
                None => self.index().len() == 0,
                Some(p) => p < self.index().len() && p == block_for(
                    self.index(),
                    user_key@,
                    self.index().len(),
                ),
            },
    {
        if self.index.len() == 0 {
            return None;
        }
        let mut best: usize = 0;
        let mut i: usize = 0;
        while i < self.index.len()
            invariant
                i <= self.index@.len(),
                self.index@.len() > 0,
                best < self.index@.len(),
                best == block_for(index_view(self.index@), user_key@, i as nat),
            decreases self.index@.len() - i,
        {
            match compare_bytes(self.index[i].first_key.as_slice(), user_key) {
                KeyOrder::Greater => {
                    proof {
                        lemma_lex_asymmetric(user_key@, self.index@[i as int]@.first_key);
                    }
                },
                _ => {
                    best = i;
                },
            }
            i += 1;
        }
        Some(best)
    }

    /// Finds the offset of the block that may hold `user_key`.
    fn find_block_for_key(&self, user_key: &[u8]) -> (r: Option<u64>)
        ensures
            match r {
                None => self.index().len() == 0,
                Some(offset) => self.index().len() > 0 && offset == self.index()[block_for(
                    self.index(),
                    user_key@,
                    self.index().len(),
                )].block_offset,
            },
    {
        match self.find_block_index(user_key) {
            Some(p) => Some(self.index[p].block_offset),
            None => None,
        }
    }

    /// Makes sure that the block at `block_offset` is in the cache, reading
    /// it from the file when it is not.
    fn load_block(&mut self, block_offset: u64) -> (r: core::result::Result<(), ReadError>)
        requires
            old(self).wf(),
        ensures
            final(self).wf(),
            final(self).same_file(old(self)),
            match parse_block(old(self).image(), block_offset as int) {
                Ok(es) => r is Ok && final(self).block_cache@.contains_key(block_offset),
                Err(why) => r matches Err(e) && e == why,
            },
    {
        if !self.block_cache.contains_key(&block_offset) {
            match read_block(self.data.as_slice(), block_offset) {
                Ok(entries) => {
                    self.block_cache.insert(block_offset, entries);
                },
                Err(why) => {
                    return Err(why);
                },
            }
        }
        Ok(())
    }

    /// Looks up the value written for exactly `user_key` at `timestamp`, in
    /// the block that the index selects for the user key. A tombstone is
    /// found like any entry, with its empty value.
    pub fn get(&mut self, user_key: &Key, timestamp: Timestamp) -> (r: Result<Option<Value>>)
        requires
            old(self).wf(),
        ensures
            final(self).wf(),
            final(self).same_file(old(self)),
            if old(self).index().len() == 0 {
                r matches Ok(None)
            } else {
                let p = block_for(old(self).index(), user_key@, old(self).index().len());
                match parse_block(old(self).image(), old(self).index()[p].block_offset as int) {
                    Err(why) => r matches Err(err) && read_failure(err, why),
                    Ok(es) => r matches Ok(found) && exact_hit(es, user_key@, timestamp, found),
                }
            },
    {
        let block_offset = match self.find_block_for_key(user_key.as_slice()) {
            Some(offset) => offset,
            None => {
                return Ok(None);
            },
        };
        match self.load_block(block_offset) {
            Ok(()) => {},
            Err(why) => {
                return Err(failure_error(&why));
            },
        }
        match self.block_cache.get(&block_offset) {
            Some(entries) => {
                let ghost es = entries_view(entries@);
                match search_exact(entries, user_key.as_slice(), timestamp) {
                    Some(i) => {
                        let value = copy_bytes(entries[i].value.as_slice());
                        proof {
                            assert(es[i as int] == entries@[i as int]@);
                        }
                        Ok(Some(value))
                    },
                    None => Ok(None),
                }
            },
            None => Ok(None),
        }
    }

    /// Looks up the latest version of `user_key` not above `max_timestamp`,
    /// in the block that the index selects for the user key, and returns
    /// its value, version and operation.
    pub fn get_latest(&mut self, user_key: &Key, max_timestamp: Timestamp) -> (r: Result<
        Option<(Value, Timestamp, Operation)>,
    >)
        requires
            old(self).wf(),
        ensures
            final(self).wf(),
            final(self).same_file(old(self)),
            if old(self).index().len() == 0 {
                r matches Ok(None)
            } else {
                let p = block_for(old(self).index(), user_key@, old(self).index().len());
                match parse_block(old(self).image(), old(self).index()[p].block_offset as int) {
                    Err(why) => r matches Err(err) && read_failure(err, why),
                    Ok(es) => r matches Ok(found) && latest_hit(
                        es,
                        user_key@,
                        max_timestamp,
                        found,
                    ),
                }
            },
    {
        let block_offset = match self.find_block_for_key(user_key.as_slice()) {
            Some(offset) => offset,
            None => {
                return Ok(None);
            },
        };
        match self.load_block(block_offset) {
            Ok(()) => {},
            Err(why) => {
                return Err(failure_error(&why));
            },
        }
        match self.block_cache.get(&block_offset) {
            Some(entries) => Ok(latest_in_block(entries, user_key.as_slice(), max_timestamp)),
            None => Ok(None),
        }
    }
}

/// Finds in a block the first entry for `user_key`, from the first position
/// whose user key is not below it, with a version not above `cap`.
fn latest_in_block(entries: &Vec<SSTableEntry>, user_key: &[u8], cap: Timestamp) -> (found: Option<
    (Value, Timestamp, Operation),
>)
    ensures
        latest_hit(entries_view(entries@), user_key@, cap, found),
{
    let ghost es = entries_view(entries@);
    let ghost k = user_key@;
    let start = first_not_below(entries, user_key);
    let mut i: usize = start;
    while i < entries.len()
        invariant
            start <= i <= entries@.len(),
            es == entries_view(entries@),
            k == user_key@,
            sorted(es) ==> forall|j: int| 0 <= j < start ==>
                lex_lt((#[trigger] entries@[j])@.user_key, k),
            sorted(es) ==> forall|j: int|
                start <= j < entries@.len() ==> !lex_lt((#[trigger] entries@[j])@.user_key, k),
            forall|j: int| start <= j < i ==> (#[trigger] es[j]).user_key == k &&
                es[j].timestamp > cap,
        decreases entries@.len() - i,
    {
        let entry = &entries[i];
        proof {
            assert(es[i as int] == entry@);
        }
        match compare_bytes(entry.key.user_key.as_slice(), user_key) {
            KeyOrder::Equal => {
                if entry.key.timestamp <= cap {
                    let value = copy_bytes(entry.value.as_slice());
                    proof {
                        assert(readable(es, i as int, k, cap));
                        if sorted(es) {
                            assert forall|j: int| #[trigger] readable(es, j, k, cap) implies
                                es[j].timestamp
                                <= es[i as int].timestamp by {
                                lemma_lex_irreflexive(k);
                                if j < start {
                                    assert(lex_lt(entries@[j]@.user_key, k));
                                    assert(es[j] == entries@[j]@);
                                } else if j > i {
                                    assert(entry_lt(es[i as int], es[j]));
                                }
                            }
                        }
                    }
                    return Some((value, entry.key.timestamp, entry.operation));
                }
            },
            _ => {
                proof {
                    if sorted(es) {
                        assert forall|j: int| !#[trigger] readable(es, j, k, cap) by {
                            lemma_lex_irreflexive(k);
                            if 0 <= j < es.len() {
                                assert(es[j] == entries@[j]@);
                                if j < start {
                                    assert(lex_lt(entries@[j]@.user_key, k));
                                } else if j >= i {
                                    assert(!lex_lt(entries@[i as int]@.user_key, k));
                                    lemma_lex_total(es[i as int].user_key, k);
                                    if j > i {
                                        assert(entry_lt(es[i as int], es[j]));
                                        if lex_lt(es[i as int].user_key, es[j].user_key) {
                                            lemma_lex_transitive(
                                                k,
                                                es[i as int].user_key,
                                                es[j].user_key,
                                            );
                                        }
                                    }
                                }
                            }
                        }
                    }
                }
                return None;
            },
        }
        i += 1;
    }
    proof {
        if sorted(es) {
            assert forall|j: int| !#[trigger] readable(es, j, k, cap) by {
                lemma_lex_irreflexive(k);
                if 0 <= j < start {
                    assert(lex_lt(entries@[j]@.user_key, k));
                    assert(es[j] == entries@[j]@);
                }
            }
        }
    }
    None
}

/// A walk that has passed over the first `i` entries of a block and taken
/// `acc` from them yields `acc` followed by what the rest yields.
proof fn lemma_take_range_step(
    b: Seq<Entry>,
    i: int,
    start: Option<Seq<u8>>,
    end: Option<Seq<u8>>,
)
    requires
        0 <= i < b.len(),
    ensures
        below(b[i].user_key, start) ==> take_range(b, i, start, end) == take_range(
            b,
            i + 1,
            start,
            end,
        ),
        !below(b[i].user_key, start) && reached(b[i].user_key, end) ==> take_range(b, i, start, end)
            == (Seq::<Entry>::empty(), true),
        !below(b[i].user_key, start) && !reached(b[i].user_key, end) ==> take_range(
            b,
            i,
            start,
            end,
        ) == (seq![b[i]] + take_range(b, i + 1, start, end).0, take_range(b, i + 1, start, end).1),
{
}

/// An iterator over entries of a table, in file order. It yields the
/// entries that were read and then, if reading failed, the failure.
pub struct SSTableIterator {
    entries: Vec<SSTableEntry>,
    failure: Option<ReadError>,
    position: usize,
}

impl SSTableIterator {
    /// What the iterator has yet to yield.
    pub closed spec fn remaining(&self) -> Stream {
        Stream {
            items: entries_view(self.entries@).skip(self.position as int),
            failure: self.failure,
        }
    }

    /// The iterator is well formed.
    pub closed spec fn wf(&self) -> bool {
        self.position <= self.entries@.len()
    }

    /// Yields the next entry, as an owned copy. After the last entry a read
    /// failure, if there was one, is yielded at every call; otherwise the
    /// iterator is exhausted.
    pub fn next(&mut self) -> (r: Option<Result<SSTableEntry>>)
        requires
            old(self).wf(),
        ensures
            final(self).wf(),
            if old(self).remaining().items.len() > 0 {
                &&& r matches Some(Ok(entry)) && entry@ == old(self).remaining().items[0]
                &&& final(self).remaining() == (Stream {
                    items: old(self).remaining().items.skip(1),
                    failure: old(self).remaining().failure,
                })
            } else {
                &&& final(self).remaining() == old(self).remaining()
                &&& match old(self).remaining().failure {
                    Some(why) => r matches Some(Err(err)) && read_failure(err, why),
                    None => r is None,
                }
            },
    {
        if self.position < self.entries.len() {
            let entry = self.entries[self.position].duplicate();
            proof {
                let all = entries_view(self.entries@);
                assert(all.skip(self.position as int)[0] == all[self.position as int]);
                assert(all.skip(self.position as int + 1) =~= all.skip(self.position as int).skip(
                    1,
                ));
            }
            self.position = self.position + 1;
            Some(Ok(entry))
        } else {
            match &self.failure {
                Some(why) => Some(Err(failure_error(why))),
                None => None,
            }
        }
    }
}

impl SSTableReader {
    /// Walks the blocks from position `first` of the index on, within the
    /// bounds, and collects what the walk yields.
    fn collect(&self, first: usize, start_key: Option<&Key>, end_key: Option<&Key>) -> (it:
        SSTableIterator)
        requires
            self.wf(),
        ensures
            it.wf(),
            it.remaining() == stream_from(
                self.image(),
                self.index(),
                first as int,
                bound_of(start_key),
                bound_of(end_key),
            ),
    {
        let ghost data = self.data@;
        let ghost index = index_view(self.index@);
        let ghost start = bound_of(start_key);
        let ghost end = bound_of(end_key);
        let ghost goal = stream_from(data, index, first as int, start, end);
        let mut entries: Vec<SSTableEntry> = Vec::new();
        let mut failure: Option<ReadError> = None;
        let mut block: usize = first;
        let mut stopped = false;
        proof {
            assert(entries_view(entries@) =~= Seq::<Entry>::empty());
            assert(goal.items =~= entries_view(entries@) + goal.items);
        }
        while block < self.index.len() && !stopped
            invariant
                data == self.data@,
                index == index_view(self.index@),
                start == bound_of(start_key),
                end == bound_of(end_key),
                first <= block,
                stopped ==> goal == (Stream { items: entries_view(entries@), failure }),
                !stopped ==> failure is None && goal == (Stream {
                    items: entries_view(entries@) + stream_from(
                        data,
                        index,
                        block as int,
                        start,
                        end,
                    ).items,
                    failure: stream_from(data, index, block as int, start, end).failure,
                }),
            decreases self.index@.len() - block,
                    if stopped {
                        0int
                    } else {
                        1int
                    },
        {
            let ghost acc = entries_view(entries@);
            proof {
                assert(index[block as int] == self.index@[block as int]@);
            }
            match read_block(self.data.as_slice(), self.index[block].block_offset) {
                Err(why) => {
                    failure = Some(why);
                    stopped = true;
                    proof {
                        assert(acc + Seq::<Entry>::empty() =~= acc);
                    }
                },
                Ok(loaded) => {
                    let ghost b = entries_view(loaded@);
                    let mut i: usize = 0;
                    proof {
                        assert(acc + Seq::<Entry>::empty() =~= acc);
                    }
                    while i < loaded.len() && !stopped
                        invariant
                            i <= loaded@.len(),
                            b == entries_view(loaded@),
                            start == bound_of(start_key),
                            end == bound_of(end_key),
                            failure is None,
                            stopped ==> take_range(b, 0, start, end) == (
                                entries_view(entries@).skip(acc.len() as int),
                                true,
                            ),
                            !stopped ==> take_range(b, 0, start, end) == (
                                entries_view(entries@).skip(acc.len() as int) + take_range(
                                    b,
                                    i as int,
                                    start,
                                    end,
                                ).0,
                                take_range(b, i as int, start, end).1,
                            ),
                            entries_view(entries@).len() >= acc.len(),
                            entries_view(entries@).take(acc.len() as int) == acc,
                        decreases loaded@.len() - i,
                                if stopped {
                                    0int
                                } else {
                                    1int
                                },
                    {
                        let entry = &loaded[i];
                        let ghost taken = entries_view(entries@).skip(acc.len() as int);
                        proof {
                            assert(b[i as int] == entry@);
                            lemma_take_range_step(b, i as int, start, end);
                        }
                        let under = match start_key {
                            Some(s) => match compare_bytes(
                                entry.key.user_key.as_slice(),
                                s.as_slice(),
                            ) {
                                KeyOrder::Less => true,
                                _ => false,
                            },
                            None => false,
                        };
                        if under {
                            i += 1;
                        } else {
                            let over = match end_key {
                                Some(e) => match compare_bytes(
                                    entry.key.user_key.as_slice(),
                                    e.as_slice(),
                                ) {
                                    KeyOrder::Less => false,
                                    _ => true,
                                },
                                None => false,
                            };
                            if over {
                                stopped = true;
                                proof {
                                    assert(taken + Seq::<Entry>::empty() =~= taken);
                                }
                            } else {
                                let copy = entry.duplicate();
                                proof {
                                    let before = entries_view(entries@);
                                    let after = entries_view(entries@.push(copy));
                                    assert(after =~= before.push(copy@));
                                    assert(after.skip(acc.len() as int) =~= taken.push(
                                        b[i as int],
                                    ));
                                    assert(after.take(acc.len() as int) =~= acc);
                                    let rest = take_range(b, i + 1, start, end);
                                    assert(taken + (seq![b[i as int]] + rest.0) =~= taken.push(
                                        b[i as int],
                                    ) + rest.0);
                                }
                                entries.push(copy);
                                i += 1;
                            }
                        }
                    }
                    proof {
                        let all = entries_view(entries@);
                        let taken = all.skip(acc.len() as int);
                        assert(all =~= acc + taken);
                        if !stopped {
                            assert(taken + Seq::<Entry>::empty() =~= taken);
                            let rest = stream_from(data, index, block + 1, start, end);
                            assert(acc + (taken + rest.items) =~= all + rest.items);
                        }
                    }
                    if !stopped {
                        block += 1;
                    }
                },
            }
        }
        proof {
            if !stopped {
                assert(entries_view(entries@) + Seq::<Entry>::empty() =~= entries_view(entries@));
            }
            assert(entries_view(entries@).skip(0) =~= entries_view(entries@));
        }
        SSTableIterator { entries, failure, position: 0 }
    }

    /// Returns an iterator over every entry of the table, in file order.
    pub fn iter(&mut self) -> (r: Result<SSTableIterator>)
        requires
            old(self).wf(),
        ensures
            final(self).wf(),
            final(self).same_file(old(self)),
            r matches Ok(it) && it.wf() && it.remaining() == stream_from(
                old(self).image(),
                old(self).index(),
                0,
                None,
                None,
            ),
    {
        Ok(self.collect(0, None, None))
    }

    /// Returns an iterator over the entries from the block that the index
    /// selects for `start_key`, or from the first block without one.
    /// Entries with a user key below `start_key` are passed over, and the
    /// iterator ends before the first other entry whose user key has
    /// reached `end_key`.
    pub fn range_iter(&mut self, start_key: Option<&Key>, end_key: Option<&Key>) -> (r: Result<
        SSTableIterator,
    >)
        requires
            old(self).wf(),
        ensures
            final(self).wf(),
            final(self).same_file(old(self)),
            r matches Ok(it) && it.wf() && it.remaining() == stream_from(
                old(self).image(),
                old(self).index(),
                match start_key {
                    Some(s) => block_for(old(self).index(), s@, old(self).index().len()),
                    None => 0,
                },
                bound_of(start_key),
                bound_of(end_key),
            ),
    {
        let first = match start_key {
            Some(s) => match self.find_block_index(s.as_slice()) {
                Some(p) => p,
                None => 0,
            },
            None => 0,
        };
        Ok(self.collect(first, start_key, end_key))
    }
}

} // verus!
