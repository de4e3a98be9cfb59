//! The table writer: a builder that takes entries in strictly increasing
//! internal-key order, groups them into data blocks and emits the bytes of
//! the table file.

use vstd::bytes::*;
use vstd::prelude::*;
use vstd::string::*;

use crate::bytes::{append_bytes, copy_bytes, KeyOrder};
use crate::codec::{length_field, low_u32, put_u32_le, put_u64_le};
use crate::error::{Error, Result};
use crate::memtable::model::{entry_lt, sorted, Entry};
use crate::order::{key_le, lemma_key_total};
use crate::sstable::{
    entries_view, index_view, DEFAULT_BLOCK_SIZE, Footer, IndexEntry, IndexRecord, InternalKey,
    MAX_ENTRY_SIZE, SSTableEntry,
};
use crate::sstable::key::key_text;
use crate::sstable::layout::{
    block_bytes, blocks_bytes, bloom_bytes, entries_bytes, entry_bytes, entry_size, flatten,
    footer_of, index_bytes, index_entries_bytes, index_entry_bytes, index_of, table_bytes,
    BLOOM_SIZE,
};
use crate::types::{Operation, Value};

verus! {

/// What is known of a written table file.
#[derive(Debug, Clone)]
pub struct SSTableInfo {
    /// Path that the writer was created for.
    pub path: String,
    /// Total size of the file in bytes.
    pub file_size: u64,
    /// Number of entries in the file.
    pub entry_count: usize,
    /// Smallest key in the file.
    pub smallest_key: InternalKey,
    /// Largest key in the file.
    pub largest_key: InternalKey,
}

/// The summed sizes of a run of entries.
pub open spec fn run_size(es: Seq<Entry>) -> nat
    decreases es.len(),
{
    if es.len() == 0 {
        0
    } else {
        run_size(es.drop_last()) + entry_size(es.last())
    }
}

/// Why the writer refuses an entry.
pub enum Refusal {
    /// The writer is finished.
    Finished,
    /// The key is longer than the maximum entry size.
    KeyTooLarge,
    /// The value is longer than the maximum entry size.
    ValueTooLarge,
    /// The key does not sort after the last key added.
    OutOfOrder,
}

/// Whether a writer that is `finished` or not and holds `entries` refuses
/// the entry `e`, and why. The first reason that applies is reported.
pub open spec fn refusal(finished: bool, entries: Seq<Entry>, e: Entry) -> Option<Refusal> {
    if finished {
        Some(Refusal::Finished)
    } else if e.user_key.len() > MAX_ENTRY_SIZE {
        Some(Refusal::KeyTooLarge)
    } else if e.value.len() > MAX_ENTRY_SIZE {
        Some(Refusal::ValueTooLarge)
    } else if entries.len() > 0 && key_le(
        e.user_key,
        e.timestamp,
        entries.last().user_key,
        entries.last().timestamp,
    ) {
        Some(Refusal::OutOfOrder)
    } else {
        None
    }
}

/// The error that reports `why` for the entry `e`, refused after `entries`.
pub open spec fn reports(err: Error, why: Refusal, entries: Seq<Entry>, e: Entry) -> bool {
    match why {
        Refusal::Finished => err matches Error::ResourceConsumed(msg) && msg@
            == "SSTable writer already finished"@,
        Refusal::KeyTooLarge => err matches Error::EntrySizeExceeded { size, max_size } && size
            == e.user_key.len() && max_size == MAX_ENTRY_SIZE,
        Refusal::ValueTooLarge => err matches Error::EntrySizeExceeded { size, max_size } && size
            == e.value.len() && max_size == MAX_ENTRY_SIZE,
        Refusal::OutOfOrder => err matches Error::KeyOrderingViolation { last_key, new_key }
            && last_key@ == key_text(entries.last().user_key, entries.last().timestamp)
            && new_key@ == key_text(e.user_key, e.timestamp),
    }
}

/// Whether the block in progress is closed before `e` is taken: it holds
/// entries, and with `e` it would pass the target size.
pub open spec fn closes_block(pending: Seq<Entry>, e: Entry, block_size: int) -> bool {
    pending.len() > 0 && run_size(pending) + entry_size(e) > block_size
}

/// Appends the bytes of one entry.
fn write_entry(out: &mut Vec<u8>, entry: &SSTableEntry)
    ensures
        final(out)@ == old(out)@ + entry_bytes(entry@),
{
    put_u32_le(out, length_field(entry.key.user_key.len()));
    put_u32_le(out, length_field(entry.value.len()));
    put_u64_le(out, entry.key.timestamp);
    let op_byte: u8 = match entry.operation {
        Operation::Put => 0u8,
        Operation::Delete => 1u8,
    };
    out.push(op_byte);
    append_bytes(out, entry.key.user_key.as_slice());
    append_bytes(out, entry.value.as_slice());
    proof {
        assert(out@ =~= old(out)@ + entry_bytes(entry@));
    }
}

/// Appends the bytes of a data block that holds `entries`.
fn write_block(out: &mut Vec<u8>, entries: &Vec<SSTableEntry>)
    ensures
        final(out)@ == old(out)@ + block_bytes(entries_view(entries@)),
{
    let ghost es = entries_view(entries@);
    put_u32_le(out, length_field(entries.len()));
    let ghost head = out@;
    let mut i: usize = 0;
    while i < entries.len()
        invariant
            i <= entries@.len(),
            es == entries_view(entries@),
            out@ == head + entries_bytes(es.take(i as int)),
        decreases entries@.len() - i,
    {
        write_entry(out, &entries[i]);
        proof {
            let next = es.take(i + 1);
            assert(next.drop_last() =~= es.take(i as int));
            assert(next.last() == entries@[i as int]@);
            assert(out@ =~= head + entries_bytes(next));
        }
        i += 1;
    }
    put_u32_le(out, 0);
    proof {
        assert(es.take(es.len() as int) =~= es);
        assert(out@ =~= old(out)@ + block_bytes(es));
    }
}

/// Appends the bytes of the index block for `index`.
fn write_index_block(out: &mut Vec<u8>, index: &Vec<IndexEntry>)
    ensures
        final(out)@ == old(out)@ + index_bytes(index_view(index@)),
{
    let ghost rs = index_view(index@);
    put_u32_le(out, length_field(index.len()));
    let ghost head = out@;
    let mut i: usize = 0;
    while i < index.len()
        invariant
            i <= index@.len(),
            rs == index_view(index@),
            out@ == head + index_entries_bytes(rs.take(i as int)),
        decreases index@.len() - i,
    {
        let ghost before = out@;
        put_u64_le(out, index[i].block_offset);
        put_u32_le(out, length_field(index[i].first_key.len()));
        append_bytes(out, index[i].first_key.as_slice());
        proof {
            let next = rs.take(i + 1);
            assert(next.drop_last() =~= rs.take(i as int));
            assert(next.last() == index@[i as int]@);
            assert(out@ =~= before + index_entry_bytes(next.last()));
            assert(out@ =~= head + index_entries_bytes(next));
        }
        i += 1;
    }
    put_u32_le(out, 0);
    proof {
        assert(rs.take(rs.len() as int) =~= rs);
        assert(out@ =~= old(out)@ + index_bytes(rs));
    }
}

/// Appends the bloom region: a placeholder of eight zero bytes, a hash count
/// of zero and a reserved checksum.
fn write_bloom_filter(out: &mut Vec<u8>)
    ensures
        final(out)@ == old(out)@ + bloom_bytes(),
{
    let mut i: usize = 0;
    while i < 8
        invariant
            i <= 8,
            out@ == old(out)@ + Seq::new(i as nat, |j: int| 0u8),
        decreases 8 - i,
    {
        out.push(0u8);
        proof {
            assert(out@ =~= old(out)@ + Seq::new((i + 1) as nat, |j: int| 0u8));
        }
        i += 1;
    }
    put_u32_le(out, 0);
    put_u32_le(out, 0);
    proof {
        assert(out@ =~= old(out)@ + bloom_bytes());
    }
}

/// A run of entries takes at least seventeen bytes for each entry.
proof fn lemma_run_size_floor(es: Seq<Entry>)
    ensures
        17 * es.len() <= run_size(es),
    decreases es.len(),
{
    if es.len() > 0 {
        lemma_run_size_floor(es.drop_last());
    }
}

/// The bytes of a run of entries are as many as their summed sizes.
proof fn lemma_entries_bytes_len(es: Seq<Entry>)
    ensures
        entries_bytes(es).len() == run_size(es),
    decreases es.len(),
{
    lemma_auto_spec_u32_to_from_le_bytes();
    lemma_auto_spec_u64_to_from_le_bytes();
    if es.len() > 0 {
        lemma_entries_bytes_len(es.drop_last());
        let e = es.last();
        assert(spec_u32_to_le_bytes(low_u32(e.user_key.len() as int)).len() == 4);
        assert(spec_u32_to_le_bytes(low_u32(e.value.len() as int)).len() == 4);
        assert(spec_u64_to_le_bytes(e.timestamp).len() == 8);
        assert(entry_bytes(e).len() == entry_size(e));
    }
}

/// Closing a block appends it to the flattened entries.
proof fn lemma_flatten_push(blocks: Seq<Seq<Entry>>, block: Seq<Entry>)
    ensures
        flatten(blocks.push(block)) == flatten(blocks) + block,
        blocks_bytes(blocks.push(block)) == blocks_bytes(blocks) + block_bytes(block),
{
    assert(blocks.push(block).drop_last() =~= blocks);
}

/// Closing a block adds one record to the index: the offset at which the
/// block starts and its first user key.
proof fn lemma_index_push(blocks: Seq<Seq<Entry>>, block: Seq<Entry>)
    ensures
        index_of(blocks.push(block)) == index_of(blocks).push(
            IndexRecord {
                block_offset: blocks_bytes(blocks).len() as u64,
                first_key: block[0].user_key,
            },
        ),
{
    let more = blocks.push(block);
    assert(more.take(blocks.len() as int) =~= blocks);
    assert forall|i: int| 0 <= i < blocks.len() implies more.take(i) == blocks.take(i) by {
        assert(more.take(i) =~= blocks.take(i));
    }
    assert(index_of(more) =~= index_of(blocks).push(
        IndexRecord {
            block_offset: blocks_bytes(blocks).len() as u64,
            first_key: block[0].user_key,
        },
    ));
}

/// Pushing an entry onto a vector of entries pushes its content onto the
/// entries that the vector stands for.
proof fn lemma_entries_view_push(v: Seq<SSTableEntry>, e: SSTableEntry)
    ensures
        entries_view(v.push(e)) == entries_view(v).push(e@),
{
    assert(entries_view(v.push(e)) =~= entries_view(v).push(e@));
}

/// A builder of table files.
pub struct SSTableWriter {
    image: Vec<u8>,
    path: String,
    current_block: Vec<SSTableEntry>,
    current_block_size: usize,
    block_size: usize,
    index_entries: Vec<IndexEntry>,
    entry_count: usize,
    smallest_key: Option<InternalKey>,
    largest_key: Option<InternalKey>,
    last_key: Option<InternalKey>,
    finished: bool,
    blocks: Ghost<Seq<Seq<Entry>>>,
}

/// `key` is the key of the entry `e`.
pub open spec fn key_of(key: InternalKey, e: Entry) -> bool {
    key.user_key@ == e.user_key && key.timestamp == e.timestamp
}

impl SSTableWriter {
    /// The data blocks closed so far.
    pub closed spec fn blocks(&self) -> Seq<Seq<Entry>> {
        self.blocks@
    }

    /// The entries of the block in progress.
    pub closed spec fn pending(&self) -> Seq<Entry> {
        entries_view(self.current_block@)
    }

    /// All entries added so far, in the order in which they were added.
    pub open spec fn entries(&self) -> Seq<Entry> {
        flatten(self.blocks()) + self.pending()
    }

    /// Whether the writer is finished.
    pub closed spec fn is_finished(&self) -> bool {
        self.finished
    }

    /// The target size of a data block.
    pub closed spec fn target_block_size(&self) -> int {
        self.block_size as int
    }

    /// The path that the writer was created for.
    pub closed spec fn file_path(&self) -> Seq<char> {
        self.path@
    }

    spec fn keys_ok(&self) -> bool {
        let es = self.entries();
        &&& match self.last_key {
            Some(k) => es.len() > 0 && key_of(k, es.last()),
            None => es.len() == 0,
        }
        &&& match self.smallest_key {
            Some(k) => es.len() > 0 && key_of(k, es[0]),
            None => es.len() == 0,
        }
        &&& match self.largest_key {
            Some(k) => es.len() > 0 && key_of(k, es.last()),
            None => es.len() == 0,
        }
    }

    /// The writer is well formed: the bytes emitted are those of the closed
    /// blocks, the index lists them, and the entries are strictly sorted
    /// and within the size limits.
    pub closed spec fn wf(&self) -> bool {
        &&& self.image@ == blocks_bytes(self.blocks@)
        &&& index_view(self.index_entries@) == index_of(self.blocks@)
        &&& forall|i: int| 0 <= i < self.blocks@.len() ==> (#[trigger] self.blocks@[i]).len() > 0
        &&& self.entry_count == self.entries().len()
        &&& self.current_block_size == run_size(self.pending())
        &&& 17 * flatten(self.blocks@).len() <= self.image@.len()
        &&& sorted(self.entries())
        &&& forall|i: int|
            0 <= i < self.entries().len() ==> (#[trigger] self.entries()[i]).user_key.len()
                <= MAX_ENTRY_SIZE && self.entries()[i].value.len() <= MAX_ENTRY_SIZE
        &&& self.keys_ok()
    }

    /// A well-formed writer holds its entries strictly sorted and within
    /// the size limits, and none of its closed blocks is empty.
    pub proof fn lemma_entries_sorted(&self)
        requires
            self.wf(),
        ensures
            sorted(self.entries()),
            forall|i: int| 0 <= i < self.blocks().len() ==> (#[trigger] self.blocks()[i]).len() > 0,
            forall|i: int|
                0 <= i < self.entries().len() ==> (#[trigger] self.entries()[i]).user_key.len()
                    <= MAX_ENTRY_SIZE && self.entries()[i].value.len() <= MAX_ENTRY_SIZE,
    {
    }

    /// Creates a writer for the file at `path`, with the default block size.
    pub fn new(path: &str) -> (writer: Self)
        ensures
            writer.wf(),
            writer.blocks() == Seq::<Seq<Entry>>::empty(),
            writer.pending() == Seq::<Entry>::empty(),
            !writer.is_finished(),
            writer.target_block_size() == DEFAULT_BLOCK_SIZE,
            writer.file_path() == path@,
    {
        Self::with_block_size(path, DEFAULT_BLOCK_SIZE)
    }

    /// Creates a writer for the file at `path` with a target block size in
    /// bytes.
    pub fn with_block_size(path: &str, block_size: usize) -> (writer: Self)
        ensures
            writer.wf(),
            writer.blocks() == Seq::<Seq<Entry>>::empty(),
            writer.pending() == Seq::<Entry>::empty(),
            !writer.is_finished(),
            writer.target_block_size() == block_size,
            writer.file_path() == path@,
    {
        let writer = SSTableWriter {
            image: Vec::new(),
            path: String::from_str(path),
            current_block: Vec::new(),
            current_block_size: 0,
            block_size,
            index_entries: Vec::new(),
            entry_count: 0,
            smallest_key: None,
            largest_key: None,
            last_key: None,
            finished: false,
            blocks: Ghost(Seq::empty()),
        };
        proof {
            assert(writer.pending() =~= Seq::<Entry>::empty());
            assert(index_view(writer.index_entries@) =~= index_of(writer.blocks@));
            assert(writer.entries() =~= Seq::<Entry>::empty());
        }
        writer
    }

    /// Closes the block in progress, if it holds entries: emits its bytes
    /// and records it in the index.
    fn flush_block(&mut self)
        requires
            old(self).wf(),
        ensures
            final(self).wf(),
            final(self).entries() == old(self).entries(),
            final(self).pending() == Seq::<Entry>::empty(),
            final(self).blocks() == if old(self).pending().len() > 0 {
                old(self).blocks().push(old(self).pending())
            } else {
                old(self).blocks()
            },
            final(self).finished == old(self).finished,
            final(self).block_size == old(self).block_size,
            final(self).path == old(self).path,
            final(self).entry_count == old(self).entry_count,
            final(self).last_key == old(self).last_key,
            final(self).smallest_key == old(self).smallest_key,
            final(self).largest_key == old(self).largest_key,
    {
        if self.current_block.len() == 0 {
            proof {
                assert(self.pending() =~= Seq::<Entry>::empty());
            }
            return ;
        }
        let ghost block = self.pending();
        let ghost closed = self.blocks@;
        let first_key = copy_bytes(self.current_block[0].key.user_key.as_slice());
        let block_offset = self.image.len() as u64;
        write_block(&mut self.image, &self.current_block);
        self.index_entries.push(IndexEntry::new(block_offset, first_key));
        self.current_block.clear();
        self.current_block_size = 0;
        proof {
            self.blocks = Ghost(closed.push(block));
            lemma_flatten_push(closed, block);
            lemma_index_push(closed, block);
            lemma_entries_bytes_len(block);
            lemma_run_size_floor(block);
            lemma_auto_spec_u32_to_from_le_bytes();
            assert(self.pending() =~= Seq::<Entry>::empty());
            assert(self.entries() =~= old(self).entries());
            assert(index_view(self.index_entries@) =~= index_of(closed).push(
                IndexRecord { block_offset, first_key: block[0].user_key },
            ));
            assert(block_bytes(block).len() >= run_size(block));
            assert(flatten(closed.push(block)).len() == flatten(closed).len() + block.len());
        }
    }

    /// Adds an entry. Entries must come in strictly increasing internal-key
    /// order; a key that does not sort after the last one added is refused,
    /// as is a key or a value above the maximum entry size. When the block
    /// in progress holds entries and this one would take it past the target
    /// size, that block is closed first.
    #[verifier::rlimit(50)]
    pub fn add(&mut self, key: InternalKey, value: Value, operation: Operation) -> (r: Result<()>)
        requires
            old(self).wf(),
        ensures
            final(self).wf(),
            final(self).is_finished() == old(self).is_finished(),
            final(self).target_block_size() == old(self).target_block_size(),
            final(self).file_path() == old(self).file_path(),
            ({
                let e = Entry {
                    user_key: key.user_key@,
                    timestamp: key.timestamp,
                    operation,
                    value: value@,
                };
                match refusal(old(self).is_finished(), old(self).entries(), e) {
                    Some(why) => {
                        &&& r matches Err(err) && reports(err, why, old(self).entries(), e)
                        &&& final(self).blocks() == old(self).blocks()
                        &&& final(self).pending() == old(self).pending()
                    },
                    None => {
                        &&& r is Ok
                        &&& final(self).entries() == old(self).entries().push(e)
                        &&& if closes_block(old(self).pending(), e, old(self).target_block_size()) {
                            &&& final(self).blocks() == old(self).blocks().push(old(self).pending())
                            &&& final(self).pending() == seq![e]
                        } else {
                            &&& final(self).blocks() == old(self).blocks()
                            &&& final(self).pending() == old(self).pending().push(e)
                        }
                    },
                }
            }),
    {
        let ghost e = Entry {
            user_key: key.user_key@,
            timestamp: key.timestamp,
            operation,
            value: value@,
        };
        let ghost before = old(self).entries();
        if self.finished {
            return Err(
                Error::ResourceConsumed(String::from_str("SSTable writer already finished")),
            );
        }
        let key_size = key.user_key.len();
        let value_size = value.len();
        if key_size > MAX_ENTRY_SIZE {
            return Err(Error::EntrySizeExceeded { size: key_size, max_size: MAX_ENTRY_SIZE });
        }
        if value_size > MAX_ENTRY_SIZE {
            return Err(Error::EntrySizeExceeded { size: value_size, max_size: MAX_ENTRY_SIZE });
        }
        match &self.last_key {
            Some(last) => {
                match key.compare(last) {
                    KeyOrder::Greater => {
                        proof {
                            lemma_key_total(
                                key.user_key@,
                                key.timestamp,
                                last.user_key@,
                                last.timestamp,
                            );
                            crate::order::lemma_key_asymmetric(
                                last.user_key@,
                                last.timestamp,
                                key.user_key@,
                                key.timestamp,
                            );
                        }
                    },
                    _ => {
                        return Err(
                            Error::KeyOrderingViolation {
                                last_key: last.to_string(),
                                new_key: key.to_string(),
                            },
                        );
                    },
                }
            },
            None => {},
        }
        proof {
            assert(refusal(old(self).is_finished(), before, e) is None);
        }
        let entry_len: usize = 17 + key_size + value_size;
        let flush = self.current_block.len() > 0 && (self.current_block_size > self.block_size
            || entry_len > self.block_size - self.current_block_size);
        proof {
            assert(flush == closes_block(old(self).pending(), e, old(self).target_block_size()));
        }
        if flush {
            self.flush_block();
        }
        let ghost mid_pending = self.pending();
        let emitted = self.image.len();
        proof {
            lemma_run_size_floor(mid_pending);
            assert(self.entries() == before);
            assert(17 * flatten(self.blocks@).len() <= emitted);
            assert(17 * mid_pending.len() <= self.current_block_size);
            assert(self.entry_count == flatten(self.blocks@).len() + mid_pending.len());
        }
        let smallest = match &self.smallest_key {
            Some(k) => k.duplicate(),
            None => key.duplicate(),
        };
        let largest = key.duplicate();
        let last = key.duplicate();
        let entry = SSTableEntry::new(key, value, operation);
        proof {
            lemma_entries_view_push(self.current_block@, entry);
        }
        self.current_block.push(entry);
        self.current_block_size = self.current_block_size + entry_len;
        self.entry_count = self.entry_count + 1;
        self.smallest_key = Some(smallest);
        self.largest_key = Some(largest);
        self.last_key = Some(last);
        proof {
            let now = self.entries();
            assert(self.pending() == mid_pending.push(e));
            assert(now =~= before.push(e));
            assert(mid_pending.push(e).drop_last() =~= mid_pending);
            assert(sorted(now)) by {
                assert forall|i: int, j: int| 0 <= i < j < now.len() implies entry_lt(
                    #[trigger] now[i],
                    #[trigger] now[j],
                ) by {
                    if j == before.len() {
                        let n = before.len() as int;
                        assert(entry_lt(before[n - 1], e)) by {
                            lemma_key_total(
                                before[n - 1].user_key,
                                before[n - 1].timestamp,
                                e.user_key,
                                e.timestamp,
                            );
                        }
                        if i < n - 1 {
                            assert(entry_lt(before[i], before[n - 1]));
                            crate::order::lemma_key_transitive(
                                before[i].user_key,
                                before[i].timestamp,
                                before[n - 1].user_key,
                                before[n - 1].timestamp,
                                e.user_key,
                                e.timestamp,
                            );
                        }
                    } else {
                        assert(entry_lt(before[i], before[j]));
                    }
                }
            }
            assert forall|i: int| 0 <= i < now.len() implies (#[trigger] now[i]).user_key.len()
                <= MAX_ENTRY_SIZE && now[i].value.len() <= MAX_ENTRY_SIZE by {
                if i < before.len() {
                    assert(now[i] == before[i]);
                }
            }
            if closes_block(old(self).pending(), e, old(self).target_block_size()) {
                assert(self.pending() =~= seq![e]);
            }
        }
        Ok(())
    }

    /// Finishes the table: closes the block in progress and emits the index
    /// block, the bloom region and the footer. Returns what is known of the
    /// file together with its bytes. A writer without entries is refused.
    pub fn finish(self) -> (r: Result<(SSTableInfo, Vec<u8>)>)
        requires
            self.wf(),
        ensures
            match r {
                Ok((info, image)) => {
                    let blocks = if self.pending().len() > 0 {
                        self.blocks().push(self.pending())
                    } else {
                        self.blocks()
                    };
                    &&& !self.is_finished()
                    &&& self.entries().len() > 0
                    &&& image@ == table_bytes(blocks)
                    &&& flatten(blocks) == self.entries()
                    &&& info.path@ == self.file_path()
                    &&& info.file_size == image@.len()
                    &&& info.entry_count == self.entries().len()
                    &&& key_of(info.smallest_key, self.entries()[0])
                    &&& key_of(info.largest_key, self.entries().last())
                },
                Err(Error::ResourceConsumed(msg)) => self.is_finished() && msg@
                    == "SSTable writer already finished"@,
                Err(Error::EmptyOperation(msg)) => !self.is_finished() && self.entries().len() == 0
                    && msg@ == "Cannot finish SSTable with no entries"@,
                Err(_) => false,
            },
    {
        let ghost start = self;
        let mut w = self;
        if w.finished {
            return Err(
                Error::ResourceConsumed(String::from_str("SSTable writer already finished")),
            );
        }
        if w.entry_count == 0 {
            return Err(
                Error::EmptyOperation(String::from_str("Cannot finish SSTable with no entries")),
            );
        }
        w.flush_block();
        let ghost blocks = w.blocks@;
        let index_offset = w.image.len() as u64;
        write_index_block(&mut w.image, &w.index_entries);
        let bloom_offset = w.image.len() as u64;
        let index_length = bloom_offset - index_offset;
        write_bloom_filter(&mut w.image);
        let bloom_length = w.image.len() as u64 - bloom_offset;
        let footer = Footer::new(index_offset, index_length, bloom_offset, bloom_length);
        let footer_image = footer.to_bytes();
        append_bytes(&mut w.image, footer_image.as_slice());
        proof {
            lemma_auto_spec_u32_to_from_le_bytes();
            assert(bloom_bytes().len() == BLOOM_SIZE);
            assert(footer == footer_of(blocks));
            assert(w.image@ =~= table_bytes(blocks));
            assert(flatten(blocks) =~= start.entries());
        }
        w.finished = true;
        let file_size = w.image.len() as u64;
        match (w.smallest_key, w.largest_key) {
            (Some(smallest_key), Some(largest_key)) => Ok(
                (
                    SSTableInfo {
                        path: w.path,
                        file_size,
                        entry_count: w.entry_count,
                        smallest_key,
                        largest_key,
                    },
                    w.image,
                ),
            ),
            _ => Err(
                Error::EmptyOperation(String::from_str("Cannot finish SSTable with no entries")),
            ),
        }
    }
}

} // verus!
