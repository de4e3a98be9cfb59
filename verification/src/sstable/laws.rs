//! What holds between the writer and the reader: a table file reads back
//! as the blocks that were written.

use vstd::bytes::*;
use vstd::prelude::*;

use crate::bytes::{lemma_lex_asymmetric, lemma_lex_irreflexive, lex_le, lex_lt};
use crate::codec::{lemma_le_u32_round_trip, low_u32};
use crate::memtable::model::{entry_lt, has_key, readable, sorted, visible_at, Entry};
use crate::sstable::{
    footer_bytes, lemma_footer_fields, lemma_footer_round_trip, Footer, IndexRecord, FOOTER_SIZE,
};
use crate::sstable::layout::{
    block_bytes, blocks_bytes, bloom_bytes, entries_bytes, entry_bytes, entry_size, flatten,
    footer_of, index_bytes, index_entries_bytes, index_entry_bytes, index_of, parse_block,
    parse_entries, parse_entry, parse_index, parse_index_entries, parse_index_entry, sst_op_byte,
    table_bytes, ReadError,
};
use crate::sstable::reader::{
    block_for, exact_hit, latest_hit, parse_trailer, stream_from, take_range, Stream,
};
use crate::types::{Operation, Timestamp, Value};

verus! {

/// The lengths of the entry's key and value fit their 32-bit fields.
pub open spec fn fits(e: Entry) -> bool {
    e.user_key.len() <= u32::MAX && e.value.len() <= u32::MAX
}

/// The block is not empty, and its entry count and its entries' lengths fit
/// their 32-bit fields.
pub open spec fn block_fits(b: Seq<Entry>) -> bool {
    &&& 0 < b.len() <= u32::MAX
    &&& forall|i: int| 0 <= i < b.len() ==> fits(#[trigger] b[i])
}

/// Every count, length and offset of the table made of `blocks` fits its
/// field.
pub open spec fn table_fits(blocks: Seq<Seq<Entry>>) -> bool {
    &&& blocks.len() <= u32::MAX
    &&& forall|i: int| 0 <= i < blocks.len() ==> block_fits(#[trigger] blocks[i])
    &&& table_bytes(blocks).len() <= u64::MAX
}

/// An entry reads back from where its bytes lie.
proof fn lemma_parse_entry(pre: Seq<u8>, e: Entry, post: Seq<u8>)
    requires
        fits(e),
    ensures
        entry_bytes(e).len() == entry_size(e),
        parse_entry(pre + entry_bytes(e) + post, pre.len() as int) == Ok::<(Entry, int), ReadError>(
            (e, (pre.len() + entry_size(e)) as int),
        ),
{
    lemma_auto_spec_u32_to_from_le_bytes();
    lemma_auto_spec_u64_to_from_le_bytes();
    let k = e.user_key.len() as int;
    let v = e.value.len() as int;
    let kl = spec_u32_to_le_bytes(low_u32(k));
    let vl = spec_u32_to_le_bytes(low_u32(v));
    let ts = spec_u64_to_le_bytes(e.timestamp);
    let body = entry_bytes(e);
    let data = pre + body + post;
    let pos = pre.len() as int;
    assert(kl.len() == 4 && vl.len() == 4 && ts.len() == 8);
    assert(body.len() == 17 + k + v);
    assert(low_u32(k) == k && low_u32(v) == v);
    assert(data.subrange(pos, pos + 4) =~= kl);
    assert(data.subrange(pos + 4, pos + 8) =~= vl);
    assert(data.subrange(pos + 8, pos + 16) =~= ts);
    assert(data[pos + 16] == sst_op_byte(e.operation));
    assert(data.subrange(pos + 17, pos + 17 + k) =~= e.user_key);
    assert(data.subrange(pos + 17 + k, pos + 17 + k + v) =~= e.value);
    let parsed = parse_entry(data, pos);
    assert(parsed is Ok);
    assert(parsed->Ok_0.0 == e);
}

/// A run of entries reads back from where its bytes lie.
proof fn lemma_parse_entries(pre: Seq<u8>, es: Seq<Entry>, post: Seq<u8>)
    requires
        forall|i: int| 0 <= i < es.len() ==> fits(#[trigger] es[i]),
    ensures
        parse_entries(pre + entries_bytes(es) + post, pre.len() as int, es.len()) == Ok::<
            (Seq<Entry>, int),
            ReadError,
        >((es, (pre.len() + entries_bytes(es).len()) as int)),
    decreases es.len(),
{
    let data = pre + entries_bytes(es) + post;
    if es.len() == 0 {
        assert(parse_entries(data, pre.len() as int, 0)->Ok_0.0 =~= es);
    } else {
        let front = es.drop_last();
        let last = es.last();
        let tail = entry_bytes(last) + post;
        assert(data =~= pre + entries_bytes(front) + tail);
        lemma_parse_entries(pre, front, tail);
        let head = pre + entries_bytes(front);
        assert(data =~= head + entry_bytes(last) + post);
        lemma_parse_entry(head, last, post);
        assert(front.push(last) =~= es);
        assert((es.len() - 1) as nat == front.len());
    }
}

/// A data block reads back from where its bytes lie.
proof fn lemma_parse_block(pre: Seq<u8>, b: Seq<Entry>, post: Seq<u8>)
    requires
        b.len() <= u32::MAX,
        forall|i: int| 0 <= i < b.len() ==> fits(#[trigger] b[i]),
    ensures
        parse_block(pre + block_bytes(b) + post, pre.len() as int) == Ok::<Seq<Entry>, ReadError>(
            b,
        ),
        block_bytes(b).len() == 8 + entries_bytes(b).len(),
{
    lemma_auto_spec_u32_to_from_le_bytes();
    let count = spec_u32_to_le_bytes(low_u32(b.len() as int));
    let sum = spec_u32_to_le_bytes(0);
    let data = pre + block_bytes(b) + post;
    assert(count.len() == 4 && sum.len() == 4);
    assert(low_u32(b.len() as int) == b.len());
    let after_count = entries_bytes(b) + sum + post;
    assert(data =~= pre + count + after_count);
    lemma_le_u32_round_trip(pre, low_u32(b.len() as int), after_count);
    let head = pre + count;
    let tail = sum + post;
    assert(data =~= head + entries_bytes(b) + tail);
    lemma_parse_entries(head, b, tail);
}

/// The bytes of the first `j` blocks start the bytes of all blocks.
proof fn lemma_blocks_prefix(blocks: Seq<Seq<Entry>>, j: int)
    requires
        0 <= j <= blocks.len(),
    ensures
        blocks_bytes(blocks.take(j)).len() <= blocks_bytes(blocks).len(),
        blocks_bytes(blocks).take(blocks_bytes(blocks.take(j)).len() as int) == blocks_bytes(
            blocks.take(j),
        ),
    decreases blocks.len() - j,
{
    let all = blocks_bytes(blocks);
    if j == blocks.len() {
        assert(blocks.take(j) =~= blocks);
        assert(all.take(all.len() as int) =~= all);
    } else {
        lemma_blocks_prefix(blocks, j + 1);
        let more = blocks.take(j + 1);
        assert(more.drop_last() =~= blocks.take(j));
        assert(more.last() == blocks[j]);
        let short = blocks_bytes(blocks.take(j));
        assert(blocks_bytes(more) == short + block_bytes(blocks[j]));
        assert(all.take(short.len() as int) =~= short) by {
            assert(all.take(blocks_bytes(more).len() as int) == blocks_bytes(more));
            assert forall|x: int| 0 <= x < short.len() implies all[x] == short[x] by {
                assert(all.take(blocks_bytes(more).len() as int)[x] == blocks_bytes(more)[x]);
            }
        }
    }
}

/// The bytes of the blocks split at block `i`: the blocks before it, the
/// block, and what follows.
proof fn lemma_blocks_split(blocks: Seq<Seq<Entry>>, i: int)
    requires
        0 <= i < blocks.len(),
    ensures
        ({
            let before = blocks_bytes(blocks.take(i));
            let upto = blocks_bytes(blocks.take(i + 1));
            &&& upto == before + block_bytes(blocks[i])
            &&& upto.len() <= blocks_bytes(blocks).len()
            &&& blocks_bytes(blocks) == before + block_bytes(blocks[i]) + blocks_bytes(blocks).skip(
                upto.len() as int,
            )
        }),
{
    lemma_blocks_prefix(blocks, i + 1);
    let more = blocks.take(i + 1);
    assert(more.drop_last() =~= blocks.take(i));
    assert(more.last() == blocks[i]);
    let all = blocks_bytes(blocks);
    let upto = blocks_bytes(more);
    assert(all =~= all.take(upto.len() as int) + all.skip(upto.len() as int));
}

/// Every block of a table file reads back at the offset that the index
/// records for it.
pub proof fn lemma_blocks_read_back(blocks: Seq<Seq<Entry>>, i: int)
    requires
        table_fits(blocks),
        0 <= i < blocks.len(),
    ensures
        parse_block(table_bytes(blocks), index_of(blocks)[i].block_offset as int) == Ok::<
            Seq<Entry>,
            ReadError,
        >(blocks[i]),
{
    lemma_blocks_split(blocks, i);
    let before = blocks_bytes(blocks.take(i));
    let upto = blocks_bytes(blocks.take(i + 1));
    let data = blocks_bytes(blocks);
    let rest = data.skip(upto.len() as int) + index_bytes(index_of(blocks)) + bloom_bytes()
        + footer_bytes(footer_of(blocks));
    assert(block_fits(blocks[i]));
    assert(table_bytes(blocks) =~= before + block_bytes(blocks[i]) + rest);
    lemma_parse_block(before, blocks[i], rest);
    assert(before.len() <= table_bytes(blocks).len());
}

/// An index entry reads back from where its bytes lie.
proof fn lemma_parse_index_entry(pre: Seq<u8>, r: IndexRecord, post: Seq<u8>)
    requires
        r.first_key.len() <= u32::MAX,
    ensures
        index_entry_bytes(r).len() == 12 + r.first_key.len(),
        parse_index_entry(pre + index_entry_bytes(r) + post, pre.len() as int) == Ok::<
            (IndexRecord, int),
            ReadError,
        >((r, (pre.len() + 12 + r.first_key.len()) as int)),
{
    lemma_auto_spec_u32_to_from_le_bytes();
    lemma_auto_spec_u64_to_from_le_bytes();
    let k = r.first_key.len() as int;
    let off = spec_u64_to_le_bytes(r.block_offset);
    let kl = spec_u32_to_le_bytes(low_u32(k));
    let body = index_entry_bytes(r);
    let data = pre + body + post;
    let pos = pre.len() as int;
    assert(off.len() == 8 && kl.len() == 4);
    assert(low_u32(k) == k);
    assert(data.subrange(pos, pos + 8) =~= off);
    assert(data.subrange(pos + 8, pos + 12) =~= kl);
    assert(data.subrange(pos + 12, pos + 12 + k) =~= r.first_key);
    let parsed = parse_index_entry(data, pos);
    assert(parsed is Ok);
    assert(parsed->Ok_0.0 == r);
}

/// A run of index entries reads back from where its bytes lie.
proof fn lemma_parse_index_entries(pre: Seq<u8>, rs: Seq<IndexRecord>, post: Seq<u8>)
    requires
        forall|i: int| 0 <= i < rs.len() ==> (#[trigger] rs[i]).first_key.len() <= u32::MAX,
    ensures
        parse_index_entries(pre + index_entries_bytes(rs) + post, pre.len() as int, rs.len())
            == Ok::<(Seq<IndexRecord>, int), ReadError>(
            (rs, (pre.len() + index_entries_bytes(rs).len()) as int),
        ),
    decreases rs.len(),
{
    let data = pre + index_entries_bytes(rs) + post;
    if rs.len() == 0 {
        assert(parse_index_entries(data, pre.len() as int, 0)->Ok_0.0 =~= rs);
    } else {
        let front = rs.drop_last();
        let last = rs.last();
        let tail = index_entry_bytes(last) + post;
        assert(data =~= pre + index_entries_bytes(front) + tail);
        lemma_parse_index_entries(pre, front, tail);
        let head = pre + index_entries_bytes(front);
        assert(data =~= head + index_entry_bytes(last) + post);
        lemma_parse_index_entry(head, last, post);
        assert(front.push(last) =~= rs);
        assert((rs.len() - 1) as nat == front.len());
    }
}

/// The index block reads back from where its bytes lie.
proof fn lemma_parse_index(pre: Seq<u8>, rs: Seq<IndexRecord>, post: Seq<u8>)
    requires
        rs.len() <= u32::MAX,
        forall|i: int| 0 <= i < rs.len() ==> (#[trigger] rs[i]).first_key.len() <= u32::MAX,
    ensures
        parse_index(pre + index_bytes(rs) + post, pre.len() as int) == Ok::<
            Seq<IndexRecord>,
            ReadError,
        >(rs),
{
    lemma_auto_spec_u32_to_from_le_bytes();
    let count = spec_u32_to_le_bytes(low_u32(rs.len() as int));
    let sum = spec_u32_to_le_bytes(0);
    let data = pre + index_bytes(rs) + post;
    assert(count.len() == 4 && sum.len() == 4);
    assert(low_u32(rs.len() as int) == rs.len());
    let after_count = index_entries_bytes(rs) + sum + post;
    assert(data =~= pre + count + after_count);
    lemma_le_u32_round_trip(pre, low_u32(rs.len() as int), after_count);
    let head = pre + count;
    let tail = sum + post;
    assert(data =~= head + index_entries_bytes(rs) + tail);
    lemma_parse_index_entries(head, rs, tail);
}

/// The footer and the index of a table file read back as they were
/// written.
pub proof fn lemma_index_reads_back(blocks: Seq<Seq<Entry>>)
    requires
        table_fits(blocks),
    ensures
        parse_trailer(table_bytes(blocks)) == Ok::<Footer, Seq<char>>(footer_of(blocks)),
        parse_index(table_bytes(blocks), footer_of(blocks).index_offset as int) == Ok::<
            Seq<IndexRecord>,
            ReadError,
        >(index_of(blocks)),
{
    let data = blocks_bytes(blocks);
    let index = index_of(blocks);
    let f = footer_of(blocks);
    let t = table_bytes(blocks);
    lemma_footer_fields(f);
    lemma_footer_round_trip(f);
    assert(t.subrange(t.len() - FOOTER_SIZE, t.len() as int) =~= footer_bytes(f));
    assert forall|i: int| 0 <= i < index.len() implies (#[trigger] index[i]).first_key.len()
        <= u32::MAX by {
        assert(block_fits(blocks[i]));
        assert(fits(blocks[i][0]));
    }
    let post = bloom_bytes() + footer_bytes(f);
    assert(t =~= data + index_bytes(index) + post);
    lemma_parse_index(data, index, post);
}

/// The entries of a run of blocks are those of the first block followed by
/// those of the others.
proof fn lemma_flatten_first(blocks: Seq<Seq<Entry>>)
    requires
        blocks.len() > 0,
    ensures
        flatten(blocks) == blocks[0] + flatten(blocks.drop_first()),
    decreases blocks.len(),
{
    if blocks.len() == 1 {
        assert(blocks.drop_last() =~= Seq::<Seq<Entry>>::empty());
        assert(blocks.drop_first() =~= Seq::<Seq<Entry>>::empty());
        assert(flatten(blocks) =~= blocks[0] + flatten(blocks.drop_first()));
    } else {
        let front = blocks.drop_last();
        lemma_flatten_first(front);
        assert(front.drop_first() =~= blocks.drop_first().drop_last());
        assert(blocks.drop_first().last() == blocks.last());
        assert(flatten(blocks) =~= blocks[0] + flatten(blocks.drop_first()));
    }
}

/// An unbounded walk over a block takes every entry and does not stop.
proof fn lemma_take_all(b: Seq<Entry>, i: int)
    requires
        0 <= i <= b.len(),
    ensures
        take_range(b, i, None, None) == (b.skip(i), false),
    decreases b.len() - i,
{
    if i < b.len() {
        lemma_take_all(b, i + 1);
        assert(seq![b[i]] + b.skip(i + 1) =~= b.skip(i));
    } else {
        assert(b.skip(i) =~= Seq::<Entry>::empty());
    }
}

/// An unbounded walk from block `pos` on yields the entries of those
/// blocks and no failure.
proof fn lemma_stream_all(blocks: Seq<Seq<Entry>>, pos: int)
    requires
        table_fits(blocks),
        0 <= pos <= blocks.len(),
    ensures
        stream_from(table_bytes(blocks), index_of(blocks), pos, None, None) == (Stream {
            items: flatten(blocks.skip(pos)),
            failure: None,
        }),
    decreases blocks.len() - pos,
{
    if pos < blocks.len() {
        lemma_blocks_read_back(blocks, pos);
        lemma_take_all(blocks[pos], 0);
        assert(blocks[pos].skip(0) =~= blocks[pos]);
        lemma_stream_all(blocks, pos + 1);
        let rest = blocks.skip(pos);
        lemma_flatten_first(rest);
        assert(rest.drop_first() =~= blocks.skip(pos + 1));
        assert(rest[0] == blocks[pos]);
    } else {
        assert(blocks.skip(pos) =~= Seq::<Seq<Entry>>::empty());
    }
}

/// Reading back what was written. The file of a table made of `blocks`
/// opens with the footer and the index that were written, holds every
/// block at the offset that the index records, and streams, from the first
/// block on and without bounds, exactly the entries of the blocks in their
/// order, with no failure.
pub proof fn lemma_table_round_trip(blocks: Seq<Seq<Entry>>)
    requires
        table_fits(blocks),
    ensures
        parse_trailer(table_bytes(blocks)) == Ok::<Footer, Seq<char>>(footer_of(blocks)),
        parse_index(table_bytes(blocks), footer_of(blocks).index_offset as int) == Ok::<
            Seq<IndexRecord>,
            ReadError,
        >(index_of(blocks)),
        forall|i: int|
            0 <= i < blocks.len() ==> parse_block(
                table_bytes(blocks),
                (#[trigger] index_of(blocks)[i]).block_offset as int,
            ) == Ok::<Seq<Entry>, ReadError>(blocks[i]),
        stream_from(table_bytes(blocks), index_of(blocks), 0, None, None) == (Stream {
            items: flatten(blocks),
            failure: None,
        }),
{
    lemma_index_reads_back(blocks);
    assert forall|i: int| 0 <= i < blocks.len() implies parse_block(
        table_bytes(blocks),
        (#[trigger] index_of(blocks)[i]).block_offset as int,
    ) == Ok::<Seq<Entry>, ReadError>(blocks[i]) by {
        lemma_blocks_read_back(blocks, i);
    }
    lemma_stream_all(blocks, 0);
    assert(blocks.skip(0) =~= blocks);
}

/// The entries of the first `j` blocks start the entries of all blocks.
proof fn lemma_flatten_prefix(blocks: Seq<Seq<Entry>>, j: int)
    requires
        0 <= j <= blocks.len(),
    ensures
        flatten(blocks.take(j)).len() <= flatten(blocks).len(),
        flatten(blocks).take(flatten(blocks.take(j)).len() as int) == flatten(blocks.take(j)),
    decreases blocks.len() - j,
{
    let all = flatten(blocks);
    if j == blocks.len() {
        assert(blocks.take(j) =~= blocks);
        assert(all.take(all.len() as int) =~= all);
    } else {
        lemma_flatten_prefix(blocks, j + 1);
        let more = blocks.take(j + 1);
        assert(more.drop_last() =~= blocks.take(j));
        assert(more.last() == blocks[j]);
        let short = flatten(blocks.take(j));
        assert(flatten(more) == short + blocks[j]);
        assert(all.take(short.len() as int) =~= short) by {
            assert(all.take(flatten(more).len() as int) == flatten(more));
            assert forall|x: int| 0 <= x < short.len() implies all[x] == short[x] by {
                assert(all.take(flatten(more).len() as int)[x] == flatten(more)[x]);
            }
        }
    }
}

/// Where the entries of block `a` start among all entries.
pub open spec fn block_start(blocks: Seq<Seq<Entry>>, a: int) -> int {
    flatten(blocks.take(a)).len() as int
}

/// Entry `i` of block `a` is the entry at `block_start(blocks, a) + i` of
/// all entries.
proof fn lemma_flatten_index(blocks: Seq<Seq<Entry>>, a: int, i: int)
    requires
        0 <= a < blocks.len(),
        0 <= i < blocks[a].len(),
    ensures
        block_start(blocks, a + 1) == block_start(blocks, a) + blocks[a].len(),
        block_start(blocks, a + 1) <= flatten(blocks).len(),
        flatten(blocks)[block_start(blocks, a) + i] == blocks[a][i],
{
    lemma_flatten_prefix(blocks, a + 1);
    let more = blocks.take(a + 1);
    assert(more.drop_last() =~= blocks.take(a));
    assert(more.last() == blocks[a]);
    let all = flatten(blocks);
    let upto = flatten(more);
    assert(all.take(upto.len() as int)[block_start(blocks, a) + i] == upto[block_start(blocks, a)
        + i]);
}

/// Blocks start in the order of their positions.
proof fn lemma_block_starts_ordered(blocks: Seq<Seq<Entry>>, a: int, b: int)
    requires
        0 <= a <= b <= blocks.len(),
    ensures
        block_start(blocks, a) <= block_start(blocks, b),
    decreases b - a,
{
    if a < b {
        lemma_block_starts_ordered(blocks, a, b - 1);
        let more = blocks.take(b);
        assert(more.drop_last() =~= blocks.take(b - 1));
    }
}

/// Every entry of all entries lies in some block.
proof fn lemma_flatten_locate(blocks: Seq<Seq<Entry>>, x: int) -> (at: (int, int))
    requires
        0 <= x < flatten(blocks).len(),
    ensures
        0 <= at.0 < blocks.len(),
        0 <= at.1 < blocks[at.0].len(),
        blocks[at.0][at.1] == flatten(blocks)[x],
    decreases blocks.len(),
{
    let front = blocks.drop_last();
    if x < flatten(front).len() {
        let at = lemma_flatten_locate(front, x);
        assert(front[at.0] == blocks[at.0]);
        at
    } else {
        (blocks.len() - 1, x - flatten(front).len())
    }
}

/// In a sorted table an entry of an earlier block, or an earlier entry of
/// the same block, sorts before a later one.
proof fn lemma_cross_block_order(blocks: Seq<Seq<Entry>>, a: int, i: int, b: int, j: int)
    requires
        sorted(flatten(blocks)),
        0 <= a <= b < blocks.len(),
        0 <= i < blocks[a].len(),
        0 <= j < blocks[b].len(),
        a < b || i < j,
    ensures
        entry_lt(blocks[a][i], blocks[b][j]),
{
    lemma_flatten_index(blocks, a, i);
    lemma_flatten_index(blocks, b, j);
    if a < b {
        lemma_block_starts_ordered(blocks, a + 1, b);
    }
    let all = flatten(blocks);
    assert(entry_lt(all[block_start(blocks, a) + i], all[block_start(blocks, b) + j]));
}

/// In a sorted table every block is sorted.
pub proof fn lemma_block_sorted(blocks: Seq<Seq<Entry>>, p: int)
    requires
        sorted(flatten(blocks)),
        0 <= p < blocks.len(),
    ensures
        sorted(blocks[p]),
{
    let b = blocks[p];
    assert forall|i: int, j: int| 0 <= i < j < b.len() implies entry_lt(
        #[trigger] b[i],
        #[trigger] b[j],
    ) by {
        lemma_cross_block_order(blocks, p, i, p, j);
    }
}

/// Blocks that hold at least one entry each start at least one entry
/// apart.
proof fn lemma_block_starts_apart(blocks: Seq<Seq<Entry>>, a: int)
    requires
        forall|i: int| 0 <= i < blocks.len() ==> (#[trigger] blocks[i]).len() > 0,
        0 <= a <= blocks.len(),
    ensures
        a <= block_start(blocks, a) <= flatten(blocks).len(),
    decreases a,
{
    lemma_flatten_prefix(blocks, a);
    if a > 0 {
        lemma_block_starts_apart(blocks, a - 1);
        lemma_flatten_index(blocks, a - 1, 0);
    } else {
        assert(blocks.take(0) =~= Seq::<Seq<Entry>>::empty());
    }
}

/// When a table fits. A table of blocks that hold at least one entry each,
/// with at most `u32::MAX` entries in all, each with a key and a value
/// whose lengths fit their fields, and whose file is no longer than
/// `u64::MAX` bytes, fits its fields.
pub proof fn lemma_table_fits(blocks: Seq<Seq<Entry>>)
    requires
        forall|i: int| 0 <= i < blocks.len() ==> (#[trigger] blocks[i]).len() > 0,
        flatten(blocks).len() <= u32::MAX,
        forall|x: int| 0 <= x < flatten(blocks).len() ==> fits(#[trigger] flatten(blocks)[x]),
        table_bytes(blocks).len() <= u64::MAX,
    ensures
        table_fits(blocks),
{
    lemma_block_starts_apart(blocks, blocks.len() as int);
    assert forall|i: int| 0 <= i < blocks.len() implies block_fits(#[trigger] blocks[i]) by {
        lemma_flatten_index(blocks, i, 0);
        lemma_block_starts_apart(blocks, i);
        lemma_block_starts_apart(blocks, i + 1);
        assert forall|j: int| 0 <= j < blocks[i].len() implies fits(#[trigger] blocks[i][j]) by {
            lemma_flatten_index(blocks, i, j);
            assert(fits(flatten(blocks)[block_start(blocks, i) + j]));
        }
    }
}

/// The user key `k` does not straddle blocks: all entries for it lie in one
/// block.
pub open spec fn in_one_block(blocks: Seq<Seq<Entry>>, k: Seq<u8>) -> bool {
    forall|a: int, i: int, b: int, j: int|
        0 <= a < blocks.len() && 0 <= i < blocks[a].len() && 0 <= b < blocks.len() && 0 <= j
            < blocks[b].len() && (#[trigger] blocks[a][i]).user_key == k && (
        #[trigger] blocks[b][j]).user_key == k ==> a == b
}

/// What the index selects: the last block among the first `n` whose first
/// key is not above `k`, or the first block when there is none.
proof fn lemma_block_for(index: Seq<IndexRecord>, k: Seq<u8>, n: nat)
    requires
        0 < n <= index.len(),
    ensures
        0 <= block_for(index, k, n) < n,
        forall|r: int| block_for(index, k, n) < r < n ==> !lex_le((#[trigger] index[r]).first_key,
            k),
        lex_le(index[block_for(index, k, n)].first_key, k) || forall|r: int|
            0 <= r < n ==> !lex_le((#[trigger] index[r]).first_key, k),
    decreases n,
{
    reveal_with_fuel(block_for, 2);
    if !lex_le(index[n - 1].first_key, k) {
        if n > 1 {
            lemma_block_for(index, k, (n - 1) as nat);
        }
    }
}

/// In a sorted table, the block that the index selects for a user key that
/// does not straddle blocks is the block that holds the entries for it.
pub proof fn lemma_selected_block(blocks: Seq<Seq<Entry>>, k: Seq<u8>, q: int, j: int)
    requires
        sorted(flatten(blocks)),
        forall|i: int| 0 <= i < blocks.len() ==> (#[trigger] blocks[i]).len() > 0,
        in_one_block(blocks, k),
        0 <= q < blocks.len(),
        0 <= j < blocks[q].len(),
        blocks[q][j].user_key == k,
    ensures
        q == block_for(index_of(blocks), k, blocks.len()),
{
    let index = index_of(blocks);
    let p = block_for(index, k, blocks.len());
    lemma_block_for(index, k, blocks.len());
    lemma_lex_irreflexive(k);
    // The block of the entry starts at or below the key.
    assert(lex_le(index[q].first_key, k)) by {
        if j > 0 {
            lemma_cross_block_order(blocks, q, 0, q, j);
        }
    }
    if q < p {
        lemma_cross_block_order(blocks, q, j, p, 0);
        let first = blocks[p][0];
        assert(index[p].first_key == first.user_key);
        if lex_lt(k, first.user_key) {
            lemma_lex_asymmetric(k, first.user_key);
        }
        assert(first.user_key == k);
        assert(blocks[p][0].user_key == k);
    }
}

/// Exact lookups against what was written. In a sorted table, for a user
/// key that does not straddle blocks, what an exact lookup finds in the
/// selected block is what the table holds: a value found was written for
/// that key and version, and nothing is found only when no entry was
/// written for them.
pub proof fn lemma_get_exact(blocks: Seq<Seq<Entry>>, k: Seq<u8>, ts: u64, found: Option<Value>)
    requires
        sorted(flatten(blocks)),
        blocks.len() > 0,
        forall|i: int| 0 <= i < blocks.len() ==> (#[trigger] blocks[i]).len() > 0,
        in_one_block(blocks, k),
        exact_hit(blocks[block_for(index_of(blocks), k, blocks.len())], k, ts, found),
    ensures
        exact_hit(flatten(blocks), k, ts, found),
        found is None ==> !has_key(flatten(blocks), k, ts),
{
    let index = index_of(blocks);
    let p = block_for(index, k, blocks.len());
    lemma_block_for(index, k, blocks.len());
    let es = blocks[p];
    let all = flatten(blocks);
    match found {
        Some(value) => {
            let i = choose|i: int|
                0 <= i < es.len() && (#[trigger] es[i]).user_key == k && es[i].timestamp == ts
                    && es[i].value == value@;
            lemma_flatten_index(blocks, p, i);
            let x = block_start(blocks, p) + i;
            assert(all[x].user_key == k && all[x].timestamp == ts && all[x].value == value@);
        },
        None => {
            lemma_block_sorted(blocks, p);
            assert forall|x: int| 0 <= x < all.len() implies !((#[trigger] all[x]).user_key == k
                && all[x].timestamp == ts) by {
                if all[x].user_key == k && all[x].timestamp == ts {
                    let at = lemma_flatten_locate(blocks, x);
                    lemma_selected_block(blocks, k, at.0, at.1);
                    assert(es[at.1].user_key == k && es[at.1].timestamp == ts);
                }
            }
        },
    }
}

/// Latest-version lookups against what was written. In a sorted table, for
/// a user key that does not straddle blocks, what a latest-version lookup
/// finds in the selected block is what the table holds: the entry found is
/// the version of the key that a read at the cap sees in the whole table,
/// and nothing is found only when the table holds no version of the key at
/// or below the cap.
pub proof fn lemma_get_latest(
    blocks: Seq<Seq<Entry>>,
    k: Seq<u8>,
    cap: u64,
    found: Option<(Value, Timestamp, Operation)>,
)
    requires
        sorted(flatten(blocks)),
        blocks.len() > 0,
        forall|i: int| 0 <= i < blocks.len() ==> (#[trigger] blocks[i]).len() > 0,
        in_one_block(blocks, k),
        latest_hit(blocks[block_for(index_of(blocks), k, blocks.len())], k, cap, found),
    ensures
        latest_hit(flatten(blocks), k, cap, found),
{
    let index = index_of(blocks);
    let p = block_for(index, k, blocks.len());
    lemma_block_for(index, k, blocks.len());
    lemma_block_sorted(blocks, p);
    let es = blocks[p];
    let all = flatten(blocks);
    // Every entry for the key lies in the selected block.
    assert forall|x: int| 0 <= x < all.len() && (#[trigger] all[x]).user_key == k implies exists|
        j: int,
    |
        0 <= j < es.len() && #[trigger] es[j] == all[x] by {
        let at = lemma_flatten_locate(blocks, x);
        lemma_selected_block(blocks, k, at.0, at.1);
        assert(es[at.1] == all[x]);
    }
    match found {
        Some((value, timestamp, operation)) => {
            let i = choose|i: int| #[trigger]
                readable(es, i, k, cap) && es[i].timestamp == timestamp && es[i].value == value@
                    && es[i].operation == operation && (sorted(es) ==> visible_at(es, i, k, cap));
            lemma_flatten_index(blocks, p, i);
            let x = block_start(blocks, p) + i;
            assert(all[x] == es[i]);
            assert(readable(all, x, k, cap));
            assert forall|y: int| #[trigger] readable(all, y, k, cap) implies all[y].timestamp
                <= all[x].timestamp by {
                let j = choose|j: int| 0 <= j < es.len() && #[trigger] es[j] == all[y];
                assert(readable(es, j, k, cap));
            }
            assert(visible_at(all, x, k, cap));
        },
        None => {
            assert forall|y: int| !#[trigger] readable(all, y, k, cap) by {
                if readable(all, y, k, cap) {
                    let j = choose|j: int| 0 <= j < es.len() && #[trigger] es[j] == all[y];
                    assert(readable(es, j, k, cap));
                }
            }
        },
    }
}

} // verus!
