//! The entries of the in-memory table as a mathematical sequence, and what
//! reads, scans and insertions mean on it.

use vstd::prelude::*;

use crate::bytes::{lex_le, lex_lt};
use crate::order::{
    key_lt, lemma_key_asymmetric, lemma_key_irreflexive, lemma_key_total, lemma_key_transitive,
};
use crate::types::{Key, Operation, Value};

verus! {

/// The mathematical content of one entry of the list.
pub struct Entry {
    pub user_key: Seq<u8>,
    pub timestamp: u64,
    pub operation: Operation,
    pub value: Seq<u8>,
}

/// Entry `a` sorts strictly before entry `b`.
pub open spec fn entry_lt(a: Entry, b: Entry) -> bool {
    key_lt(a.user_key, a.timestamp, b.user_key, b.timestamp)
}

/// The entries are strictly increasing in internal-key order.
pub open spec fn sorted(es: Seq<Entry>) -> bool {
    forall|i: int, j: int| 0 <= i < j < es.len() ==> entry_lt(#[trigger] es[i], #[trigger] es[j])
}

/// Some entry of `es` has user key `k` and version `t`.
pub open spec fn has_key(es: Seq<Entry>, k: Seq<u8>, t: u64) -> bool {
    exists|i: int| 0 <= i < es.len() && (#[trigger] es[i]).user_key == k && es[i].timestamp == t
}

/// Entry `i` of `es` is a version of `k` that a read at `ts` may see.
pub open spec fn readable(es: Seq<Entry>, i: int, k: Seq<u8>, ts: u64) -> bool {
    0 <= i < es.len() && es[i].user_key == k && es[i].timestamp <= ts
}

/// Entry `i` of `es` is the version of `k` that a read at `ts` sees: the one
/// with the greatest version not above `ts`.
pub open spec fn visible_at(es: Seq<Entry>, i: int, k: Seq<u8>, ts: u64) -> bool {
    &&& readable(es, i, k, ts)
    &&& forall|j: int| #[trigger] readable(es, j, k, ts) ==> es[j].timestamp <= es[i].timestamp
}

/// A read of `k` at `ts` sees the entry `x` of `es`.
pub open spec fn sees(es: Seq<Entry>, k: Seq<u8>, ts: u64, x: Entry) -> bool {
    exists|i: int| #[trigger] visible_at(es, i, k, ts) && es[i] == x
}

/// `r` is what a read of `k` at `ts` returns from `es`: the value and
/// operation of the visible version, or `None` when no version is readable.
pub open spec fn get_of(es: Seq<Entry>, k: Seq<u8>, ts: u64, r: Option<(Value, Operation)>) ->
    bool {
    match r {
        Some((value, operation)) => exists|i: int|
            #[trigger] visible_at(es, i, k, ts) && es[i].value == value@ && es[i].operation
                == operation,
        None => forall|i: int| !#[trigger] readable(es, i, k, ts),
    }
}

/// The user key `k` lies in the half-open range from `start` to `end`.
pub open spec fn in_range(k: Seq<u8>, start: Seq<u8>, end: Seq<u8>) -> bool {
    lex_le(start, k) && lex_lt(k, end)
}

/// Entry `i` of `es` is what a scan of `[start, end)` at `ts` reports for its
/// user key: the visible version of a key in range, and not a tombstone.
pub open spec fn scan_hit(es: Seq<Entry>, i: int, start: Seq<u8>, end: Seq<u8>, ts: u64) -> bool {
    &&& 0 <= i < es.len()
    &&& in_range(es[i].user_key, start, end)
    &&& visible_at(es, i, es[i].user_key, ts)
    &&& es[i].operation == Operation::Put
}

/// Entry `i` of `es` is a hit of the scan and `pair` holds its key and value.
pub open spec fn hit_for(
    es: Seq<Entry>,
    i: int,
    start: Seq<u8>,
    end: Seq<u8>,
    ts: u64,
    pair: (Key, Value),
) -> bool {
    scan_hit(es, i, start, end, ts) && es[i].user_key == pair.0@ && es[i].value == pair.1@
}

/// `pair` holds the key and value of some hit of the scan.
pub open spec fn from_hit(
    es: Seq<Entry>,
    start: Seq<u8>,
    end: Seq<u8>,
    ts: u64,
    pair: (Key, Value),
) -> bool {
    exists|i: int| #[trigger] hit_for(es, i, start, end, ts, pair)
}

/// `out` is the result of scanning `es` over `[start, end)` at `ts`: every
/// pair comes from a hit, every hit has its pair, and the pairs are strictly
/// increasing by user key.
pub open spec fn scan_of(
    es: Seq<Entry>,
    start: Seq<u8>,
    end: Seq<u8>,
    ts: u64,
    out: Seq<(Key, Value)>,
) -> bool {
    &&& forall|j: int| 0 <= j < out.len() ==> #[trigger] from_hit(es, start, end, ts, out[j])
    &&& forall|i: int|
        #![trigger scan_hit(es, i, start, end, ts)]
        scan_hit(es, i, start, end, ts) ==> exists|j: int|
            0 <= j < out.len() && #[trigger] hit_for(es, i, start, end, ts, out[j])
    &&& forall|a: int, b: int|
        #![trigger out[a], out[b]]
        0 <= a < b < out.len() ==> lex_lt(out[a].0@, out[b].0@)
}

/// The internal key `(k, t)` belongs after the first `p` entries of `es`:
/// those sort before it, the others do not.
pub open spec fn place_of(es: Seq<Entry>, p: int, k: Seq<u8>, t: u64) -> bool {
    &&& 0 <= p <= es.len()
    &&& forall|r: int| 0 <= r < p ==> key_lt(#[trigger] es[r].user_key, es[r].timestamp, k, t)
    &&& forall|r: int|
        p <= r < es.len() ==> !key_lt(#[trigger] es[r].user_key, es[r].timestamp, k, t)
}

/// The entries after an insertion of `e`: unchanged when an entry with the
/// same user key and version is present, else with `e` at its place.
pub open spec fn inserted(es: Seq<Entry>, e: Entry) -> Seq<Entry> {
    if has_key(es, e.user_key, e.timestamp) {
        es
    } else {
        es.insert(choose|p: int| place_of(es, p, e.user_key, e.timestamp), e)
    }
}

/// A key has at most one place in a sequence of entries.
pub proof fn lemma_place_unique(es: Seq<Entry>, p: int, q: int, k: Seq<u8>, t: u64)
    requires
        place_of(es, p, k, t),
        place_of(es, q, k, t),
    ensures
        p == q,
{
    if p < q {
        assert(key_lt(es[p].user_key, es[p].timestamp, k, t));
    } else if q < p {
        assert(key_lt(es[q].user_key, es[q].timestamp, k, t));
    }
}

/// The place of `(k, t)` in sorted entries, found from the end: after the
/// last entry that sorts before it.
spec fn place(es: Seq<Entry>, k: Seq<u8>, t: u64) -> int
    decreases es.len(),
{
    if es.len() == 0 {
        0
    } else if key_lt(es.last().user_key, es.last().timestamp, k, t) {
        es.len() as int
    } else {
        place(es.drop_last(), k, t)
    }
}

/// In sorted entries every key has a place.
pub proof fn lemma_place_exists(es: Seq<Entry>, k: Seq<u8>, t: u64)
    requires
        sorted(es),
    ensures
        exists|p: int| place_of(es, p, k, t),
    decreases es.len(),
{
    if es.len() == 0 {
        assert(place_of(es, 0, k, t));
    } else {
        let n = es.len() as int;
        let last = es.last();
        if key_lt(last.user_key, last.timestamp, k, t) {
            assert forall|r: int| 0 <= r < n implies key_lt(
                #[trigger] es[r].user_key,
                es[r].timestamp,
                k,
                t,
            ) by {
                if r < n - 1 {
                    assert(entry_lt(es[r], es[n - 1]));
                    lemma_key_transitive(
                        es[r].user_key,
                        es[r].timestamp,
                        last.user_key,
                        last.timestamp,
                        k,
                        t,
                    );
                }
            }
            assert(place_of(es, n, k, t));
        } else {
            let front = es.drop_last();
            assert forall|i: int, j: int| 0 <= i < j < front.len() implies entry_lt(
                #[trigger] front[i],
                #[trigger] front[j],
            ) by {
                assert(entry_lt(es[i], es[j]));
            }
            lemma_place_exists(front, k, t);
            let p = choose|p: int| place_of(front, p, k, t);
            assert forall|r: int| 0 <= r < p implies key_lt(
                #[trigger] es[r].user_key,
                es[r].timestamp,
                k,
                t,
            ) by {
                assert(es[r] == front[r]);
            }
            assert forall|r: int| p <= r < n implies !key_lt(
                #[trigger] es[r].user_key,
                es[r].timestamp,
                k,
                t,
            ) by {
                if r < n - 1 {
                    assert(es[r] == front[r]);
                }
            }
            assert(place_of(es, p, k, t));
        }
    }
}

/// An insertion into sorted entries leaves them sorted. When an entry with
/// the same user key and version is present nothing changes; otherwise the
/// result holds one entry more: the old entries and the new one.
pub proof fn lemma_inserted(es: Seq<Entry>, e: Entry)
    requires
        sorted(es),
    ensures
        sorted(inserted(es, e)),
        has_key(es, e.user_key, e.timestamp) ==> inserted(es, e) == es,
        !has_key(es, e.user_key, e.timestamp) ==> {
            &&& inserted(es, e).len() == es.len() + 1
            &&& forall|x: Entry| #[trigger]
                inserted(es, e).contains(x) <==> es.contains(x) || x == e
        },
{
    if !has_key(es, e.user_key, e.timestamp) {
        lemma_place_exists(es, e.user_key, e.timestamp);
        let p = choose|p: int| place_of(es, p, e.user_key, e.timestamp);
        let res = es.insert(p, e);
        assert(res == inserted(es, e));
        assert forall|r: int| 0 <= r < es.len() implies (if r < p {
            entry_lt(#[trigger] es[r], e)
        } else {
            entry_lt(e, es[r])
        }) by {
            if r >= p {
                assert(!key_lt(es[r].user_key, es[r].timestamp, e.user_key, e.timestamp));
                lemma_key_total(es[r].user_key, es[r].timestamp, e.user_key, e.timestamp);
            } else {
                assert(key_lt(es[r].user_key, es[r].timestamp, e.user_key, e.timestamp));
            }
        }
        assert forall|i: int, j: int| 0 <= i < j < res.len() implies entry_lt(
            #[trigger] res[i],
            #[trigger] res[j],
        ) by {
            let oi = if i < p {
                i
            } else {
                i - 1
            };
            let oj = if j < p {
                j
            } else {
                j - 1
            };
            if i == p {
                assert(res[j] == es[oj]);
            } else if j == p {
                assert(res[i] == es[oi]);
            } else {
                assert(res[i] == es[oi]);
                assert(res[j] == es[oj]);
                assert(entry_lt(es[oi], es[oj]));
            }
        }
        assert forall|x: Entry| #[trigger] res.contains(x) <==> es.contains(x) || x == e by {
            if res.contains(x) {
                let i = choose|i: int| 0 <= i < res.len() && res[i] == x;
                if i < p {
                    assert(es[i] == x);
                } else if i > p {
                    assert(es[i - 1] == x);
                }
            }
            if es.contains(x) {
                let i = choose|i: int| 0 <= i < es.len() && es[i] == x;
                if i < p {
                    assert(res[i] == x);
                } else {
                    assert(res[i + 1] == x);
                }
            }
            if x == e {
                assert(res[p] == x);
            }
        }
    }
}

/// The entries after inserting the entries of `batch` one after another.
pub open spec fn inserted_all(es: Seq<Entry>, batch: Seq<Entry>) -> Seq<Entry>
    decreases batch.len(),
{
    if batch.len() == 0 {
        es
    } else {
        inserted(inserted_all(es, batch.drop_last()), batch.last())
    }
}

/// No two entries of `batch` share both user key and version.
pub open spec fn distinct_keys(batch: Seq<Entry>) -> bool {
    forall|i: int, j: int|
        0 <= i < j < batch.len() ==> !((#[trigger] batch[i]).user_key ==
            (#[trigger] batch[j]).user_key
            && batch[i].timestamp == batch[j].timestamp)
}

/// Inserting entries with pairwise distinct internal keys, none of them
/// present before, adds every one of them: the result is strictly sorted,
/// grows by the size of the batch, and holds exactly the old entries and the
/// batch. This holds for the batch taken in any order.
pub proof fn lemma_inserts_distinct(es: Seq<Entry>, batch: Seq<Entry>)
    requires
        sorted(es),
        distinct_keys(batch),
        forall|j: int|
            0 <= j < batch.len() ==> !has_key(es, (#[trigger] batch[j]).user_key,
                batch[j].timestamp),
    ensures
        sorted(inserted_all(es, batch)),
        inserted_all(es, batch).len() == es.len() + batch.len(),
        forall|x: Entry| #[trigger]
            inserted_all(es, batch).contains(x) <==> es.contains(x) || batch.contains(x),
    decreases batch.len(),
{
    if batch.len() == 0 {
        assert forall|x: Entry| #[trigger]
            inserted_all(es, batch).contains(x) <==> es.contains(x) || batch.contains(x) by {}
    } else {
        let front = batch.drop_last();
        let e = batch.last();
        let n = batch.len() as int;
        assert forall|i: int, j: int| 0 <= i < j < front.len() implies
            !((#[trigger] front[i]).user_key
            == (#[trigger] front[j]).user_key && front[i].timestamp == front[j].timestamp) by {
            assert(front[i] == batch[i] && front[j] == batch[j]);
        }
        assert forall|j: int| 0 <= j < front.len() implies !has_key(
            es,
            (#[trigger] front[j]).user_key,
            front[j].timestamp,
        ) by {
            assert(front[j] == batch[j]);
        }
        lemma_inserts_distinct(es, front);
        let mid = inserted_all(es, front);
        if has_key(mid, e.user_key, e.timestamp) {
            let i = choose|i: int|
                0 <= i < mid.len() && (#[trigger] mid[i]).user_key == e.user_key && mid[i].timestamp
                    == e.timestamp;
            assert(mid.contains(mid[i]));
            if es.contains(mid[i]) {
                let r = choose|r: int| 0 <= r < es.len() && es[r] == mid[i];
                assert(es[r].user_key == e.user_key && es[r].timestamp == e.timestamp);
                assert(batch[n - 1] == e);
            } else {
                let r = choose|r: int| 0 <= r < front.len() && front[r] == mid[i];
                assert(batch[r] == front[r]);
                assert(batch[n - 1] == e);
            }
            assert(false);
        }
        lemma_inserted(mid, e);
        let res = inserted_all(es, batch);
        assert forall|x: Entry| #[trigger] res.contains(x) <==> es.contains(x) || batch.contains(
            x,
        ) by {
            if front.contains(x) {
                let r = choose|r: int| 0 <= r < front.len() && front[r] == x;
                assert(batch[r] == x);
            }
            if batch.contains(x) {
                let r = choose|r: int| 0 <= r < batch.len() && batch[r] == x;
                if r < n - 1 {
                    assert(front[r] == x);
                }
            }
            if x == e {
                assert(batch[n - 1] == x);
            }
        }
    }
}

/// Two strictly sorted sequences that hold the same entries are equal.
pub proof fn lemma_sorted_unique(a: Seq<Entry>, b: Seq<Entry>)
    requires
        sorted(a),
        sorted(b),
        forall|x: Entry| a.contains(x) <==> b.contains(x),
    ensures
        a == b,
    decreases a.len(),
{
    if a.len() == 0 {
        if b.len() > 0 {
            assert(b.contains(b[0]));
            assert(a.contains(b[0]));
        }
        assert(a =~= b);
    } else {
        let top = a.last();
        assert(a.contains(top));
        assert(b.contains(top));
        let j = choose|j: int| 0 <= j < b.len() && b[j] == top;
        if j < b.len() - 1 {
            // The last entry of `b` would sort after every entry of `a`.
            let over = b.last();
            assert(entry_lt(b[j], over));
            assert(b.contains(over));
            assert(a.contains(over));
            let i = choose|i: int| 0 <= i < a.len() && a[i] == over;
            if i < a.len() - 1 {
                assert(entry_lt(a[i], a[a.len() - 1]));
            }
            lemma_key_asymmetric(top.user_key, top.timestamp, over.user_key, over.timestamp);
            lemma_key_irreflexive(top.user_key, top.timestamp);
            assert(false);
        }
        let fa = a.drop_last();
        let fb = b.drop_last();
        assert forall|x: Entry| fa.contains(x) <==> fb.contains(x) by {
            lemma_key_irreflexive(top.user_key, top.timestamp);
            if fa.contains(x) {
                let i = choose|i: int| 0 <= i < fa.len() && fa[i] == x;
                assert(a[i] == x);
                assert(entry_lt(a[i], a[a.len() - 1]));
                assert(a.contains(x));
                assert(b.contains(x));
                let m = choose|m: int| 0 <= m < b.len() && b[m] == x;
                assert(fb[m] == x);
            }
            if fb.contains(x) {
                let i = choose|i: int| 0 <= i < fb.len() && fb[i] == x;
                assert(b[i] == x);
                assert(entry_lt(b[i], b[b.len() - 1]));
                assert(b.contains(x));
                assert(a.contains(x));
                let m = choose|m: int| 0 <= m < a.len() && a[m] == x;
                assert(fa[m] == x);
            }
        }
        assert forall|i: int, m: int| 0 <= i < m < fa.len() implies entry_lt(
            #[trigger] fa[i],
            #[trigger] fa[m],
        ) by {
            assert(entry_lt(a[i], a[m]));
        }
        assert forall|i: int, m: int| 0 <= i < m < fb.len() implies entry_lt(
            #[trigger] fb[i],
            #[trigger] fb[m],
        ) by {
            assert(entry_lt(b[i], b[m]));
        }
        lemma_sorted_unique(fa, fb);
        assert(a =~= fa.push(top));
        assert(b =~= fb.push(top));
    }
}

/// The order of insertions does not matter. Two batches that hold the same
/// entries, with pairwise distinct internal keys none of which is present
/// before, leave the same entries behind, in whatever order each batch is
/// inserted.
pub proof fn lemma_insert_order_irrelevant(es: Seq<Entry>, first: Seq<Entry>, second: Seq<Entry>)
    requires
        sorted(es),
        distinct_keys(first),
        distinct_keys(second),
        forall|x: Entry| first.contains(x) <==> second.contains(x),
        forall|j: int|
            0 <= j < first.len() ==> !has_key(es, (#[trigger] first[j]).user_key,
                first[j].timestamp),
    ensures
        inserted_all(es, first) == inserted_all(es, second),
{
    assert forall|j: int| 0 <= j < second.len() implies !has_key(
        es,
        (#[trigger] second[j]).user_key,
        second[j].timestamp,
    ) by {
        assert(second.contains(second[j]));
        assert(first.contains(second[j]));
        let i = choose|i: int| 0 <= i < first.len() && first[i] == second[j];
        assert(!has_key(es, first[i].user_key, first[i].timestamp));
    }
    lemma_inserts_distinct(es, first);
    lemma_inserts_distinct(es, second);
    lemma_sorted_unique(inserted_all(es, first), inserted_all(es, second));
}

/// An entry of `es` for `k` with a version not above `ts`, and with no
/// entry for `k` at a version between its own and `ts`, is the one that a
/// read of `k` at `ts` sees.
pub proof fn lemma_greatest_is_visible(es: Seq<Entry>, x: Entry, k: Seq<u8>, ts: u64)
    requires
        es.contains(x),
        x.user_key == k,
        x.timestamp <= ts,
        forall|y: Entry| #[trigger]
            es.contains(y) && y.user_key == k && y.timestamp <= ts ==> y.timestamp <= x.timestamp,
    ensures
        sees(es, k, ts, x),
{
    let i = choose|i: int| 0 <= i < es.len() && es[i] == x;
    assert forall|j: int| #[trigger] readable(es, j, k, ts) implies es[j].timestamp
        <= es[i].timestamp by {
        assert(es.contains(es[j]));
    }
    assert(visible_at(es, i, k, ts));
}

/// Reads across versions. After versions of one key, given with strictly
/// ascending versions, are inserted into an empty table, a read at `ts`
/// sees the version at index `i` of the batch when that is the greatest one
/// not above `ts`, and sees nothing when `ts` is below the first version.
pub proof fn lemma_mvcc_read(batch: Seq<Entry>, k: Seq<u8>, ts: u64, i: int)
    requires
        0 <= i < batch.len(),
        forall|j: int| 0 <= j < batch.len() ==> (#[trigger] batch[j]).user_key == k,
        forall|a: int, b: int|
            0 <= a < b < batch.len() ==>
                (#[trigger] batch[a]).timestamp < (#[trigger] batch[b]).timestamp,
    ensures
        ({
            let es = inserted_all(Seq::<Entry>::empty(), batch);
            &&& (batch[i].timestamp <= ts && (i + 1 < batch.len() ==> batch[i + 1].timestamp > ts))
                ==> sees(es, k, ts, batch[i])
            &&& ts < batch[0].timestamp ==> forall|r: int| !#[trigger] readable(es, r, k, ts)
        }),
{
    let none = Seq::<Entry>::empty();
    assert(sorted(none));
    assert forall|j: int| 0 <= j < batch.len() implies !has_key(
        none,
        (#[trigger] batch[j]).user_key,
        batch[j].timestamp,
    ) by {}
    lemma_inserts_distinct(none, batch);
    let es = inserted_all(none, batch);
    if batch[i].timestamp <= ts && (i + 1 < batch.len() ==> batch[i + 1].timestamp > ts) {
        let x = batch[i];
        assert(batch.contains(x));
        assert(es.contains(x));
        assert forall|y: Entry| #[trigger]
            es.contains(y) && y.user_key == k && y.timestamp <= ts implies y.timestamp
            <= x.timestamp by {
            assert(batch.contains(y));
            let j = choose|j: int| 0 <= j < batch.len() && batch[j] == y;
            if j > i {
                if j > i + 1 {
                    assert(batch[i + 1].timestamp < batch[j].timestamp);
                }
            }
        }
        lemma_greatest_is_visible(es, x, k, ts);
    }
    if ts < batch[0].timestamp {
        assert forall|r: int| !#[trigger] readable(es, r, k, ts) by {
            if readable(es, r, k, ts) {
                assert(es.contains(es[r]));
                assert(batch.contains(es[r]));
                let j = choose|j: int| 0 <= j < batch.len() && batch[j] == es[r];
                if j > 0 {
                    assert(batch[0].timestamp < batch[j].timestamp);
                }
            }
        }
    }
}

/// Visibility of a deletion. After a tombstone for `k` at version `vd` is
/// inserted, a read of `k` at `ts >= vd` sees the tombstone, provided no
/// entry for `k` has a version above `vd` and not above `ts`; and a read at
/// `ts < vd` sees exactly what it saw before.
pub proof fn lemma_delete_visibility(es: Seq<Entry>, k: Seq<u8>, vd: u64, ts: u64)
    requires
        sorted(es),
        !has_key(es, k, vd),
    ensures
        ({
            let tomb = Entry {
                user_key: k,
                timestamp: vd,
                operation: Operation::Delete,
                value: Seq::<u8>::empty(),
            };
            let after = inserted(es, tomb);
            &&& (ts >= vd && (forall|y: Entry| #[trigger]
                es.contains(y) && y.user_key == k ==> !(vd < y.timestamp <= ts))) ==> sees(
                after,
                k,
                ts,
                tomb,
            )
            &&& ts < vd ==> forall|x: Entry| #[trigger]
                sees(after, k, ts, x) <==> sees(es, k, ts, x)
        }),
{
    let tomb = Entry {
        user_key: k,
        timestamp: vd,
        operation: Operation::Delete,
        value: Seq::<u8>::empty(),
    };
    let after = inserted(es, tomb);
    lemma_inserted(es, tomb);
    assert(after.contains(tomb));
    if ts >= vd && (forall|y: Entry| #[trigger]
        es.contains(y) && y.user_key == k ==> !(vd < y.timestamp <= ts)) {
        assert forall|y: Entry| #[trigger]
            after.contains(y) && y.user_key == k && y.timestamp <= ts implies y.timestamp
            <= vd by {
            if y != tomb {
                assert(es.contains(y));
            }
        }
        lemma_greatest_is_visible(after, tomb, k, ts);
    }
    if ts < vd {
        assert forall|x: Entry| #[trigger] sees(after, k, ts, x) <==> sees(es, k, ts, x) by {
            if sees(after, k, ts, x) {
                let r = choose|r: int| #[trigger] visible_at(after, r, k, ts) && after[r] == x;
                assert(after.contains(x));
                assert(es.contains(x));
                assert forall|y: Entry| #[trigger]
                    es.contains(y) && y.user_key == k && y.timestamp <= ts implies y.timestamp
                    <= x.timestamp by {
                    assert(after.contains(y));
                    let j = choose|j: int| 0 <= j < after.len() && after[j] == y;
                    assert(readable(after, j, k, ts));
                }
                lemma_greatest_is_visible(es, x, k, ts);
            }
            if sees(es, k, ts, x) {
                let r = choose|r: int| #[trigger] visible_at(es, r, k, ts) && es[r] == x;
                assert(es.contains(x));
                assert(after.contains(x));
                assert forall|y: Entry| #[trigger]
                    after.contains(y) && y.user_key == k && y.timestamp <= ts implies y.timestamp
                    <= x.timestamp by {
                    assert(es.contains(y));
                    let j = choose|j: int| 0 <= j < es.len() && es[j] == y;
                    assert(readable(es, j, k, ts));
                }
                lemma_greatest_is_visible(after, x, k, ts);
            }
        }
    }
}

} // verus!
