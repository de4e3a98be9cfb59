//! A probabilistically balanced ordered list of versioned entries.
//!
//! Entries are kept in internal-key order: user key ascending, version
//! descending. Every node takes part in the bottom level, which links all
//! entries in order; a node of height `h` also takes part in levels
//! `1..h`, which skip ahead. Heights are drawn geometrically, so a search
//! that starts at the top level visits few nodes.
//!
//! Nodes live in an arena and refer to each other by position; position `0`
//! is the head sentinel and, as a link, marks the end of a level.

use rand::rngs::StdRng;
use rand::Rng;
use rand::SeedableRng;
use vstd::prelude::*;

use crate::bytes::{
    bytes_eq, compare_bytes, copy_bytes, lemma_lex_asymmetric, lemma_lex_irreflexive,
    lemma_lex_total, lemma_lex_transitive, lex_le, lex_lt, KeyOrder,
};
use crate::memtable::model::{
    entry_lt, from_hit, get_of, has_key, hit_for, inserted, lemma_place_unique, place_of, readable,
    scan_hit, scan_of, sorted, visible_at, Entry,
};
use crate::order::{
    compare_keys, key_lt, lemma_key_asymmetric, lemma_key_total, lemma_key_transitive,
};
use crate::types::{Key, Operation, Timestamp, Value};

verus! {

/// Maximum height of a node, and the height of the head sentinel.
pub const MAX_HEIGHT: usize = 12;

/// A node grows by one more level with probability `1 / BRANCHING_FACTOR`.
pub const BRANCHING_FACTOR: u32 = 4;

/// The standard random number generator of the `rand` crate, `StdRng`,
/// carried as an opaque value: nothing is known of its state.
#[verifier::external_type_specification]
#[verifier::external_body]
pub struct ExStdRng(StdRng);

/// Seeds a generator from the operating system with `StdRng::from_rng` on
/// `OsRng`; `None` when the system supplies no entropy. Nothing is claimed of
/// the generator's state.
#[verifier::external_body]
fn rng_from_os() -> Option<StdRng> {
    StdRng::from_rng(rand::rngs::OsRng).ok()
}

/// Seeds a generator from a number with `StdRng::seed_from_u64`. Nothing is
/// claimed of the generator's state.
#[verifier::external_body]
fn rng_from_seed(seed: u64) -> StdRng {
    StdRng::seed_from_u64(seed)
}

/// Draws a boolean that is true with probability `numerator / denominator`,
/// with `Rng::gen_ratio`. Only the two certain cases are claimed: a ratio of
/// one always gives `true`, a ratio of zero always gives `false`.
#[verifier::external_body]
fn draw_ratio(rng: &mut StdRng, numerator: u32, denominator: u32) -> (r: bool)
    requires
        denominator > 0,
        numerator <= denominator,
    ensures
        numerator == denominator ==> r,
        numerator == 0 ==> !r,
{
    rng.gen_ratio(numerator, denominator)
}

/// The key under which the list orders an entry, with the entry's operation.
#[derive(Debug, Clone)]
pub struct InternalKey {
    /// The user-provided key.
    pub user_key: Key,
    /// The version of this entry.
    pub timestamp: Timestamp,
    /// Whether the entry stores a value or marks a deletion.
    pub operation: Operation,
}

impl InternalKey {
    /// Creates a new internal key.
    pub fn new(user_key: Key, timestamp: Timestamp, operation: Operation) -> (key: Self)
        ensures
            key.user_key == user_key,
            key.timestamp == timestamp,
            key.operation == operation,
    {
        InternalKey { user_key, timestamp, operation }
    }

    /// Compares two internal keys: user key ascending, then version
    /// descending. The operation takes no part in the order.
    pub fn compare(&self, other: &Self) -> (r: KeyOrder)
        ensures
            r == crate::order::key_order(
                self.user_key@,
                self.timestamp,
                other.user_key@,
                other.timestamp,
            ),
    {
        compare_keys(
            self.user_key.as_slice(),
            self.timestamp,
            other.user_key.as_slice(),
            other.timestamp,
        )
    }
}

struct Node {
    key: InternalKey,
    value: Value,
    next: Vec<usize>,
}

/// An ordered list of versioned entries with expected logarithmic search.
pub struct SkipList {
    nodes: Vec<Node>,
    height: usize,
    rng: StdRng,
    order: Ghost<Seq<int>>,
    rank: Ghost<Seq<int>>,
}

/// Draws the height of a new node: one, and one more for as long as a draw
/// with probability `1 / BRANCHING_FACTOR` succeeds, up to `MAX_HEIGHT`.
fn random_height(rng: &mut StdRng) -> (height: usize)
    ensures
        1 <= height <= MAX_HEIGHT,
{
    let mut height: usize = 1;
    let mut growing = true;
    while growing && height < MAX_HEIGHT
        invariant
            1 <= height <= MAX_HEIGHT,
        decreases MAX_HEIGHT - height,
                if growing {
                    1int
                } else {
                    0int
                },
    {
        if draw_ratio(rng, 1, BRANCHING_FACTOR) {
            height += 1;
        } else {
            growing = false;
        }
    }
    height
}

impl SkipList {
    spec fn entry_of(&self, i: int) -> Entry {
        Entry {
            user_key: self.nodes@[i].key.user_key@,
            timestamp: self.nodes@[i].key.timestamp,
            operation: self.nodes@[i].key.operation,
            value: self.nodes@[i].value@,
        }
    }

    /// The entries of the list, in list order.
    pub closed spec fn view(&self) -> Seq<Entry> {
        Seq::new(self.order@.len(), |r: int| self.entry_of(self.order@[r]))
    }

    /// The node that follows rank `r` on the bottom level, or `0` at the end.
    spec fn after(&self, r: int) -> int {
        if r + 1 < self.order@.len() {
            self.order@[r + 1]
        } else {
            0
        }
    }

    spec fn link_ok(&self, i: int, l: int) -> bool {
        let m = self.nodes@[i].next@[l] as int;
        &&& 0 <= m < self.nodes@.len()
        &&& m != 0 ==> self.rank@[m] > self.rank@[i] && l < self.nodes@[m].next@.len()
        &&& l == 0 ==> m == self.after(self.rank@[i])
    }

    spec fn ranked(&self, i: int) -> bool {
        &&& 0 <= self.rank@[i] < self.order@.len()
        &&& self.order@[self.rank@[i]] == i
    }

    spec fn placed(&self, r: int) -> bool {
        &&& 1 <= self.order@[r] < self.nodes@.len()
        &&& self.rank@[self.order@[r]] == r
    }

    spec fn tall(&self, i: int) -> bool {
        1 <= self.nodes@[i].next@.len() <= MAX_HEIGHT
    }

    /// The list is well formed: its levels are forward chains over the
    /// entries, the bottom level links every entry, and the entries are
    /// strictly sorted.
    pub closed spec fn wf(&self) -> bool {
        let n = self.nodes@.len() as int;
        &&& n >= 1
        &&& self.nodes@[0].next@.len() == MAX_HEIGHT
        &&& 1 <= self.height <= MAX_HEIGHT
        &&& self.order@.len() == n - 1
        &&& self.rank@.len() == n
        &&& self.rank@[0] == -1
        &&& forall|i: int| 1 <= i < n ==> #[trigger] self.ranked(i)
        &&& forall|r: int| 0 <= r < n - 1 ==> #[trigger] self.placed(r)
        &&& forall|i: int| 0 <= i < n ==> #[trigger] self.tall(i)
        &&& forall|i: int, l: int|
            0 <= i < n && 0 <= l < self.nodes@[i].next@.len() ==> #[trigger] self.link_ok(i, l)
        &&& sorted(self@)
    }

    /// A well-formed list holds its entries strictly sorted.
    pub proof fn lemma_sorted(&self)
        requires
            self.wf(),
        ensures
            sorted(self@),
    {
    }

    /// Creates a new empty list.
    pub fn new() -> (list: Self)
        ensures
            list.wf(),
            list@ == Seq::<Entry>::empty(),
    {
        let rng = match rng_from_os() {
            Some(rng) => rng,
            None => rng_from_seed(0),
        };
        let mut next: Vec<usize> = Vec::new();
        let mut l: usize = 0;
        while l < MAX_HEIGHT
            invariant
                l <= MAX_HEIGHT,
                next@.len() == l,
                forall|j: int| 0 <= j < l ==> next@[j] == 0,
            decreases MAX_HEIGHT - l,
        {
            next.push(0);
            l += 1;
        }
        let head = Node {
            key: InternalKey::new(Vec::new(), 0, Operation::Put),
            value: Vec::new(),
            next,
        };
        let mut nodes: Vec<Node> = Vec::new();
        nodes.push(head);
        let ghost order: Seq<int> = Seq::empty();
        let ghost rank: Seq<int> = Seq::empty().push(-1int);
        let list = SkipList { nodes, height: 1, rng, order: Ghost(order), rank: Ghost(rank) };
        proof {
            assert(list.tall(0));
            assert forall|i: int, l: int|
                0 <= i < 1 && 0 <= l < list.nodes@[i].next@.len() implies #[trigger] list.link_ok(
                i,
                l,
            ) by {}
            assert(list@ =~= Seq::<Entry>::empty());
        }
        list
    }

    /// At level `l`, `pred` and `succ` are neighbours that enclose the place
    /// of the internal key `(k, t)`: `pred` sorts before it, `succ` does not.
    spec fn bracket(&self, pred: int, succ: int, l: int, k: Seq<u8>, t: u64) -> bool {
        &&& 0 <= pred < self.nodes@.len()
        &&& 0 <= l < self.nodes@[pred].next@.len()
        &&& succ == self.nodes@[pred].next@[l]
        &&& pred != 0 ==> key_lt(self.entry_of(pred).user_key, self.entry_of(pred).timestamp, k, t)
        &&& succ != 0 ==> !key_lt(
            self.entry_of(succ).user_key,
            self.entry_of(succ).timestamp,
            k,
            t,
        )
    }

    /// The place of `(k, t)` is after the first `p` entries: those sort
    /// before it, the others do not.
    spec fn split_at(&self, p: int, k: Seq<u8>, t: u64) -> bool {
        place_of(self@, p, k, t)
    }

    /// Neighbours that enclose a key on the bottom level split the entries
    /// at the rank that follows the predecessor.
    proof fn lemma_split(&self, pred: int, succ: int, k: Seq<u8>, t: u64)
        requires
            self.wf(),
            self.bracket(pred, succ, 0, k, t),
        ensures
            self.split_at(self.rank@[pred] + 1, k, t),
            succ == self.after(self.rank@[pred]),
    {
        let p = self.rank@[pred] + 1;
        let es = self@;
        assert(self.link_ok(pred, 0));
        if pred != 0 {
            assert(self.ranked(pred));
        }
        assert forall|r: int| 0 <= r < p implies key_lt(
            #[trigger] es[r].user_key,
            es[r].timestamp,
            k,
            t,
        ) by {
            assert(self.ranked(pred));
            assert(es[p - 1] == self.entry_of(pred));
            if r < p - 1 {
                assert(entry_lt(es[r], es[p - 1]));
                lemma_key_transitive(
                    es[r].user_key,
                    es[r].timestamp,
                    es[p - 1].user_key,
                    es[p - 1].timestamp,
                    k,
                    t,
                );
            }
        }
        assert forall|r: int| p <= r < es.len() implies !key_lt(
            #[trigger] es[r].user_key,
            es[r].timestamp,
            k,
            t,
        ) by {
            assert(succ == self.order@[p]);
            assert(self.placed(p));
            assert(es[p] == self.entry_of(succ));
            if r > p {
                assert(entry_lt(es[p], es[r]));
                if key_lt(es[r].user_key, es[r].timestamp, k, t) {
                    lemma_key_transitive(
                        es[p].user_key,
                        es[p].timestamp,
                        es[r].user_key,
                        es[r].timestamp,
                        k,
                        t,
                    );
                }
            }
        }
    }

    /// Finds, for each of the lowest `levels` levels, the neighbours that
    /// enclose the place of the internal key `(user_key, timestamp)`, by a
    /// search from the top level down. The boolean tells whether an entry
    /// with exactly that user key and version exists.
    fn find(&self, user_key: &[u8], timestamp: Timestamp, levels: usize) -> (r: (
        Vec<usize>,
        Vec<usize>,
        bool,
    ))
        requires
            self.wf(),
            1 <= levels <= self.height,
        ensures
            r.0@.len() == levels,
            r.1@.len() == levels,
            forall|l: int|
                0 <= l < levels ==> #[trigger] self.bracket(
                    r.0@[l] as int,
                    r.1@[l] as int,
                    l,
                    user_key@,
                    timestamp,
                ),
            r.2 == has_key(self@, user_key@, timestamp),
    {
        let mut preds: Vec<usize> = Vec::new();
        let mut succs: Vec<usize> = Vec::new();
        let mut filled: usize = 0;
        while filled < levels
            invariant
                filled <= levels,
                preds@.len() == filled,
                succs@.len() == filled,
            decreases levels - filled,
        {
            preds.push(0);
            succs.push(0);
            filled += 1;
        }
        let mut pred: usize = 0;
        let mut level: usize = self.height;
        while level > 0
            invariant
                self.wf(),
                1 <= levels <= self.height,
                level <= self.height,
                preds@.len() == levels,
                succs@.len() == levels,
                pred < self.nodes@.len(),
                level <= self.nodes@[pred as int].next@.len(),
                pred != 0 ==> key_lt(
                    self.entry_of(pred as int).user_key,
                    self.entry_of(pred as int).timestamp,
                    user_key@,
                    timestamp,
                ),
                forall|l: int|
                    level <= l < levels ==> #[trigger] self.bracket(
                        preds@[l] as int,
                        succs@[l] as int,
                        l,
                        user_key@,
                        timestamp,
                    ),
            decreases level,
        {
            level -= 1;
            let mut curr: usize = self.nodes[pred].next[level];
            let mut settled = false;
            while !settled
                invariant
                    self.wf(),
                    level < self.height,
                    pred < self.nodes@.len(),
                    level < self.nodes@[pred as int].next@.len(),
                    curr == self.nodes@[pred as int].next@[level as int],
                    pred != 0 ==> key_lt(
                        self.entry_of(pred as int).user_key,
                        self.entry_of(pred as int).timestamp,
                        user_key@,
                        timestamp,
                    ),
                    settled ==> self.bracket(
                        pred as int,
                        curr as int,
                        level as int,
                        user_key@,
                        timestamp,
                    ),
                decreases
                        self.nodes@.len() - self.rank@[pred as int],
                        if settled {
                            0int
                        } else {
                            1int
                        },
            {
                proof {
                    assert(self.link_ok(pred as int, level as int));
                }
                if curr == 0 {
                    settled = true;
                } else {
                    let node = &self.nodes[curr];
                    match compare_keys(
                        node.key.user_key.as_slice(),
                        node.key.timestamp,
                        user_key,
                        timestamp,
                    ) {
                        KeyOrder::Less => {
                            proof {
                                assert(self.ranked(curr as int));
                            }
                            pred = curr;
                            curr = node.next[level];
                        },
                        _ => {
                            settled = true;
                        },
                    }
                }
            }
            if level < levels {
                preds[level] = pred;
                succs[level] = curr;
            }
        }
        let first = succs[0];
        proof {
            assert(self.bracket(preds@[0] as int, first as int, 0, user_key@, timestamp));
            assert(self.link_ok(preds@[0] as int, 0));
            self.lemma_split(preds@[0] as int, first as int, user_key@, timestamp);
        }
        let ghost p = self.rank@[preds@[0] as int] + 1;
        let mut found = false;
        if first != 0 {
            let node = &self.nodes[first];
            found = bytes_eq(node.key.user_key.as_slice(), user_key) && node.key.timestamp
                == timestamp;
            proof {
                assert(self.placed(p));
                assert(self@[p] == self.entry_of(first as int));
            }
        }
        proof {
            let es = self@;
            if found {
                assert(es[p].user_key == user_key@ && es[p].timestamp == timestamp);
            } else {
                assert forall|i: int| 0 <= i < es.len() implies !((#[trigger] es[i]).user_key
                    == user_key@ && es[i].timestamp == timestamp) by {
                    if p < es.len() {
                        assert(self.placed(p));
                    }
                    if i < p {
                        assert(key_lt(es[i].user_key, es[i].timestamp, user_key@, timestamp));
                        lemma_key_asymmetric(es[i].user_key, es[i].timestamp, user_key@, timestamp);
                    } else if i > p {
                        assert(entry_lt(es[p], es[i]));
                        assert(!key_lt(es[p].user_key, es[p].timestamp, user_key@, timestamp));
                    }
                }
            }
        }
        (preds, succs, found)
    }

    /// `after` is `before` with one more node, spliced in at rank `p` on the
    /// bottom level after `pred0`, its links set to `succs`.
    spec fn spliced(
        before: &SkipList,
        after: &SkipList,
        pred0: int,
        succs: Seq<usize>,
        p: int,
    ) -> bool {
        let n = before.nodes@.len() as int;
        &&& after.nodes@.len() == n + 1
        &&& after.order@ == before.order@.insert(p, n)
        &&& after.rank@.len() == n + 1
        &&& after.rank@[n] == p
        &&& forall|i: int|
            0 <= i < n ==> #[trigger] after.rank@[i] == if before.rank@[i] >= p {
                before.rank@[i] + 1
            } else {
                before.rank@[i]
            }
        &&& forall|i: int|
            0 <= i < n ==> {
                &&& (#[trigger] after.nodes@[i]).key == before.nodes@[i].key
                &&& after.nodes@[i].value == before.nodes@[i].value
                &&& after.nodes@[i].next@.len() == before.nodes@[i].next@.len()
            }
        &&& forall|i: int, l: int|
            0 <= i < n && 0 <= l < before.nodes@[i].next@.len() && !(i == pred0 && l == 0)
                ==> #[trigger] after.nodes@[i].next@[l] == before.nodes@[i].next@[l]
        &&& after.nodes@[pred0].next@[0] == n
        &&& after.nodes@[n].next@ == succs
    }

    /// Splicing a node in between the neighbours that enclose its key keeps
    /// the list well formed and adds its entry at the rank of the splice.
    proof fn lemma_splice(
        before: &SkipList,
        after: &SkipList,
        preds: Seq<usize>,
        succs: Seq<usize>,
        k: Seq<u8>,
        t: u64,
    )
        requires
            before.wf(),
            1 <= succs.len() <= MAX_HEIGHT,
            preds.len() == succs.len(),
            forall|l: int|
                0 <= l < succs.len() ==> #[trigger] before.bracket(
                    preds[l] as int,
                    succs[l] as int,
                    l,
                    k,
                    t,
                ),
            !has_key(before@, k, t),
            Self::spliced(before, after, preds[0] as int, succs, before.rank@[preds[0] as int] + 1),
            after.entry_of(before.nodes@.len() as int).user_key == k,
            after.entry_of(before.nodes@.len() as int).timestamp == t,
            1 <= after.height <= MAX_HEIGHT,
        ensures
            after.wf(),
            0 <= before.rank@[preds[0] as int] + 1 <= before@.len(),
            after@ == before@.insert(
                before.rank@[preds[0] as int] + 1,
                after.entry_of(before.nodes@.len() as int),
            ),
            forall|l: int|
                0 <= l < succs.len() ==> after.rank@[#[trigger] preds[l] as int]
                    < after.rank@[before.nodes@.len() as int],
    {
        let n = before.nodes@.len() as int;
        let pred0 = preds[0] as int;
        let p = before.rank@[pred0] + 1;
        let e = after.entry_of(n);
        let es = before@;
        assert(before.bracket(pred0, succs[0] as int, 0, k, t));
        before.lemma_split(pred0, succs[0] as int, k, t);
        assert(before.link_ok(pred0, 0));
        if pred0 != 0 {
            assert(before.ranked(pred0));
        }
        assert forall|i: int| 0 <= i < n implies after.entry_of(i) == before.entry_of(i) by {
            assert(after.nodes@[i].key == before.nodes@[i].key);
        }
        assert(after@ =~= es.insert(p, e)) by {
            assert forall|r: int| 0 <= r < n implies after@[r] == es.insert(p, e)[r] by {
                if r < p {
                    assert(before.placed(r));
                } else if r > p {
                    assert(before.placed(r - 1));
                }
            }
        }
        // Every node before the splice sorts before the key, every node
        // after it sorts after the key.
        assert forall|r: int| 0 <= r < es.len() implies (if r < p {
            entry_lt(#[trigger] es[r], e)
        } else {
            entry_lt(e, es[r])
        }) by {
            if r >= p {
                assert(!key_lt(es[r].user_key, es[r].timestamp, k, t));
                lemma_key_total(es[r].user_key, es[r].timestamp, k, t);
            } else {
                assert(key_lt(es[r].user_key, es[r].timestamp, k, t));
            }
        }
        assert(sorted(after@)) by {
            let fs = after@;
            assert forall|i: int, j: int| 0 <= i < j < fs.len() implies entry_lt(
                #[trigger] fs[i],
                #[trigger] fs[j],
            ) by {
                let oi = if i < p {
                    i
                } else {
                    i - 1
                };
                let oj = if j < p {
                    j
                } else {
                    j - 1
                };
                if i == p {
                    assert(fs[j] == es[oj]);
                } else if j == p {
                    assert(fs[i] == es[oi]);
                } else {
                    assert(fs[i] == es[oi]);
                    assert(fs[j] == es[oj]);
                    assert(entry_lt(es[oi], es[oj]));
                }
            }
        }
        assert forall|i: int| 1 <= i < n + 1 implies #[trigger] after.ranked(i) by {
            if i < n {
                assert(before.ranked(i));
            }
        }
        assert forall|r: int| 0 <= r < n implies #[trigger] after.placed(r) by {
            if r < p {
                assert(before.placed(r));
            } else if r > p {
                assert(before.placed(r - 1));
            }
        }
        assert forall|i: int| 0 <= i < n + 1 implies #[trigger] after.tall(i) by {
            if i < n {
                assert(before.tall(i));
                assert(after.nodes@[i].next@.len() == before.nodes@[i].next@.len());
            }
        }
        // A node that does not sort before the key has old rank at least `p`.
        assert forall|l: int| 0 <= l < succs.len() && succs[l] != 0 implies
            before.rank@[succs[l] as int]
            >= p && l < before.nodes@[succs[l] as int].next@.len() && succs[l] < n by {
            assert(before.bracket(preds[l] as int, succs[l] as int, l, k, t));
            assert(before.link_ok(preds[l] as int, l));
            let m = succs[l] as int;
            assert(before.ranked(m));
            let rm = before.rank@[m];
            assert(es[rm] == before.entry_of(m));
            if rm < p {
                assert(key_lt(es[rm].user_key, es[rm].timestamp, k, t));
            }
        }
        assert forall|l: int| 0 <= l < succs.len() implies after.rank@[#[trigger] preds[l] as int]
            < after.rank@[n] by {
            assert(before.bracket(preds[l] as int, succs[l] as int, l, k, t));
            let q = preds[l] as int;
            if q != 0 {
                assert(before.ranked(q));
                let rq = before.rank@[q];
                assert(es[rq] == before.entry_of(q));
                if rq >= p {
                    assert(!key_lt(es[rq].user_key, es[rq].timestamp, k, t));
                }
            }
        }
        assert forall|i: int, l: int|
            0 <= i < n + 1 && 0 <= l < after.nodes@[i].next@.len() implies #[trigger] after.link_ok(
            i,
            l,
        ) by {
            if i == n {
                let m = succs[l] as int;
                if l == 0 {
                    if p < n - 1 {
                        assert(before.placed(p));
                    }
                }
            } else if i == pred0 && l == 0 {
            } else {
                assert(before.link_ok(i, l));
                assert(after.nodes@[i].next@[l] == before.nodes@[i].next@[l]);
                let m = before.nodes@[i].next@[l] as int;
                if m != 0 {
                    assert(after.nodes@[m].next@.len() == before.nodes@[m].next@.len());
                }
                if l == 0 {
                    let ri = before.rank@[i];
                    if i != 0 {
                        assert(before.ranked(i));
                    }
                    if ri == p - 1 {
                        // Only the bottom predecessor holds rank `p - 1`.
                        if i != 0 && pred0 != 0 {
                            assert(before.order@[ri] == i);
                        }
                        assert(false);
                    }
                }
            }
        }
    }

    /// `after` is `before` but for the link of `pred` at level `l`, which
    /// now leads to `idx`.
    spec fn relinked(before: &SkipList, after: &SkipList, pred: int, l: int, idx: int) -> bool {
        let n = before.nodes@.len() as int;
        &&& after.nodes@.len() == n
        &&& after.order@ == before.order@
        &&& after.rank@ == before.rank@
        &&& after.height == before.height
        &&& forall|i: int|
            0 <= i < n ==> {
                &&& (#[trigger] after.nodes@[i]).key == before.nodes@[i].key
                &&& after.nodes@[i].value == before.nodes@[i].value
                &&& after.nodes@[i].next@.len() == before.nodes@[i].next@.len()
            }
        &&& forall|i: int, m: int|
            0 <= i < n && 0 <= m < before.nodes@[i].next@.len() && !(i == pred && m == l)
                ==> #[trigger] after.nodes@[i].next@[m] == before.nodes@[i].next@[m]
        &&& after.nodes@[pred].next@[l] == idx
    }

    /// Leading an upper-level link to a later node that reaches that level
    /// keeps the list well formed and its entries unchanged.
    proof fn lemma_relink(before: &SkipList, after: &SkipList, pred: int, l: int, idx: int)
        requires
            before.wf(),
            0 <= pred < before.nodes@.len(),
            1 <= idx < before.nodes@.len(),
            1 <= l < before.nodes@[pred].next@.len(),
            l < before.nodes@[idx].next@.len(),
            before.rank@[pred] < before.rank@[idx],
            Self::relinked(before, after, pred, l, idx),
        ensures
            after.wf(),
            after@ == before@,
    {
        let n = before.nodes@.len() as int;
        assert forall|i: int| 0 <= i < n implies after.entry_of(i) == before.entry_of(i) by {
            assert(after.nodes@[i].key == before.nodes@[i].key);
        }
        assert(after@ =~= before@) by {
            assert forall|r: int| 0 <= r < n - 1 implies after@[r] == before@[r] by {
                assert(before.placed(r));
            }
        }
        assert forall|i: int| 1 <= i < n implies #[trigger] after.ranked(i) by {
            assert(before.ranked(i));
        }
        assert forall|r: int| 0 <= r < n - 1 implies #[trigger] after.placed(r) by {
            assert(before.placed(r));
        }
        assert forall|i: int| 0 <= i < n implies #[trigger] after.tall(i) by {
            assert(before.tall(i));
            assert(after.nodes@[i].next@.len() == before.nodes@[i].next@.len());
        }
        assert forall|i: int, m: int|
            0 <= i < n && 0 <= m < after.nodes@[i].next@.len() implies #[trigger] after.link_ok(
            i,
            m,
        ) by {
            assert(after.nodes@[i].next@.len() == before.nodes@[i].next@.len());
            if i == pred && m == l {
                assert(after.nodes@[idx].next@.len() == before.nodes@[idx].next@.len());
            } else {
                assert(before.link_ok(i, m));
                assert(after.nodes@[i].next@[m] == before.nodes@[i].next@[m]);
                let x = before.nodes@[i].next@[m] as int;
                if x != 0 {
                    assert(after.nodes@[x].next@.len() == before.nodes@[x].next@.len());
                }
            }
        }
    }

    /// A list with the same nodes in the same order is as well formed and
    /// holds the same entries, whatever its recorded height and its
    /// generator.
    proof fn lemma_same_nodes(before: &SkipList, after: &SkipList)
        requires
            before.wf(),
            after.nodes == before.nodes,
            after.order == before.order,
            after.rank == before.rank,
            1 <= after.height <= MAX_HEIGHT,
        ensures
            after.wf(),
            after@ == before@,
    {
        assert(after@ =~= before@);
        assert forall|i: int| 1 <= i < after.nodes@.len() implies #[trigger] after.ranked(i) by {
            assert(before.ranked(i));
        }
        assert forall|r: int| 0 <= r < after.nodes@.len() - 1 implies #[trigger] after.placed(
            r,
        ) by {
            assert(before.placed(r));
        }
        assert forall|i: int| 0 <= i < after.nodes@.len() implies #[trigger] after.tall(i) by {
            assert(before.tall(i));
        }
        assert forall|i: int, l: int|
            0 <= i < after.nodes@.len() && 0 <= l < after.nodes@[i].next@.len() implies
                #[trigger] after.link_ok(i, l) by {
            assert(before.link_ok(i, l));
        }
    }

    /// Inserts an entry for `user_key` at version `timestamp`. When the list
    /// already holds an entry with that user key and version, nothing
    /// changes; otherwise the entry takes its place in the order. The height
    /// of the new node is drawn at random.
    pub fn insert(
        &mut self,
        user_key: Key,
        value: Value,
        timestamp: Timestamp,
        operation: Operation,
    )
        requires
            old(self).wf(),
        ensures
            final(self).wf(),
            final(self)@ == inserted(
                old(self)@,
                Entry { user_key: user_key@, timestamp, operation, value: value@ },
            ),
    {
        let height = random_height(&mut self.rng);
        proof {
            Self::lemma_same_nodes(old(self), self);
        }
        self.insert_with_height(user_key, value, timestamp, operation, height);
    }

    /// Inserts an entry as `insert` does, with a node of the given height.
    /// The entries of the list do not depend on the height; only the cost
    /// of later searches does.
    pub fn insert_with_height(
        &mut self,
        user_key: Key,
        value: Value,
        timestamp: Timestamp,
        operation: Operation,
        height: usize,
    )
        requires
            old(self).wf(),
            1 <= height <= MAX_HEIGHT,
        ensures
            final(self).wf(),
            final(self)@ == inserted(
                old(self)@,
                Entry { user_key: user_key@, timestamp, operation, value: value@ },
            ),
    {
        if height > self.height {
            self.height = height;
        }
        proof {
            Self::lemma_same_nodes(old(self), self);
        }
        let (preds, succs, found) = self.find(user_key.as_slice(), timestamp, height);
        if found {
            return ;
        }
        let mut next: Vec<usize> = Vec::new();
        let mut l: usize = 0;
        while l < height
            invariant
                l <= height,
                succs@.len() == height,
                next@ == succs@.subrange(0, l as int),
            decreases height - l,
        {
            next.push(succs[l]);
            proof {
                assert(next@ =~= succs@.subrange(0, l + 1));
            }
            l += 1;
        }
        proof {
            assert(next@ =~= succs@);
        }
        let ghost before = *self;
        let ghost k = user_key@;
        let ghost entry = Entry { user_key: user_key@, timestamp, operation, value: value@ };
        let idx = self.nodes.len();
        let pred0 = preds[0];
        let ghost p = self.rank@[pred0 as int] + 1;
        proof {
            assert(self.bracket(pred0 as int, succs@[0] as int, 0, k, timestamp));
        }
        self.nodes.push(Node { key: InternalKey::new(user_key, timestamp, operation), value,
            next });
        self.nodes[pred0].next[0] = idx;
        proof {
            let old_rank = self.rank@;
            self.order = Ghost(self.order@.insert(p, idx as int));
            self.rank = Ghost(
                Seq::new(
                    (idx + 1) as nat,
                    |i: int|
                        if i == idx {
                            p
                        } else if old_rank[i] >= p {
                            old_rank[i] + 1
                        } else {
                            old_rank[i]
                        },
                ),
            );
            assert(Self::spliced(&before, self, pred0 as int, succs@, p));
            before.lemma_split(pred0 as int, succs@[0] as int, k, timestamp);
            Self::lemma_splice(&before, self, preds@, succs@, k, timestamp);
            assert(self.entry_of(idx as int) == entry);
            let q = choose|q: int| place_of(before@, q, k, timestamp);
            lemma_place_unique(before@, p, q, k, timestamp);
            assert(self@ == inserted(before@, entry));
            assert forall|m: int| 0 <= m < height implies {
                &&& (#[trigger] preds@[m]) < self.nodes@.len()
                &&& m < self.nodes@[preds@[m] as int].next@.len()
                &&& self.rank@[preds@[m] as int] < self.rank@[idx as int]
            } by {
                assert(before.bracket(preds@[m] as int, succs@[m] as int, m, k, timestamp));
                assert(self.nodes@[preds@[m] as int].next@.len() ==
                    before.nodes@[preds@[m] as int].next@.len());
            }
        }
        let mut l: usize = 1;
        while l < height
            invariant
                1 <= l,
                self.wf(),
                self@ == inserted(before@, entry),
                preds@.len() == height,
                idx == self.nodes@.len() - 1,
                1 <= idx,
                self.nodes@[idx as int].next@.len() == height,
                forall|m: int|
                    0 <= m < height ==> {
                        &&& (#[trigger] preds@[m]) < self.nodes@.len()
                        &&& m < self.nodes@[preds@[m] as int].next@.len()
                        &&& self.rank@[preds@[m] as int] < self.rank@[idx as int]
                    },
            decreases height - l,
        {
            let pred = preds[l];
            let ghost prior = *self;
            self.nodes[pred].next[l] = idx;
            proof {
                assert(Self::relinked(&prior, self, pred as int, l as int, idx as int));
                Self::lemma_relink(&prior, self, pred as int, l as int, idx as int);
            }
            l += 1;
        }
    }

    /// Reads `user_key` as of `timestamp`: the value and operation of the
    /// entry for that key with the greatest version not above `timestamp`,
    /// or `None` when the key has no such version. A tombstone is returned
    /// as such, with the `Delete` operation.
    pub fn get(&self, user_key: &[u8], timestamp: Timestamp) -> (r: Option<(Value, Operation)>)
        requires
            self.wf(),
        ensures
            get_of(self@, user_key@, timestamp, r),
    {
        let (preds, succs, _) = self.find(user_key, u64::MAX, 1);
        let mut curr: usize = succs[0];
        let ghost es = self@;
        let ghost k = user_key@;
        let ghost p = self.rank@[preds@[0] as int] + 1;
        let ghost c = p;
        proof {
            assert(self.bracket(preds@[0] as int, succs@[0] as int, 0, k, u64::MAX));
            self.lemma_split(preds@[0] as int, succs@[0] as int, k, u64::MAX);
            assert forall|r: int| 0 <= r < p implies (#[trigger] es[r]).user_key != k by {
                lemma_lex_irreflexive(k);
            }
        }
        while curr != 0
            invariant
                self.wf(),
                es == self@,
                k == user_key@,
                self.split_at(p, k, u64::MAX),
                forall|r: int| 0 <= r < p ==> (#[trigger] es[r]).user_key != k,
                p <= c <= es.len(),
                curr == self.after(c - 1),
                forall|r: int| p <= r < c ==> (#[trigger] es[r]).timestamp > timestamp,
            decreases es.len() - c,
        {
            proof {
                assert(self.placed(c));
                assert(es[c] == self.entry_of(curr as int));
                assert(self.tall(curr as int));
                assert(self.link_ok(curr as int, 0));
            }
            let node = &self.nodes[curr];
            if !bytes_eq(node.key.user_key.as_slice(), user_key) {
                proof {
                    lemma_lex_total(es[c].user_key, k);
                    lemma_lex_irreflexive(k);
                    assert(lex_lt(k, es[c].user_key));
                    assert forall|i: int| !#[trigger] readable(es, i, k, timestamp) by {
                        if c < i < es.len() {
                            assert(entry_lt(es[c], es[i]));
                            if lex_lt(es[c].user_key, es[i].user_key) {
                                lemma_lex_transitive(k, es[c].user_key, es[i].user_key);
                            }
                        }
                    }
                }
                return None;
            }
            if node.key.timestamp <= timestamp {
                let value = copy_bytes(node.value.as_slice());
                proof {
                    assert forall|j: int| #[trigger] readable(es, j, k, timestamp) implies
                        es[j].timestamp
                        <= es[c].timestamp by {
                        if j > c {
                            assert(entry_lt(es[c], es[j]));
                            lemma_lex_irreflexive(k);
                        }
                    }
                    assert(visible_at(es, c, k, timestamp));
                }
                return Some((value, node.key.operation));
            }
            curr = node.next[0];
            proof {
                c = c + 1;
            }
        }
        proof {
            if c < es.len() {
                assert(self.placed(c));
            }
            assert forall|i: int| !#[trigger] readable(es, i, k, timestamp) by {}
        }
        None
    }

    /// Scans the user keys in `[start_key, end_key)` as of `timestamp`. For
    /// each user key in range the version visible at `timestamp` decides:
    /// a value is reported with its key, a tombstone hides the key. The
    /// pairs come in ascending key order, at most one per user key.
    pub fn scan(&self, start_key: &[u8], end_key: &[u8], timestamp: Timestamp) -> (out: Vec<
        (Key, Value),
    >)
        requires
            self.wf(),
        ensures
            scan_of(self@, start_key@, end_key@, timestamp, out@),
    {
        let mut out: Vec<(Key, Value)> = Vec::new();
        let (preds, succs, _) = self.find(start_key, timestamp, 1);
        let mut curr: usize = succs[0];
        let mut seen: usize = 0;
        let mut done = false;
        let ghost es = self@;
        let ghost start = start_key@;
        let ghost end = end_key@;
        let ghost p = self.rank@[preds@[0] as int] + 1;
        let ghost c = p;
        let ghost sr: int = -1;
        let ghost picked: Seq<int> = Seq::empty();
        proof {
            assert(self.bracket(preds@[0] as int, succs@[0] as int, 0, start, timestamp));
            self.lemma_split(preds@[0] as int, succs@[0] as int, start, timestamp);
            assert forall|r: int| 0 <= r < p implies !#[trigger] scan_hit(
                es,
                r,
                start,
                end,
                timestamp,
            ) by {
                assert(key_lt(es[r].user_key, es[r].timestamp, start, timestamp));
                if lex_lt(es[r].user_key, start) {
                    lemma_lex_asymmetric(es[r].user_key, start);
                }
            }
            assert forall|r: int| p <= r < es.len() implies lex_le(start,
                (#[trigger] es[r]).user_key) by {
                assert(!key_lt(es[r].user_key, es[r].timestamp, start, timestamp));
                lemma_lex_total(start, es[r].user_key);
            }
        }
        while curr != 0 && !done
            invariant
                self.wf(),
                es == self@,
                start == start_key@,
                end == end_key@,
                self.split_at(p, start, timestamp),
                p <= c <= es.len(),
                curr == self.after(c - 1),
                forall|r: int| 0 <= r < p ==> !#[trigger] scan_hit(es, r, start, end, timestamp),
                forall|r: int| p <= r < es.len() ==> lex_le(start, (#[trigger] es[r]).user_key),
                !done ==> forall|r: int| p <= r < c ==> lex_lt((#[trigger] es[r]).user_key, end),
                done ==> forall|r: int|
                    c <= r < es.len() ==> !#[trigger] scan_hit(es, r, start, end, timestamp),
                sr < c,
                sr >= 0 ==> p <= sr && es[sr].timestamp <= timestamp,
                seen == (if sr >= 0 {
                    self.order@[sr]
                } else {
                    0
                }),
                forall|j: int|
                    p <= j < c && (#[trigger] es[j]).timestamp <= timestamp ==> sr >= 0 && lex_le(
                        es[j].user_key,
                        es[sr].user_key,
                    ),
                picked.len() == out@.len(),
                forall|j: int|
                    0 <= j < picked.len() ==> {
                        &&& p <= (#[trigger] picked[j]) < c
                        &&& scan_hit(es, picked[j], start, end, timestamp)
                        &&& out@[j].0@ == es[picked[j]].user_key
                        &&& out@[j].1@ == es[picked[j]].value
                    },
                forall|a: int, b: int|
                    0 <= a < b < picked.len() ==> (#[trigger] picked[a]) < (#[trigger] picked[b]),
                forall|r: int|
                    0 <= r < c && #[trigger] scan_hit(es, r, start, end, timestamp) ==> exists|
                        j: int,
                    |
                        0 <= j < picked.len() && #[trigger] picked[j] == r,
            decreases es.len() - c,
                    if done {
                        0int
                    } else {
                        1int
                    },
        {
            proof {
                assert(self.placed(c));
                assert(es[c] == self.entry_of(curr as int));
                assert(self.tall(curr as int));
                assert(self.link_ok(curr as int, 0));
                if sr >= 0 {
                    assert(self.placed(sr));
                    assert(es[sr] == self.entry_of(seen as int));
                }
            }
            let ghost earlier = picked;
            let node = &self.nodes[curr];
            match compare_bytes(node.key.user_key.as_slice(), end_key) {
                KeyOrder::Less => {
                    let fresh = seen == 0 || !bytes_eq(
                        self.nodes[seen].key.user_key.as_slice(),
                        node.key.user_key.as_slice(),
                    );
                    if node.key.timestamp <= timestamp && fresh {
                        proof {
                            Self::lemma_first_readable(es, p, c, sr, start, timestamp);
                        }
                        match node.key.operation {
                            Operation::Put => {
                                out.push(
                                    (
                                        copy_bytes(node.key.user_key.as_slice()),
                                        copy_bytes(node.value.as_slice()),
                                    ),
                                );
                                proof {
                                    picked = picked.push(c);
                                }
                            },
                            Operation::Delete => {},
                        }
                        proof {
                            assert forall|j: int|
                                p <= j < c + 1 && (#[trigger] es[j]).timestamp
                                    <= timestamp implies lex_le(es[j].user_key, es[c].user_key) by {
                                if j < c {
                                    assert(entry_lt(es[j], es[c]));
                                }
                            }
                            sr = c;
                        }
                        seen = curr;
                    } else {
                        proof {
                            if node.key.timestamp <= timestamp {
                                // An earlier version of the same key is readable.
                                assert(entry_lt(es[sr], es[c]));
                                lemma_lex_irreflexive(es[c].user_key);
                                assert(readable(es, sr, es[c].user_key, timestamp));
                            }
                            assert(!scan_hit(es, c, start, end, timestamp));
                        }
                    }
                    curr = node.next[0];
                    proof {
                        assert forall|r: int|
                            0 <= r < c + 1 && #[trigger] scan_hit(
                                es,
                                r,
                                start,
                                end,
                                timestamp,
                            ) implies exists|j: int|
                            0 <= j < picked.len() && #[trigger] picked[j] == r by {
                            if r < c {
                                let j = choose|j: int|
                                    0 <= j < earlier.len() && #[trigger] earlier[j] == r;
                                assert(picked[j] == r);
                            } else {
                                assert(picked[picked.len() - 1] == c);
                            }
                        }
                        c = c + 1;
                    }
                },
                _ => {
                    proof {
                        lemma_lex_total(es[c].user_key, end);
                        assert forall|r: int| c <= r < es.len() implies !#[trigger] scan_hit(
                            es,
                            r,
                            start,
                            end,
                            timestamp,
                        ) by {
                            if r > c {
                                assert(entry_lt(es[c], es[r]));
                            }
                            if lex_lt(es[r].user_key, end) {
                                if lex_lt(es[c].user_key, es[r].user_key) {
                                    lemma_lex_transitive(es[c].user_key, es[r].user_key, end);
                                }
                                lemma_lex_asymmetric(es[r].user_key, end);
                            }
                        }
                    }
                    done = true;
                },
            }
        }
        proof {
            if !done && c < es.len() {
                assert(self.placed(c));
            }
            assert forall|j: int| 0 <= j < out@.len() implies #[trigger] from_hit(
                es,
                start,
                end,
                timestamp,
                out@[j],
            ) by {
                assert(hit_for(es, picked[j], start, end, timestamp, out@[j]));
            }
            assert forall|i: int|
                #![trigger scan_hit(es, i, start, end, timestamp)]
                scan_hit(es, i, start, end, timestamp) implies exists|j: int|
                0 <= j < out@.len() && #[trigger] hit_for(es, i, start, end, timestamp,
                    out@[j]) by {
                let j = choose|j: int| 0 <= j < picked.len() && #[trigger] picked[j] == i;
                assert(hit_for(es, i, start, end, timestamp, out@[j]));
            }
            assert forall|a: int, b: int|
                #![trigger out@[a], out@[b]]
                0 <= a < b < out@.len() implies lex_lt(out@[a].0@, out@[b].0@) by {
                let x = picked[a];
                let y = picked[b];
                assert(entry_lt(es[x], es[y]));
                if es[x].user_key == es[y].user_key {
                    assert(readable(es, x, es[y].user_key, timestamp));
                    assert(readable(es, y, es[x].user_key, timestamp));
                }
            }
        }
        out
    }

    /// In a sorted run scanned from rank `p`, a readable entry at rank `c`
    /// whose user key differs from that of the last readable entry seen
    /// before it is the visible version of its key.
    proof fn lemma_first_readable(
        es: Seq<Entry>,
        p: int,
        c: int,
        sr: int,
        start: Seq<u8>,
        ts: u64,
    )
        requires
            sorted(es),
            0 <= p <= c < es.len(),
            sr < c,
            es[c].timestamp <= ts,
            sr >= 0 ==> p <= sr && es[sr].user_key != es[c].user_key,
            forall|r: int| 0 <= r < p ==> key_lt(#[trigger] es[r].user_key, es[r].timestamp,
                start, ts),
            lex_le(start, es[c].user_key),
            forall|j: int|
                p <= j < c && (#[trigger] es[j]).timestamp <= ts ==> sr >= 0 && lex_le(
                    es[j].user_key,
                    es[sr].user_key,
                ),
        ensures
            visible_at(es, c, es[c].user_key, ts),
    {
        let k = es[c].user_key;
        assert forall|j: int| #[trigger] readable(es, j, k, ts) implies es[j].timestamp
            <= es[c].timestamp by {
            lemma_lex_irreflexive(k);
            if j > c {
                assert(entry_lt(es[c], es[j]));
            } else if j < p {
                assert(key_lt(es[j].user_key, es[j].timestamp, start, ts));
                if lex_lt(k, start) {
                    lemma_lex_asymmetric(k, start);
                }
            } else if j < c {
                // The last entry seen lies between ranks `j` and `c`, so its
                // user key is theirs.
                assert(lex_le(k, es[sr].user_key));
                assert(entry_lt(es[sr], es[c]));
                if lex_lt(es[sr].user_key, k) {
                    lemma_lex_asymmetric(es[sr].user_key, k);
                }
            }
        }
    }

    /// Returns the number of entries in the list, counting every version of
    /// every key.
    pub fn size(&self) -> (n: usize)
        requires
            self.wf(),
        ensures
            n == self@.len(),
    {
        self.nodes.len() - 1
    }
}

} // verus!
