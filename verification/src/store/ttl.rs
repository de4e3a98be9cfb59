//! A store whose entries may expire.
//!
//! Time is counted in nanoseconds on the store's own clock, which starts
//! when the store is created. Every operation that depends on time exists in
//! a form that takes the reading of the clock as an argument, and in a form
//! that reads the clock itself.

use std::time::Duration;
use std::time::Instant;
use vstd::prelude::*;
use vstd::string::*;

use crate::store::table::{lists_keys, Table};

verus! {

/// A reading of the monotonic clock, `std::time::Instant`, carried as an
/// opaque value: nothing is known of the time it stands for.
#[verifier::external_type_specification]
#[verifier::external_body]
pub struct ExInstant(Instant);

/// Reads the monotonic clock with `Instant::now`. Nothing is claimed of the
/// instant returned.
#[verifier::external_body]
fn clock_start() -> Instant {
    Instant::now()
}

/// Measures the time since `start` with `Instant::elapsed`. Nothing is
/// claimed of the duration returned.
#[verifier::external_body]
fn clock_elapsed(start: &Instant) -> Duration {
    start.elapsed()
}

/// Counts the nanoseconds of a duration with `Duration::as_nanos`. Nothing
/// is claimed of the count.
#[verifier::external_body]
fn duration_nanos(d: &Duration) -> u128 {
    d.as_nanos()
}

struct TimedValue {
    value: String,
    expires_at: Option<u128>,
}

/// What a stored entry stands for: the value, and the reading of the clock
/// after which the entry has expired, if it expires at all.
pub struct Timed {
    pub value: Seq<char>,
    pub expires_at: Option<u128>,
}

spec fn timed(m: Map<Seq<char>, TimedValue>) -> Map<Seq<char>, Timed> {
    m.map_values(|t: TimedValue| Timed { value: t.value@, expires_at: t.expires_at })
}

/// The entry has not expired when the clock reads `now`.
pub open spec fn live(entry: Timed, now: u128) -> bool {
    match entry.expires_at {
        Some(deadline) => now <= deadline,
        None => true,
    }
}

/// The entries of `m` that have not expired when the clock reads `now`.
pub open spec fn live_part(m: Map<Seq<char>, Timed>, now: u128) -> Map<Seq<char>, Timed> {
    m.restrict(Set::new(|k: Seq<char>| m.contains_key(k) && live(m[k], now)))
}

/// The reading of the clock `ttl` nanoseconds after `now`, held at the
/// largest reading.
pub open spec fn deadline_of(now: u128, ttl: u128) -> u128 {
    if now + ttl > u128::MAX {
        u128::MAX
    } else {
        (now + ttl) as u128
    }
}

/// `after` is `before` with `value` stored under `key`, to expire `ttl`
/// nanoseconds after the clock reads `now`.
pub open spec fn stored_at(
    before: Map<Seq<char>, Timed>,
    after: Map<Seq<char>, Timed>,
    key: Seq<char>,
    value: Seq<char>,
    ttl: u128,
    now: u128,
) -> bool {
    after == before.insert(key, Timed { value, expires_at: Some(deadline_of(now, ttl)) })
}

/// `r` is what a read of `key` returns from `m` when the clock reads `now`.
pub open spec fn read_at(m: Map<Seq<char>, Timed>, key: Seq<char>, now: u128,
    r: Option<String>) -> bool {
    match r {
        Some(v) => m.contains_key(key) && live(m[key], now) && v@ == m[key].value,
        None => !(m.contains_key(key) && live(m[key], now)),
    }
}

/// `after` is `before` without the entries that have expired when the
/// clock reads `now`.
pub open spec fn cleaned_at(
    before: Map<Seq<char>, Timed>,
    after: Map<Seq<char>, Timed>,
    now: u128,
) -> bool {
    after == live_part(before, now)
}

/// `n` entries of `m` have not expired when the clock reads `now`.
pub open spec fn counted_at(m: Map<Seq<char>, Timed>, n: usize, now: u128) -> bool {
    n == live_part(m, now).len()
}

/// A key-value store over text with time-to-live support.
pub struct TtlKeyValueStore {
    data: Table<TimedValue>,
    started: Instant,
}

impl TtlKeyValueStore {
    /// The store as a map from keys to entries, expired ones included until
    /// they are cleaned up.
    pub closed spec fn view(&self) -> Map<Seq<char>, Timed> {
        timed(self.data@)
    }

    /// The store is well formed.
    pub closed spec fn wf(&self) -> bool {
        self.data.wf()
    }

    /// Creates an empty store and starts its clock.
    pub fn new() -> (store: Self)
        ensures
            store.wf(),
            store@ == Map::<Seq<char>, Timed>::empty(),
    {
        let store = TtlKeyValueStore { data: Table::new(), started: clock_start() };
        proof {
            assert(store@ =~= Map::<Seq<char>, Timed>::empty());
        }
        store
    }

    /// Reads the store's clock, in nanoseconds since the store was created.
    pub fn now(&self) -> u128 {
        let elapsed = clock_elapsed(&self.started);
        duration_nanos(&elapsed)
    }

    /// Stores `value` under `key` as an entry that never expires, in place
    /// of any entry stored under the key before.
    pub fn set(&mut self, key: String, value: String)
        requires
            old(self).wf(),
        ensures
            final(self).wf(),
            final(self)@ == old(self)@.insert(key@, Timed { value: value@, expires_at: None }),
    {
        let entry = TimedValue { value, expires_at: None };
        proof {
            assert(timed(self.data@.insert(key@, entry)) =~= timed(self.data@).insert(
                key@,
                Timed { value: entry.value@, expires_at: None },
            ));
        }
        self.data.set(key, entry);
    }

    /// Stores `value` under `key` as an entry that expires `ttl_nanos`
    /// nanoseconds after the clock reads `now`.
    pub fn set_with_ttl_at(&mut self, key: String, value: String, ttl_nanos: u128, now: u128)
        requires
            old(self).wf(),
        ensures
            final(self).wf(),
            final(self)@ == old(self)@.insert(
                key@,
                Timed { value: value@, expires_at: Some(deadline_of(now, ttl_nanos)) },
            ),
    {
        let deadline = now.saturating_add(ttl_nanos);
        let entry = TimedValue { value, expires_at: Some(deadline) };
        proof {
            assert(timed(self.data@.insert(key@, entry)) =~= timed(self.data@).insert(
                key@,
                Timed { value: entry.value@, expires_at: Some(deadline) },
            ));
        }
        self.data.set(key, entry);
    }

    /// Stores `value` under `key` as an entry that expires `ttl` after the
    /// present reading of the clock: what `set_with_ttl_at` does for some
    /// reading of the clock and some count of nanoseconds.
    pub fn set_with_ttl(&mut self, key: String, value: String, ttl: Duration)
        requires
            old(self).wf(),
        ensures
            final(self).wf(),
            exists|ttl_nanos: u128, now: u128| #[trigger]
                stored_at(old(self)@, final(self)@, key@, value@, ttl_nanos, now),
    {
        let now = self.now();
        let ttl_nanos = duration_nanos(&ttl);
        let ghost before = self@;
        self.set_with_ttl_at(key, value, ttl_nanos, now);
        proof {
            assert(stored_at(before, self@, key@, value@, ttl_nanos, now));
        }
    }

    /// Returns a copy of the value stored under `key`, unless the entry has
    /// expired when the clock reads `now`.
    pub fn get_at(&self, key: &str, now: u128) -> (r: Option<String>)
        requires
            self.wf(),
        ensures
            read_at(self@, key@, now, r),
    {
        match self.data.get(key) {
            Some(entry) => {
                let expired = match entry.expires_at {
                    Some(deadline) => now > deadline,
                    None => false,
                };
                if expired {
                    None
                } else {
                    Some(entry.value.clone())
                }
            },
            None => None,
        }
    }

    /// Returns a copy of the value stored under `key`, unless the entry has
    /// expired by the present reading of the clock: what `get_at` returns
    /// for some reading of the clock. An entry that never expires is always
    /// returned.
    pub fn get(&self, key: &str) -> (r: Option<String>)
        requires
            self.wf(),
        ensures
            exists|now: u128| #[trigger] read_at(self@, key@, now, r),
    {
        let now = self.now();
        let r = self.get_at(key, now);
        proof {
            assert(read_at(self@, key@, now, r));
        }
        r
    }

    /// Removes every entry that has expired when the clock reads `now`.
    pub fn cleanup_expired_at(&mut self, now: u128)
        requires
            old(self).wf(),
        ensures
            final(self).wf(),
            cleaned_at(old(self)@, final(self)@, now),
    {
        let mut expired: Vec<String> = Vec::new();
        let n = self.data.len();
        let ghost slots = self.data.slot_keys();
        let ghost start = self@;
        proof {
            self.data.lemma_slots();
        }
        let mut i: usize = 0;
        while i < n
            invariant
                i <= n,
                n == slots.len(),
                self.wf(),
                self@ == start,
                slots == self.data.slot_keys(),
                lists_keys(slots, self.data@),
                forall|a: int|
                    0 <= a < expired@.len() ==> start.contains_key((#[trigger] expired@[a])@)
                        && !live(start[expired@[a]@], now),
                forall|s: int|
                    0 <= s < i && !live(start[(#[trigger] slots[s])@], now) ==> exists|a: int|
                        0 <= a < expired@.len() && (#[trigger] expired@[a])@ == slots[s]@,
            decreases n - i,
        {
            let entry = self.data.value_at(i);
            let gone = match entry.expires_at {
                Some(deadline) => now > deadline,
                None => false,
            };
            proof {
                assert(self.data@.contains_key(slots[i as int]@));
            }
            if gone {
                let ghost before = expired@;
                expired.push(self.data.key_at(i).clone());
                proof {
                    assert forall|s: int|
                        0 <= s < i + 1 && !live(
                            start[(#[trigger] slots[s])@],
                            now,
                        ) implies exists|a: int|
                        0 <= a < expired@.len() && (#[trigger] expired@[a])@ == slots[s]@ by {
                        if s == i {
                            assert(expired@[expired@.len() - 1]@ == slots[s]@);
                        } else {
                            let a = choose|a: int|
                                0 <= a < before.len() && (#[trigger] before[a])@ == slots[s]@;
                            assert(expired@[a]@ == slots[s]@);
                        }
                    }
                }
            }
            i += 1;
        }
        let mut j: usize = 0;
        while j < expired.len()
            invariant
                j <= expired@.len(),
                self.wf(),
                forall|k: Seq<char>| #[trigger]
                    self@.contains_key(k) <==> start.contains_key(k) && !(exists|a: int|
                        0 <= a < j && (#[trigger] expired@[a])@ == k),
                forall|k: Seq<char>| #[trigger] self@.contains_key(k) ==> self@[k] == start[k],
            decreases expired@.len() - j,
        {
            let ghost before = self@;
            proof {
                assert(timed(self.data@.remove(expired@[j as int]@)) =~= timed(self.data@).remove(
                    expired@[j as int]@,
                ));
            }
            self.data.remove(expired[j].as_str());
            proof {
                assert(self@ == before.remove(expired@[j as int]@));
                assert forall|k: Seq<char>| #[trigger]
                    self@.contains_key(k) <==> start.contains_key(k) && !(exists|a: int|
                        0 <= a < j + 1 && (#[trigger] expired@[a])@ == k) by {
                    if start.contains_key(k) && exists|a: int|
                        0 <= a < j + 1 && (#[trigger] expired@[a])@ == k {
                        let a = choose|a: int| 0 <= a < j + 1 && (#[trigger] expired@[a])@ == k;
                        if a < j {
                            assert(!before.contains_key(k));
                        }
                    }
                    if before.contains_key(k) && k != expired@[j as int]@ {
                        if exists|a: int| 0 <= a < j + 1 && (#[trigger] expired@[a])@ == k {
                            let a = choose|a: int| 0 <= a < j + 1 && (#[trigger] expired@[a])@ == k;
                            assert(a < j);
                        }
                    }
                }
            }
            j += 1;
        }
        proof {
            let goal = live_part(start, now);
            assert forall|k: Seq<char>| self@.contains_key(k) <==> goal.contains_key(k) by {
                if start.contains_key(k) {
                    assert(timed(old(self).data@).dom() =~= old(self).data@.dom());
                    let s = choose|s: int| 0 <= s < slots.len() && #[trigger] slots[s]@ == k;
                    if !live(start[k], now) {
                        let a = choose|a: int|
                            0 <= a < expired@.len() && (#[trigger] expired@[a])@ == slots[s]@;
                        assert(expired@[a]@ == k);
                    } else {
                        if exists|a: int| 0 <= a < expired@.len() && (#[trigger] expired@[a])@ ==
                            k {
                            let a = choose|a: int|
                                0 <= a < expired@.len() && (#[trigger] expired@[a])@ == k;
                            assert(!live(start[expired@[a]@], now));
                        }
                    }
                }
            }
            assert(self@ =~= goal);
        }
    }

    /// Removes every entry that has expired by the present reading of the
    /// clock: what `cleanup_expired_at` does for some reading of the clock.
    /// Entries that never expire stay.
    pub fn cleanup_expired(&mut self)
        requires
            old(self).wf(),
        ensures
            final(self).wf(),
            exists|now: u128| #[trigger] cleaned_at(old(self)@, final(self)@, now),
    {
        let now = self.now();
        let ghost before = self@;
        self.cleanup_expired_at(now);
        proof {
            assert(cleaned_at(before, self@, now));
        }
    }

    /// Returns the number of entries that have not expired when the clock
    /// reads `now`.
    pub fn len_at(&self, now: u128) -> (n: usize)
        requires
            self.wf(),
        ensures
            counted_at(self@, n, now),
    {
        let total = self.data.len();
        let ghost slots = self.data.slot_keys();
        let ghost m = self@;
        let ghost counted: Set<Seq<char>> = Set::empty();
        proof {
            self.data.lemma_slots();
            assert(m.dom() =~= self.data@.dom());
        }
        let mut count: usize = 0;
        let mut i: usize = 0;
        while i < total
            invariant
                i <= total,
                total == slots.len(),
                self.wf(),
                m == self@,
                slots == self.data.slot_keys(),
                lists_keys(slots, self.data@),
                m.dom() == self.data@.dom(),
                count <= i,
                counted.finite(),
                counted.len() == count,
                forall|k: Seq<char>| #[trigger]
                    counted.contains(k) <==> exists|s: int|
                        0 <= s < i && (#[trigger] slots[s])@ == k && live(m[k], now),
            decreases total - i,
        {
            let entry = self.data.value_at(i);
            let alive = match entry.expires_at {
                Some(deadline) => now <= deadline,
                None => true,
            };
            let ghost k = slots[i as int]@;
            let ghost earlier = counted;
            proof {
                assert(self.data@.contains_key(k));
                assert(!earlier.contains(k)) by {
                    if earlier.contains(k) {
                        let s = choose|s: int|
                            0 <= s < i && (#[trigger] slots[s])@ == k && live(m[k], now);
                        assert(slots[s]@ != slots[i as int]@);
                    }
                }
            }
            if alive {
                count += 1;
                proof {
                    counted = earlier.insert(k);
                }
            }
            proof {
                assert forall|q: Seq<char>| #[trigger]
                    counted.contains(q) <==> exists|s: int|
                        0 <= s < i + 1 && (#[trigger] slots[s])@ == q && live(m[q], now) by {
                    if earlier.contains(q) {
                        let s = choose|s: int|
                            0 <= s < i && (#[trigger] slots[s])@ == q && live(m[q], now);
                        assert(0 <= s < i + 1 && slots[s]@ == q);
                    }
                    if alive && q == k {
                        assert(slots[i as int]@ == q && live(m[q], now));
                    }
                    if exists|s: int|
                        0 <= s < i + 1 && (#[trigger] slots[s])@ == q && live(m[q], now) {
                        let s = choose|s: int|
                            0 <= s < i + 1 && (#[trigger] slots[s])@ == q && live(m[q], now);
                        if s < i {
                            assert(earlier.contains(q));
                        }
                    }
                }
            }
            i += 1;
        }
        proof {
            let goal = live_part(m, now);
            assert(goal.dom() =~= counted) by {
                assert forall|q: Seq<char>| goal.dom().contains(q) <==> counted.contains(q) by {
                    if m.contains_key(q) && live(m[q], now) {
                        let s = choose|s: int| 0 <= s < slots.len() && #[trigger] slots[s]@ == q;
                        assert(0 <= s < i && slots[s]@ == q && live(m[q], now));
                    }
                    if counted.contains(q) {
                        let s = choose|s: int|
                            0 <= s < i && (#[trigger] slots[s])@ == q && live(m[q], now);
                        assert(self.data@.contains_key(slots[s]@));
                    }
                }
            }
        }
        count
    }

    /// Returns the number of entries that have not expired by the present
    /// reading of the clock: what `len_at` returns for some reading of the
    /// clock.
    pub fn len(&self) -> (n: usize)
        requires
            self.wf(),
        ensures
            exists|now: u128| #[trigger] counted_at(self@, n, now),
    {
        let now = self.now();
        let n = self.len_at(now);
        proof {
            assert(counted_at(self@, n, now));
        }
        n
    }
}

} // verus!
