//! An association table from text keys to values, kept in insertion order.

use vstd::prelude::*;
use vstd::string::*;

verus! {

/// A table from text keys to values of type `V`. No key occurs twice.
pub struct Table<V> {
    keys: Vec<String>,
    values: Vec<V>,
    model: Ghost<Map<Seq<char>, V>>,
}

/// `out` lists the keys of `m`: each of its items is a key, every key is
/// among its items, and no item occurs twice.
pub open spec fn lists_keys<V>(out: Seq<String>, m: Map<Seq<char>, V>) -> bool {
    &&& forall|a: int| 0 <= a < out.len() ==> m.contains_key(#[trigger] out[a]@)
    &&& forall|k: Seq<char>| #[trigger]
        m.contains_key(k) ==> exists|a: int| 0 <= a < out.len() && #[trigger] out[a]@ == k
    &&& forall|a: int, b: int|
        0 <= a < b < out.len() ==> (#[trigger] out[a])@ != (#[trigger] out[b])@
}

impl<V> Table<V> {
    /// The table as a map from keys to values.
    pub closed spec fn view(&self) -> Map<Seq<char>, V> {
        self.model@
    }

    /// The table is well formed.
    pub closed spec fn wf(&self) -> bool {
        &&& self.keys@.len() == self.values@.len()
        &&& self.model@.dom().finite()
        &&& self.model@.dom().len() == self.keys@.len()
        &&& forall|i: int|
            0 <= i < self.keys@.len() ==> self.model@.contains_key((#[trigger] self.keys@[i])@)
                && self.model@[self.keys@[i]@] == self.values@[i]
        &&& forall|k: Seq<char>| #[trigger]
            self.model@.contains_key(k) ==> exists|i: int|
                0 <= i < self.keys@.len() && (#[trigger] self.keys@[i])@ == k
        &&& forall|i: int, j: int|
            0 <= i < j < self.keys@.len() ==> (#[trigger] self.keys@[i])@ != (
            #[trigger] self.keys@[j])@
    }

    /// Creates an empty table.
    pub fn new() -> (table: Self)
        ensures
            table.wf(),
            table@ == Map::<Seq<char>, V>::empty(),
    {
        Table { keys: Vec::new(), values: Vec::new(), model: Ghost(Map::empty()) }
    }

    /// Finds the position of `key`.
    fn find(&self, key: &str) -> (r: Option<usize>)
        requires
            self.wf(),
        ensures
            match r {
                Some(i) => i < self.keys@.len() && self.keys@[i as int]@ == key@,
                None => !self@.contains_key(key@),
            },
    {
        let target = key.to_owned();
        let mut i: usize = 0;
        while i < self.keys.len()
            invariant
                i <= self.keys@.len(),
                target@ == key@,
                forall|j: int| 0 <= j < i ==> (#[trigger] self.keys@[j])@ != key@,
            decreases self.keys@.len() - i,
        {
            if self.keys[i] == target {
                return Some(i);
            }
            i += 1;
        }
        None
    }

    /// Returns the value stored under `key`.
    pub fn get(&self, key: &str) -> (r: Option<&V>)
        requires
            self.wf(),
        ensures
            match r {
                Some(v) => self@.contains_key(key@) && *v == self@[key@],
                None => !self@.contains_key(key@),
            },
    {
        match self.find(key) {
            Some(i) => Some(&self.values[i]),
            None => None,
        }
    }

    /// Stores `value` under `key`, in place of the value stored under it
    /// before, if any.
    pub fn set(&mut self, key: String, value: V)
        requires
            old(self).wf(),
        ensures
            final(self).wf(),
            final(self)@ == old(self)@.insert(key@, value),
    {
        let ghost k = key@;
        let ghost before = self.model@;
        match self.find(key.as_str()) {
            Some(i) => {
                self.values[i] = value;
                proof {
                    self.model = Ghost(before.insert(k, value));
                    assert(before.insert(k, value).dom() =~= before.dom());
                }
            },
            None => {
                self.keys.push(key);
                self.values.push(value);
                proof {
                    self.model = Ghost(before.insert(k, value));
                    assert forall|q: Seq<char>| #[trigger]
                        self.model@.contains_key(q) implies exists|i: int|
                        0 <= i < self.keys@.len() && (#[trigger] self.keys@[i])@ == q by {
                        if q == k {
                            assert(self.keys@[self.keys@.len() - 1]@ == q);
                        } else {
                            let i = choose|i: int|
                                0 <= i < old(self).keys@.len() && (#[trigger] old(self).keys@[i])@
                                    == q;
                            assert(self.keys@[i]@ == q);
                        }
                    }
                }
            },
        }
    }

    /// Removes `key` and returns the value that was stored under it.
    pub fn remove(&mut self, key: &str) -> (r: Option<V>)
        requires
            old(self).wf(),
        ensures
            final(self).wf(),
            final(self)@ == old(self)@.remove(key@),
            match r {
                Some(v) => old(self)@.contains_key(key@) && v == old(self)@[key@],
                None => !old(self)@.contains_key(key@),
            },
    {
        let ghost before = self.model@;
        match self.find(key) {
            Some(i) => {
                self.keys.remove(i);
                let value = self.values.remove(i);
                proof {
                    self.model = Ghost(before.remove(key@));
                    assert forall|j: int| 0 <= j < self.keys@.len() implies
                        self.model@.contains_key(
                        (#[trigger] self.keys@[j])@,
                    ) && self.model@[self.keys@[j]@] == self.values@[j] by {
                        if j < i {
                            assert(self.keys@[j] == old(self).keys@[j]);
                        } else {
                            assert(self.keys@[j] == old(self).keys@[j + 1]);
                        }
                    }
                    assert forall|q: Seq<char>| #[trigger]
                        self.model@.contains_key(q) implies exists|j: int|
                        0 <= j < self.keys@.len() && (#[trigger] self.keys@[j])@ == q by {
                        let j = choose|j: int|
                            0 <= j < old(self).keys@.len() && (#[trigger] old(self).keys@[j])@ == q;
                        if j < i {
                            assert(self.keys@[j]@ == q);
                        } else {
                            assert(self.keys@[j - 1]@ == q);
                        }
                    }
                    assert forall|a: int, b: int| 0 <= a < b < self.keys@.len() implies (
                    #[trigger] self.keys@[a])@ != (#[trigger] self.keys@[b])@ by {
                        let oa = if a < i {
                            a
                        } else {
                            a + 1
                        };
                        let ob = if b < i {
                            b
                        } else {
                            b + 1
                        };
                        assert(old(self).keys@[oa]@ != old(self).keys@[ob]@);
                    }
                }
                Some(value)
            },
            None => {
                proof {
                    assert(before.remove(key@) =~= before);
                }
                None
            },
        }
    }

    /// Returns the number of keys.
    pub fn len(&self) -> (n: usize)
        requires
            self.wf(),
        ensures
            n == self@.len(),
            n == self@.dom().len(),
            n == self.slot_keys().len(),
    {
        self.keys.len()
    }

    /// The keys in the order of their slots, which is the order in which
    /// they were first stored.
    pub closed spec fn slot_keys(&self) -> Seq<String> {
        self.keys@
    }

    /// Returns the key in slot `i`.
    pub fn key_at(&self, i: usize) -> (key: &String)
        requires
            self.wf(),
            i < self.slot_keys().len(),
        ensures
            *key == self.slot_keys()[i as int],
            self@.contains_key(key@),
    {
        &self.keys[i]
    }

    /// Returns the value in slot `i`.
    pub fn value_at(&self, i: usize) -> (value: &V)
        requires
            self.wf(),
            i < self.slot_keys().len(),
        ensures
            *value == self@[self.slot_keys()[i as int]@],
    {
        &self.values[i]
    }

    /// The slots list the keys of the table.
    pub proof fn lemma_slots(&self)
        requires
            self.wf(),
        ensures
            lists_keys(self.slot_keys(), self@),
    {
    }
}

} // verus!
