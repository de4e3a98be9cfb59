//! A store whose keys are matched without regard to letter case.

use vstd::prelude::*;
use vstd::string::*;

use crate::store::table::{lists_keys, Table};

verus! {

/// The lowercase form of a text.
pub uninterp spec fn lowercase_of(s: Seq<char>) -> Seq<char>;

/// Puts a text in lowercase with `str::to_lowercase`, which maps each
/// character by the Unicode lowercase mapping; the result depends on the
/// text alone.
#[verifier::external_body]
fn lowercase(s: &str) -> (r: String)
    ensures
        r@ == lowercase_of(s@),
{
    s.to_lowercase()
}

struct CasedValue {
    value: String,
    original_key: String,
}

/// What a stored entry stands for: the value, and the key as it was last
/// written.
pub struct Cased {
    pub value: Seq<char>,
    pub original_key: Seq<char>,
}

spec fn cased(m: Map<Seq<char>, CasedValue>) -> Map<Seq<char>, Cased> {
    m.map_values(|c: CasedValue| Cased { value: c.value@, original_key: c.original_key@ })
}

/// Some entry of `m` was last written under the key `text`.
pub open spec fn is_original_key(m: Map<Seq<char>, Cased>, text: Seq<char>) -> bool {
    exists|k: Seq<char>| #[trigger] m.contains_key(k) && m[k].original_key == text
}

/// `out` lists the keys of the entries of `m` as they were written: one
/// item for each entry.
pub open spec fn lists_original_keys(out: Seq<String>, m: Map<Seq<char>, Cased>) -> bool {
    &&& out.len() == m.len()
    &&& forall|a: int| 0 <= a < out.len() ==> is_original_key(m, (#[trigger] out[a])@)
    &&& forall|k: Seq<char>| #[trigger]
        m.contains_key(k) ==> exists|a: int|
            0 <= a < out.len() && (#[trigger] out[a])@ == m[k].original_key
}

/// A key-value store over text whose keys match without regard to case.
/// Entries are kept under the lowercase form of their key.
pub struct CaseInsensitiveStore {
    data: Table<CasedValue>,
}

impl CaseInsensitiveStore {
    /// The store as a map from lowercase keys to entries.
    pub closed spec fn view(&self) -> Map<Seq<char>, Cased> {
        cased(self.data@)
    }

    /// The store is well formed.
    pub closed spec fn wf(&self) -> bool {
        self.data.wf()
    }

    /// Creates an empty store.
    pub fn new() -> (store: Self)
        ensures
            store.wf(),
            store@ == Map::<Seq<char>, Cased>::empty(),
    {
        let store = CaseInsensitiveStore { data: Table::new() };
        proof {
            assert(store@ =~= Map::<Seq<char>, Cased>::empty());
        }
        store
    }

    /// Stores `value` under `key`, in place of any entry whose key differs
    /// from `key` in case only. The key is remembered as written.
    pub fn set(&mut self, key: String, value: String)
        requires
            old(self).wf(),
        ensures
            final(self).wf(),
            final(self)@ == old(self)@.insert(
                lowercase_of(key@),
                Cased { value: value@, original_key: key@ },
            ),
    {
        let normalized = lowercase(key.as_str());
        self.set_normalized(normalized, key, value);
    }

    /// Stores `value` under the normalized key `normalized`, in place of
    /// any entry stored under it, and remembers `key` as the key written.
    pub fn set_normalized(&mut self, normalized: String, key: String, value: String)
        requires
            old(self).wf(),
        ensures
            final(self).wf(),
            final(self)@ == old(self)@.insert(
                normalized@,
                Cased { value: value@, original_key: key@ },
            ),
    {
        let entry = CasedValue { value, original_key: key };
        proof {
            assert(cased(self.data@.insert(normalized@, entry)) =~= cased(self.data@).insert(
                normalized@,
                Cased { value: entry.value@, original_key: entry.original_key@ },
            ));
        }
        self.data.set(normalized, entry);
    }

    /// Returns a copy of the value stored under a key that matches `key`
    /// without regard to case.
    pub fn get(&self, key: &str) -> (r: Option<String>)
        requires
            self.wf(),
        ensures
            match r {
                Some(v) => self@.contains_key(lowercase_of(key@)) && v@
                    == self@[lowercase_of(key@)].value,
                None => !self@.contains_key(lowercase_of(key@)),
            },
    {
        let normalized = lowercase(key);
        self.get_normalized(normalized.as_str())
    }

    /// Returns a copy of the value stored under the normalized key
    /// `normalized`.
    pub fn get_normalized(&self, normalized: &str) -> (r: Option<String>)
        requires
            self.wf(),
        ensures
            match r {
                Some(v) => self@.contains_key(normalized@) && v@ == self@[normalized@].value,
                None => !self@.contains_key(normalized@),
            },
    {
        match self.data.get(normalized) {
            Some(entry) => Some(entry.value.clone()),
            None => None,
        }
    }

    /// Returns the keys as they were last written, one for each entry.
    pub fn keys(&self) -> (out: Vec<String>)
        requires
            self.wf(),
        ensures
            lists_original_keys(out@, self@),
    {
        let mut out: Vec<String> = Vec::new();
        let n = self.data.len();
        let ghost slots = self.data.slot_keys();
        proof {
            self.data.lemma_slots();
            assert(self@.dom() =~= self.data@.dom());
        }
        let mut i: usize = 0;
        while i < n
            invariant
                i <= n,
                n == slots.len(),
                self.wf(),
                slots == self.data.slot_keys(),
                out@.len() == i,
                lists_keys(slots, self.data@),
                forall|a: int|
                    0 <= a < i ==> (#[trigger] out@[a])@ == self.data@[slots[a]@].original_key@,
            decreases n - i,
        {
            out.push(self.data.value_at(i).original_key.clone());
            i += 1;
        }
        proof {
            self.data.lemma_slots();
            assert(self@.dom() =~= self.data@.dom());
            let m = self@;
            assert forall|a: int| 0 <= a < out@.len() implies is_original_key(
                m,
                (#[trigger] out@[a])@,
            ) by {
                let k = slots[a]@;
                assert(self.data@.contains_key(k));
                assert(m.contains_key(k) && m[k].original_key == out@[a]@);
            }
            assert forall|k: Seq<char>| #[trigger] m.contains_key(k) implies exists|a: int|
                0 <= a < out@.len() && (#[trigger] out@[a])@ == m[k].original_key by {
                assert(self.data@.contains_key(k));
                let s = choose|s: int| 0 <= s < slots.len() && #[trigger] slots[s]@ == k;
                assert(out@[s]@ == m[k].original_key);
            }
        }
        out
    }

    /// Removes the entry whose key matches `key` without regard to case and
    /// returns its value.
    pub fn delete(&mut self, key: &str) -> (r: Option<String>)
        requires
            old(self).wf(),
        ensures
            final(self).wf(),
            final(self)@ == old(self)@.remove(lowercase_of(key@)),
            match r {
                Some(v) => old(self)@.contains_key(lowercase_of(key@)) && v@
                    == old(self)@[lowercase_of(key@)].value,
                None => !old(self)@.contains_key(lowercase_of(key@)),
            },
    {
        let normalized = lowercase(key);
        self.delete_normalized(normalized.as_str())
    }

    /// Removes the entry stored under the normalized key `normalized` and
    /// returns its value.
    pub fn delete_normalized(&mut self, normalized: &str) -> (r: Option<String>)
        requires
            old(self).wf(),
        ensures
            final(self).wf(),
            final(self)@ == old(self)@.remove(normalized@),
            match r {
                Some(v) => old(self)@.contains_key(normalized@) && v@
                    == old(self)@[normalized@].value,
                None => !old(self)@.contains_key(normalized@),
            },
    {
        proof {
            assert(cased(self.data@.remove(normalized@)) =~= cased(self.data@).remove(normalized@));
        }
        match self.data.remove(normalized) {
            Some(entry) => Some(entry.value),
            None => None,
        }
    }

    /// Returns the number of entries.
    pub fn len(&self) -> (n: usize)
        requires
            self.wf(),
        ensures
            n == self@.len(),
    {
        proof {
            assert(self@.dom() =~= self.data@.dom());
        }
        self.data.len()
    }
}

} // verus!
