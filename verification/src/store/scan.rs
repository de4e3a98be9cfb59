//! A store from text keys to text values that lists its keys by prefix.

use vstd::prelude::*;
use vstd::string::*;
use vstd::utf8::*;

use crate::bytes::{
    compare_bytes, is_prefix, lemma_lex_total, lemma_lex_transitive, lex_lt, starts_with_bytes,
    KeyOrder,
};
use crate::store::key_value::{lemma_texts_insert, texts};
use crate::store::table::{lists_keys, Table};

verus! {

/// The key `k` starts with `prefix`, byte for byte in UTF-8.
pub open spec fn has_prefix(k: Seq<char>, prefix: Seq<char>) -> bool {
    is_prefix(encode_utf8(prefix), encode_utf8(k))
}

/// The key `a` sorts strictly before the key `b`, by their bytes in UTF-8.
pub open spec fn text_lt(a: Seq<char>, b: Seq<char>) -> bool {
    lex_lt(encode_utf8(a), encode_utf8(b))
}

/// `out` is the result of scanning the keys of `m` for `prefix`: every item
/// is a key with the prefix, every key with the prefix is an item, and the
/// items are strictly ascending.
pub open spec fn prefix_scan_of(
    out: Seq<String>,
    m: Map<Seq<char>, Seq<char>>,
    prefix: Seq<char>,
) -> bool {
    &&& forall|a: int|
        0 <= a < out.len() ==> m.contains_key(#[trigger] out[a]@) && has_prefix(out[a]@, prefix)
    &&& forall|k: Seq<char>| #[trigger]
        m.contains_key(k) && has_prefix(k, prefix) ==> exists|a: int|
            0 <= a < out.len() && #[trigger] out[a]@ == k
    &&& forall|a: int, b: int|
        0 <= a < b < out.len() ==> text_lt((#[trigger] out[a])@, (#[trigger] out[b])@)
}

/// Two texts with the same bytes in UTF-8 are the same text.
pub proof fn lemma_bytes_tell_texts_apart(a: Seq<char>, b: Seq<char>)
    requires
        encode_utf8(a) == encode_utf8(b),
    ensures
        a == b,
{
    encode_utf8_decode_utf8(a);
    encode_utf8_decode_utf8(b);
}

/// A key-value store over text with prefix scans.
pub struct ScanableStore {
    data: Table<String>,
}

impl ScanableStore {
    /// The store as a map from keys to values.
    pub closed spec fn view(&self) -> Map<Seq<char>, Seq<char>> {
        texts(self.data@)
    }

    /// The store is well formed.
    pub closed spec fn wf(&self) -> bool {
        self.data.wf()
    }

    /// Creates an empty store.
    pub fn new() -> (store: Self)
        ensures
            store.wf(),
            store@ == Map::<Seq<char>, Seq<char>>::empty(),
    {
        let store = ScanableStore { data: Table::new() };
        proof {
            assert(store@ =~= Map::<Seq<char>, Seq<char>>::empty());
        }
        store
    }

    /// Stores `value` under `key`, in place of any value stored under it
    /// before.
    pub fn set(&mut self, key: String, value: String)
        requires
            old(self).wf(),
        ensures
            final(self).wf(),
            final(self)@ == old(self)@.insert(key@, value@),
    {
        proof {
            lemma_texts_insert(self.data@, key@, value);
        }
        self.data.set(key, value);
    }

    /// Returns a copy of the value stored under `key`.
    pub fn get(&self, key: &str) -> (r: Option<String>)
        requires
            self.wf(),
        ensures
            match r {
                Some(v) => self@.contains_key(key@) && v@ == self@[key@],
                None => !self@.contains_key(key@),
            },
    {
        match self.data.get(key) {
            Some(v) => Some(v.clone()),
            None => None,
        }
    }

    /// Returns the keys that start with `prefix`, in ascending order of
    /// their bytes.
    pub fn scan_prefix(&self, prefix: &str) -> (out: Vec<String>)
        requires
            self.wf(),
        ensures
            prefix_scan_of(out@, self@, prefix@),
    {
        let mut out: Vec<String> = Vec::new();
        let n = self.data.len();
        let ghost slots = self.data.slot_keys();
        let ghost picked: Seq<int> = Seq::empty();
        proof {
            self.data.lemma_slots();
            assert(self@.dom() =~= self.data@.dom());
        }
        let mut i: usize = 0;
        while i < n
            invariant
                i <= n,
                n == slots.len(),
                self.wf(),
                slots == self.data.slot_keys(),
                lists_keys(slots, self.data@),
                picked.len() == out@.len(),
                forall|a: int|
                    0 <= a < out@.len() ==> 0 <= (#[trigger] picked[a]) < i && out@[a]@
                        == slots[picked[a]]@ && has_prefix(out@[a]@, prefix@),
                forall|s: int|
                    0 <= s < i && has_prefix((#[trigger] slots[s])@, prefix@) ==> exists|a: int|
                        0 <= a < out@.len() && #[trigger] picked[a] == s,
                forall|a: int, b: int|
                    0 <= a < b < out@.len() ==> text_lt((#[trigger] out@[a])@,
                        (#[trigger] out@[b])@),
            decreases n - i,
        {
            let key = self.data.key_at(i);
            if starts_with_bytes(key.as_str().as_bytes(), prefix.as_bytes()) {
                let ghost kb = encode_utf8(key@);
                let mut p: usize = 0;
                let mut placed = false;
                while p < out.len() && !placed
                    invariant
                        p <= out@.len(),
                        kb == encode_utf8(key@),
                        forall|a: int| 0 <= a < p ==> text_lt((#[trigger] out@[a])@, key@),
                        placed ==> p < out@.len() && !text_lt(out@[p as int]@, key@),
                    decreases out@.len() - p,
                            if placed {
                                0int
                            } else {
                                1int
                            },
                {
                    match compare_bytes(out[p].as_str().as_bytes(), key.as_str().as_bytes()) {
                        KeyOrder::Less => {
                            p += 1;
                        },
                        _ => {
                            placed = true;
                        },
                    }
                }
                let ghost before = out@;
                let ghost earlier = picked;
                let copy = key.clone();
                out.insert(p, copy);
                proof {
                    picked = earlier.insert(p as int, i as int);
                    assert forall|a: int| 0 <= a < out@.len() implies 0 <= (#[trigger] picked[a])
                        < i + 1 && out@[a]@ == slots[picked[a]]@ && has_prefix(
                        out@[a]@,
                        prefix@,
                    ) by {
                        if a < p {
                            assert(out@[a] == before[a] && picked[a] == earlier[a]);
                        } else if a > p {
                            assert(out@[a] == before[a - 1] && picked[a] == earlier[a - 1]);
                        }
                    }
                    assert forall|s: int|
                        0 <= s < i + 1 && has_prefix(
                            (#[trigger] slots[s])@,
                            prefix@,
                        ) implies exists|a: int|
                        0 <= a < out@.len() && #[trigger] picked[a] == s by {
                        if s == i {
                            assert(picked[p as int] == s);
                        } else {
                            let a = choose|a: int| 0 <= a < before.len() &&
                                #[trigger] earlier[a] == s;
                            if a < p {
                                assert(picked[a] == s);
                            } else {
                                assert(picked[a + 1] == s);
                            }
                        }
                    }
                    // Every item from `p` on sorts after the key: it does not
                    // sort before it, and it is another key.
                    assert forall|a: int| p <= a < before.len() implies text_lt(
                        key@,
                        (#[trigger] before[a])@,
                    ) by {
                        let first = before[p as int]@;
                        assert(earlier[p as int] < i);
                        assert(slots[earlier[p as int]]@ != slots[i as int]@);
                        if encode_utf8(first) == kb {
                            lemma_bytes_tell_texts_apart(first, key@);
                        }
                        lemma_lex_total(encode_utf8(first), kb);
                        if a > p {
                            assert(text_lt(before[p as int]@, before[a]@));
                            lemma_lex_transitive(kb, encode_utf8(first), encode_utf8(before[a]@));
                        }
                    }
                    assert forall|a: int, b: int| 0 <= a < b < out@.len() implies text_lt(
                        (#[trigger] out@[a])@,
                        (#[trigger] out@[b])@,
                    ) by {
                        let oa = if a < p {
                            a
                        } else {
                            a - 1
                        };
                        let ob = if b < p {
                            b
                        } else {
                            b - 1
                        };
                        if a == p {
                            assert(out@[b] == before[ob]);
                        } else if b == p {
                            assert(out@[a] == before[oa]);
                        } else {
                            assert(out@[a] == before[oa] && out@[b] == before[ob]);
                        }
                    }
                }
            }
            i += 1;
        }
        proof {
            assert(self@.dom() =~= self.data@.dom());
            assert forall|a: int| 0 <= a < out@.len() implies self@.contains_key(
                #[trigger] out@[a]@,
            ) && has_prefix(out@[a]@, prefix@) by {
                assert(self.data@.contains_key(slots[picked[a]]@));
            }
            assert forall|k: Seq<char>| #[trigger]
                self@.contains_key(k) && has_prefix(k, prefix@) implies exists|a: int|
                0 <= a < out@.len() && #[trigger] out@[a]@ == k by {
                assert(self.data@.contains_key(k));
                let s = choose|s: int| 0 <= s < slots.len() && #[trigger] slots[s]@ == k;
                let a = choose|a: int| 0 <= a < out@.len() && #[trigger] picked[a] == s;
                assert(out@[a]@ == k);
            }
        }
        out
    }

    /// Returns the keys of the store, in the order in which they were first
    /// stored.
    pub fn keys(&self) -> (out: Vec<String>)
        requires
            self.wf(),
        ensures
            lists_keys(out@, self@),
            out@.len() == self@.len(),
    {
        let mut out: Vec<String> = Vec::new();
        let n = self.data.len();
        let ghost slots = self.data.slot_keys();
        proof {
            self.data.lemma_slots();
            assert(self@.dom() =~= self.data@.dom());
        }
        let mut i: usize = 0;
        while i < n
            invariant
                i <= n,
                n == slots.len(),
                self.wf(),
                slots == self.data.slot_keys(),
                out@.len() == i,
                forall|a: int| 0 <= a < i ==> (#[trigger] out@[a])@ == slots[a]@,
            decreases n - i,
        {
            out.push(self.data.key_at(i).clone());
            i += 1;
        }
        proof {
            self.data.lemma_slots();
            assert(self@.dom() =~= self.data@.dom());
            assert forall|a: int| 0 <= a < out@.len() implies self@.contains_key(
                #[trigger] out@[a]@,
            ) by {
                assert(self.data@.contains_key(slots[a]@));
            }
            assert forall|k: Seq<char>| #[trigger] self@.contains_key(k) implies exists|a: int|
                0 <= a < out@.len() && #[trigger] out@[a]@ == k by {
                assert(self.data@.contains_key(k));
                let s = choose|s: int| 0 <= s < slots.len() && #[trigger] slots[s]@ == k;
                assert(out@[s]@ == k);
            }
            assert forall|a: int, b: int| 0 <= a < b < out@.len() implies (#[trigger] out@[a])@ != (
            #[trigger] out@[b])@ by {
                assert(slots[a]@ != slots[b]@);
            }
        }
        out
    }

    /// Returns the number of keys stored.
    pub fn len(&self) -> (n: usize)
        requires
            self.wf(),
        ensures
            n == self@.len(),
    {
        proof {
            assert(self@.dom() =~= self.data@.dom());
        }
        self.data.len()
    }
}

} // verus!
