//! The key of a table entry: a user key with the version it was written at.

use core::cmp::Ordering;
use vstd::prelude::*;
use vstd::std_specs::cmp::PartialOrdSpecImpl;
use vstd::string::*;

use crate::bytes::KeyOrder;
use crate::order::{compare_keys, key_order};
use crate::text::{decimal, decimal_digits, lossy_text, utf8_lossy};
use crate::types::{Key, Timestamp};

verus! {

/// A user key with its version. Keys are ordered by user key ascending and,
/// within one user key, by version descending.
#[derive(Debug, Clone, PartialEq, Eq)]
pub struct InternalKey {
    pub user_key: Key,
    pub timestamp: Timestamp,
}

/// The text shown for an internal key: the user key read as text, an at
/// sign, the version in decimal.
pub open spec fn key_text(user_key: Seq<u8>, timestamp: u64) -> Seq<char> {
    utf8_lossy(user_key) + seq!['@'] + decimal_digits(timestamp as nat)
}

impl InternalKey {
    /// Creates a new internal key.
    pub fn new(user_key: Key, timestamp: Timestamp) -> (key: Self)
        ensures
            key.user_key == user_key,
            key.timestamp == timestamp,
    {
        InternalKey { user_key, timestamp }
    }

    /// Returns the serialized size of this key: the length field, the
    /// version and the key bytes.
    pub fn serialized_size(&self) -> (n: usize)
        requires
            self.user_key@.len() + 12 <= usize::MAX,
        ensures
            n == 4 + 8 + self.user_key@.len(),
    {
        4 + 8 + self.user_key.len()
    }

    /// Compares this key with `other` in internal-key order.
    pub fn compare(&self, other: &Self) -> (r: KeyOrder)
        ensures
            r == key_order(self.user_key@, self.timestamp, other.user_key@, other.timestamp),
    {
        compare_keys(
            self.user_key.as_slice(),
            self.timestamp,
            other.user_key.as_slice(),
            other.timestamp,
        )
    }

    /// Copies the key.
    pub fn duplicate(&self) -> (key: Self)
        ensures
            key.user_key@ == self.user_key@,
            key.timestamp == self.timestamp,
    {
        InternalKey {
            user_key: crate::bytes::copy_bytes(self.user_key.as_slice()),
            timestamp: self.timestamp,
        }
    }

    /// Shows the key as text: the user key, an at sign, the version.
    pub fn to_string(&self) -> (s: String)
        ensures
            s@ == key_text(self.user_key@, self.timestamp),
    {
        label(lossy_text(self.user_key.as_slice()), self.timestamp)
    }
}

/// Shows a user key, given as text, with a version: the text, an at sign,
/// the version in decimal.
pub fn label(user_key: String, timestamp: Timestamp) -> (s: String)
    ensures
        s@ == user_key@ + seq!['@'] + decimal_digits(timestamp as nat),
{
    let mut s = user_key;
    proof {
        reveal_strlit("@");
        assert("@"@ =~= seq!['@']);
    }
    s.append("@");
    let digits = decimal(timestamp);
    s.append(digits.as_str());
    s
}

impl PartialOrd for InternalKey {
    fn partial_cmp(&self, other: &Self) -> (r: Option<Ordering>) {
        match self.compare(other) {
            KeyOrder::Less => Some(Ordering::Less),
            KeyOrder::Equal => Some(Ordering::Equal),
            KeyOrder::Greater => Some(Ordering::Greater),
        }
    }
}

impl PartialOrdSpecImpl for InternalKey {
    open spec fn obeys_partial_cmp_spec() -> bool {
        true
    }

    open spec fn partial_cmp_spec(&self, other: &Self) -> Option<Ordering> {
        match key_order(self.user_key@, self.timestamp, other.user_key@, other.timestamp) {
            KeyOrder::Less => Some(Ordering::Less),
            KeyOrder::Equal => Some(Ordering::Equal),
            KeyOrder::Greater => Some(Ordering::Greater),
        }
    }
}

} // verus!
