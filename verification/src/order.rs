//! The multi-version key order.
//!
//! An internal key pairs a user key with a version. Internal keys are ordered
//! by user key ascending and, within one user key, by version descending, so
//! that the newest version of a key comes first on a forward walk.

use vstd::prelude::*;

use crate::bytes::{
    compare_bytes, lemma_lex_asymmetric, lemma_lex_irreflexive, lemma_lex_total,
    lemma_lex_transitive, lex_lt, KeyOrder,
};

verus! {

/// The internal key `(ak, at)` sorts strictly before `(bk, bt)`.
pub open spec fn key_lt(ak: Seq<u8>, at: u64, bk: Seq<u8>, bt: u64) -> bool {
    lex_lt(ak, bk) || (ak == bk && at > bt)
}

/// The internal key `(ak, at)` sorts before `(bk, bt)` or equals it.
pub open spec fn key_le(ak: Seq<u8>, at: u64, bk: Seq<u8>, bt: u64) -> bool {
    key_lt(ak, at, bk, bt) || (ak == bk && at == bt)
}

/// What comparing the internal key `(ak, at)` with `(bk, bt)` yields.
pub open spec fn key_order(ak: Seq<u8>, at: u64, bk: Seq<u8>, bt: u64) -> KeyOrder {
    if ak == bk && at == bt {
        KeyOrder::Equal
    } else if key_lt(ak, at, bk, bt) {
        KeyOrder::Less
    } else {
        KeyOrder::Greater
    }
}

/// No internal key sorts before itself.
pub proof fn lemma_key_irreflexive(ak: Seq<u8>, at: u64)
    ensures
        !key_lt(ak, at, ak, at),
{
    lemma_lex_irreflexive(ak);
}

/// Two internal keys are never each before the other.
pub proof fn lemma_key_asymmetric(ak: Seq<u8>, at: u64, bk: Seq<u8>, bt: u64)
    requires
        key_lt(ak, at, bk, bt),
    ensures
        !key_lt(bk, bt, ak, at),
        !(ak == bk && at == bt),
{
    lemma_lex_irreflexive(ak);
    lemma_lex_irreflexive(bk);
    if lex_lt(ak, bk) {
        lemma_lex_asymmetric(ak, bk);
    }
}

/// The internal-key order is transitive.
pub proof fn lemma_key_transitive(
    ak: Seq<u8>,
    at: u64,
    bk: Seq<u8>,
    bt: u64,
    ck: Seq<u8>,
    ct: u64,
)
    requires
        key_lt(ak, at, bk, bt),
        key_lt(bk, bt, ck, ct),
    ensures
        key_lt(ak, at, ck, ct),
{
    if lex_lt(ak, bk) && lex_lt(bk, ck) {
        lemma_lex_transitive(ak, bk, ck);
    }
}

/// Any two internal keys are equal or one sorts before the other.
pub proof fn lemma_key_total(ak: Seq<u8>, at: u64, bk: Seq<u8>, bt: u64)
    ensures
        key_lt(ak, at, bk, bt) || key_lt(bk, bt, ak, at) || (ak == bk && at == bt),
{
    lemma_lex_total(ak, bk);
}

/// Compares two internal keys: user key ascending, then version descending.
pub fn compare_keys(ak: &[u8], at: u64, bk: &[u8], bt: u64) -> (r: KeyOrder)
    ensures
        r == key_order(ak@, at, bk@, bt),
        r == KeyOrder::Less <==> key_lt(ak@, at, bk@, bt),
        r == KeyOrder::Equal <==> (ak@ == bk@ && at == bt),
        r == KeyOrder::Greater <==> key_lt(bk@, bt, ak@, at),
{
    proof {
        lemma_lex_irreflexive(ak@);
        lemma_lex_irreflexive(bk@);
    }
    match compare_bytes(ak, bk) {
        KeyOrder::Less => KeyOrder::Less,
        KeyOrder::Greater => KeyOrder::Greater,
        KeyOrder::Equal => {
            if at > bt {
                KeyOrder::Less
            } else if at < bt {
                KeyOrder::Greater
            } else {
                KeyOrder::Equal
            }
        },
    }
}

} // verus!
