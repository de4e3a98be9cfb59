//! Little-endian integer fields inside byte buffers.

use vstd::bytes::*;
use vstd::prelude::*;
use vstd::slice::*;

use crate::bytes::append_bytes;

verus! {

/// The low 32 bits of a length, as the 32-bit length fields store it.
pub open spec fn low_u32(n: int) -> u32 {
    (n % 0x1_0000_0000) as u32
}

/// The 32-bit little-endian integer stored in `b` at `pos`.
pub open spec fn le_u32_at(b: Seq<u8>, pos: int) -> u32 {
    spec_u32_from_le_bytes(b.subrange(pos, pos + 4))
}

/// The 64-bit little-endian integer stored in `b` at `pos`.
pub open spec fn le_u64_at(b: Seq<u8>, pos: int) -> u64 {
    spec_u64_from_le_bytes(b.subrange(pos, pos + 8))
}

/// A 32-bit field written after `pre` reads back as what was written.
pub proof fn lemma_le_u32_round_trip(pre: Seq<u8>, x: u32, post: Seq<u8>)
    ensures
        spec_u32_to_le_bytes(x).len() == 4,
        le_u32_at(pre + spec_u32_to_le_bytes(x) + post, pre.len() as int) == x,
{
    lemma_auto_spec_u32_to_from_le_bytes();
    let whole = pre + spec_u32_to_le_bytes(x) + post;
    assert(whole.subrange(pre.len() as int, pre.len() as int + 4) =~= spec_u32_to_le_bytes(x));
}

/// Two four-byte fields that decode to the same integer hold the same bytes.
pub proof fn lemma_le_u32_injective(s: Seq<u8>, t: Seq<u8>)
    requires
        s.len() == 4,
        t.len() == 4,
        spec_u32_from_le_bytes(s) == spec_u32_from_le_bytes(t),
    ensures
        s == t,
{
    lemma_auto_spec_u32_to_from_le_bytes();
    assert(spec_u32_to_le_bytes(spec_u32_from_le_bytes(s)) == s);
    assert(spec_u32_to_le_bytes(spec_u32_from_le_bytes(t)) == t);
}

/// Reduces a length to the 32 bits that a length field holds.
pub fn length_field(n: usize) -> (x: u32)
    ensures
        x == low_u32(n as int),
        n <= u32::MAX ==> x == n,
{
    let wide: u64 = n as u64;
    (wide % 0x1_0000_0000u64) as u32
}

/// Reads the 32-bit little-endian integer at `pos`.
pub fn read_u32_le(data: &[u8], pos: usize) -> (x: u32)
    requires
        pos + 4 <= data@.len(),
    ensures
        x == le_u32_at(data@, pos as int),
{
    let n = data.len();
    assert(pos + 4 <= n);
    u32_from_le_bytes(slice_subrange(data, pos, pos + 4))
}

/// Reads the 64-bit little-endian integer at `pos`.
pub fn read_u64_le(data: &[u8], pos: usize) -> (x: u64)
    requires
        pos + 8 <= data@.len(),
    ensures
        x == le_u64_at(data@, pos as int),
{
    let n = data.len();
    assert(pos + 8 <= n);
    u64_from_le_bytes(slice_subrange(data, pos, pos + 8))
}

/// Appends `x` as four little-endian bytes.
pub fn put_u32_le(out: &mut Vec<u8>, x: u32)
    ensures
        final(out)@ == old(out)@ + spec_u32_to_le_bytes(x),
        final(out)@.len() == old(out)@.len() + 4,
{
    let field = u32_to_le_bytes(x);
    append_bytes(out, field.as_slice());
}

/// Appends `x` as eight little-endian bytes.
pub fn put_u64_le(out: &mut Vec<u8>, x: u64)
    ensures
        final(out)@ == old(out)@ + spec_u64_to_le_bytes(x),
        final(out)@.len() == old(out)@.len() + 8,
{
    let field = u64_to_le_bytes(x);
    append_bytes(out, field.as_slice());
}

} // verus!
