//! Write-ahead log records and their framing.
//!
//! A record is laid out as
//!
//! ```text
//! length: u32 LE    bytes that follow the length field
//! crc32:  u32 LE    CRC-32 over the bytes after this field
//! version: u64 LE
//! op:     u8        1 = Put, 2 = Delete
//! key_len: u32 LE
//! key
//! val_len: u32 LE
//! value
//! ```

use vstd::bytes::*;
use vstd::prelude::*;
use vstd::slice::*;
use vstd::string::*;

use crate::bytes::{append_bytes, copy_bytes};
use crate::codec::{
    le_u32_at, le_u64_at, lemma_le_u32_injective, length_field, low_u32, put_u32_le, put_u64_le,
    read_u32_le, read_u64_le,
};
use crate::error::{Error, Result};
use crate::types::{Key, Operation, Timestamp, Value};

verus! {

/// The CRC-32 checksum (IEEE polynomial) of a byte string.
pub uninterp spec fn crc32_ieee(data: Seq<u8>) -> u32;

/// Computes the checksum of `data` with `crc32fast::hash`, which returns the
/// CRC-32 (IEEE) of the whole slice; the result depends on the bytes alone.
#[verifier::external_body]
pub(crate) fn checksum(data: &[u8]) -> (sum: u32)
    ensures
        sum == crc32_ieee(data@),
{
    crc32fast::hash(data)
}

/// An entry in the write-ahead log: one operation with its key, value and
/// version.
#[derive(Debug, Clone, PartialEq, Eq)]
pub struct WALEntry {
    /// Version at which this operation occurred.
    pub timestamp: Timestamp,
    /// Type of operation.
    pub operation: Operation,
    /// The key being operated on.
    pub key: Key,
    /// The value; empty for deletions.
    pub value: Value,
}

/// The mathematical content of a log record.
pub struct WalRecord {
    pub timestamp: u64,
    pub operation: Operation,
    pub key: Seq<u8>,
    pub value: Seq<u8>,
}

impl View for WALEntry {
    type V = WalRecord;

    open spec fn view(&self) -> WalRecord {
        WalRecord {
            timestamp: self.timestamp,
            operation: self.operation,
            key: self.key@,
            value: self.value@,
        }
    }
}

/// The byte that stands for an operation in a log record.
pub open spec fn wal_op_byte(op: Operation) -> u8 {
    match op {
        Operation::Put => 1,
        Operation::Delete => 2,
    }
}

/// The part of an encoded record that the checksum covers.
pub open spec fn encode_body(r: WalRecord) -> Seq<u8> {
    spec_u64_to_le_bytes(r.timestamp) + seq![wal_op_byte(r.operation)] + spec_u32_to_le_bytes(
        low_u32(r.key.len() as int),
    ) + r.key + spec_u32_to_le_bytes(low_u32(r.value.len() as int)) + r.value
}

/// The bytes of a frame around `body` that carries the checksum `sum`:
/// length, checksum, body.
pub open spec fn frame_bytes(body: Seq<u8>, sum: u32) -> Seq<u8> {
    spec_u32_to_le_bytes(low_u32(body.len() as int + 4)) + spec_u32_to_le_bytes(sum) + body
}

/// The bytes of an encoded record: the frame around its body, with the
/// checksum of the body.
pub open spec fn encode_record(r: WalRecord) -> Seq<u8> {
    frame_bytes(encode_body(r), crc32_ieee(encode_body(r)))
}

/// The number of bytes that a record occupies once encoded.
pub open spec fn encoded_len(r: WalRecord) -> nat {
    25 + r.key.len() + r.value.len()
}

/// A record whose encoding reads back: its three length fields hold the
/// lengths themselves.
pub open spec fn encodable(r: WalRecord) -> bool {
    21 + r.key.len() + r.value.len() <= u32::MAX
}

/// What decoding a buffer yields when the bytes after its checksum field
/// have the checksum `sum`: the record, or the reason why the buffer is
/// rejected as corrupt.
pub open spec fn decode_with(b: Seq<u8>, sum: u32) -> core::result::Result<WalRecord, Seq<char>> {
    if b.len() < 8 {
        Err("WAL entry too small"@)
    } else if b.len() != le_u32_at(b, 0) + 4 {
        Err("WAL entry length mismatch"@)
    } else if le_u32_at(b, 4) != sum {
        Err("WAL entry checksum mismatch"@)
    } else if b.len() < 17 {
        Err("WAL entry too small"@)
    } else if b[16] != 1 && b[16] != 2 {
        Err("Invalid operation type"@)
    } else if b.len() < 21 || b.len() - 21 < le_u32_at(b, 17) {
        Err("Key length exceeds data"@)
    } else {
        let k = le_u32_at(b, 17) as int;
        if b.len() - 21 - k < 4 || b.len() - 25 - k < le_u32_at(b, 21 + k) {
            Err("Value length exceeds data"@)
        } else {
            let v = le_u32_at(b, 21 + k) as int;
            Ok(
                WalRecord {
                    timestamp: le_u64_at(b, 8),
                    operation: if b[16] == 1 {
                        Operation::Put
                    } else {
                        Operation::Delete
                    },
                    key: b.subrange(21, 21 + k),
                    value: b.subrange(25 + k, 25 + k + v),
                },
            )
        }
    }
}

/// The bytes of a buffer that its checksum covers: those after the first
/// eight.
pub open spec fn covered(b: Seq<u8>) -> Seq<u8> {
    if b.len() < 8 {
        Seq::<u8>::empty()
    } else {
        b.subrange(8, b.len() as int)
    }
}

/// What decoding a buffer yields: the record, or the reason why the buffer
/// is rejected as corrupt.
pub open spec fn decode_record(b: Seq<u8>) -> core::result::Result<WalRecord, Seq<char>> {
    decode_with(b, crc32_ieee(covered(b)))
}

/// The fields of an encoded record lie where the layout places them.
proof fn lemma_encoded_layout(r: WalRecord)
    requires
        encodable(r),
    ensures
        ({
            let b = encode_record(r);
            let k = r.key.len() as int;
            let v = r.value.len() as int;
            &&& b.len() == 25 + k + v
            &&& le_u32_at(b, 0) == 21 + k + v
            &&& le_u32_at(b, 4) == crc32_ieee(encode_body(r))
            &&& b.subrange(8, b.len() as int) == encode_body(r)
            &&& le_u64_at(b, 8) == r.timestamp
            &&& b[16] == wal_op_byte(r.operation)
            &&& le_u32_at(b, 17) == k
            &&& b.subrange(21, 21 + k) == r.key
            &&& le_u32_at(b, 21 + k) == v
            &&& b.subrange(25 + k, 25 + k + v) == r.value
        }),
{
    lemma_auto_spec_u32_to_from_le_bytes();
    lemma_auto_spec_u64_to_from_le_bytes();
    let b = encode_record(r);
    let body = encode_body(r);
    let k = r.key.len() as int;
    let v = r.value.len() as int;
    let total = low_u32(body.len() as int + 4);
    let l = spec_u32_to_le_bytes(total);
    let c = spec_u32_to_le_bytes(crc32_ieee(body));
    let t = spec_u64_to_le_bytes(r.timestamp);
    let kl = spec_u32_to_le_bytes(low_u32(k));
    let vl = spec_u32_to_le_bytes(low_u32(v));
    assert(l.len() == 4 && c.len() == 4 && t.len() == 8 && kl.len() == 4 && vl.len() == 4);
    assert(body.len() == 17 + k + v);
    assert(b.len() == 25 + k + v);
    assert(total == 21 + k + v);
    assert(low_u32(k) == k);
    assert(low_u32(v) == v);
    assert(b.subrange(0, 4) =~= l);
    assert(b.subrange(4, 8) =~= c);
    assert(b.subrange(8, b.len() as int) =~= body);
    assert(b.subrange(8, 16) =~= t);
    assert(b.subrange(17, 21) =~= kl);
    assert(b.subrange(21, 21 + k) =~= r.key);
    assert(b.subrange(21 + k, 25 + k) =~= vl);
    assert(b.subrange(25 + k, 25 + k + v) =~= r.value);
}

/// An encodable record takes `encoded_len` bytes, and its length prefix
/// counts the bytes after it.
pub proof fn lemma_encoded_size(r: WalRecord)
    requires
        encodable(r),
    ensures
        encode_record(r).len() == encoded_len(r),
        le_u32_at(encode_record(r), 0) + 4 == encoded_len(r),
{
    lemma_encoded_layout(r);
}

/// Decoding the encoding of a record yields that record, whenever the
/// record's lengths fit their 32-bit fields.
pub proof fn lemma_decode_encode(r: WalRecord)
    requires
        encodable(r),
    ensures
        decode_record(encode_record(r)) == Ok::<WalRecord, Seq<char>>(r),
{
    lemma_encoded_layout(r);
    let b = encode_record(r);
    let d = decode_record(b);
    assert(d is Ok);
    assert(d->Ok_0.key == r.key);
    assert(d->Ok_0.value == r.value);
    assert(d->Ok_0.operation == r.operation);
    assert(d->Ok_0.timestamp == r.timestamp);
}

/// Replacing one byte of an encoded record, past the length prefix, by a
/// different byte makes decoding fail on the checksum. For a byte of the
/// stored checksum this holds outright; for a byte of the covered body it
/// holds whenever the checksum tells the two bodies apart.
pub proof fn lemma_mutation_detected(r: WalRecord, i: int, x: u8)
    requires
        encodable(r),
        4 <= i < encode_record(r).len(),
        x != encode_record(r)[i],
        i >= 8 ==> crc32_ieee(encode_body(r).update(i - 8, x)) != crc32_ieee(encode_body(r)),
    ensures
        decode_record(encode_record(r).update(i, x)) == Err::<WalRecord, Seq<char>>(
            "WAL entry checksum mismatch"@,
        ),
{
    lemma_encoded_layout(r);
    let b = encode_record(r);
    let m = b.update(i, x);
    let body = encode_body(r);
    assert(m.subrange(0, 4) =~= b.subrange(0, 4));
    if i < 8 {
        assert(m.subrange(8, m.len() as int) =~= body);
        let s = m.subrange(4, 8);
        let t = b.subrange(4, 8);
        assert(s[i - 4] != t[i - 4]);
        if spec_u32_from_le_bytes(s) == spec_u32_from_le_bytes(t) {
            lemma_le_u32_injective(s, t);
        }
    } else {
        assert(m.subrange(4, 8) =~= b.subrange(4, 8));
        assert(m.subrange(8, m.len() as int) =~= body.update(i - 8, x));
    }
}

/// A buffer that decodes to a record and is exactly as long as the
/// record's encoding is that encoding: no other buffer of that length
/// decodes to the record.
pub proof fn lemma_decode_determines_encoding(b: Seq<u8>, r: WalRecord)
    requires
        decode_record(b) == Ok::<WalRecord, Seq<char>>(r),
        b.len() == encoded_len(r),
    ensures
        encodable(r),
        b == encode_record(r),
{
    lemma_auto_spec_u32_to_from_le_bytes();
    lemma_auto_spec_u64_to_from_le_bytes();
    let k = le_u32_at(b, 17) as int;
    let v = le_u32_at(b, 21 + k) as int;
    assert(r.key.len() == k);
    assert(r.value.len() == v);
    assert(r.key == b.subrange(21, 21 + k));
    assert(r.value == b.subrange(25 + k, 25 + k + v));
    assert(b.len() == 25 + k + v);
    assert(encodable(r));
    lemma_encoded_layout(r);
    let e = encode_record(r);
    // The same fields lie at the same places of both buffers.
    assert(spec_u32_to_le_bytes(spec_u32_from_le_bytes(b.subrange(0, 4))) == b.subrange(0, 4));
    assert(spec_u32_to_le_bytes(spec_u32_from_le_bytes(e.subrange(0, 4))) == e.subrange(0, 4));
    assert(b.subrange(0, 4) == e.subrange(0, 4));
    assert(spec_u64_to_le_bytes(spec_u64_from_le_bytes(b.subrange(8, 16))) == b.subrange(8, 16));
    assert(spec_u64_to_le_bytes(spec_u64_from_le_bytes(e.subrange(8, 16))) == e.subrange(8, 16));
    assert(b.subrange(8, 16) == e.subrange(8, 16));
    assert(b[16] == e[16]);
    assert(spec_u32_to_le_bytes(spec_u32_from_le_bytes(b.subrange(17, 21))) == b.subrange(17, 21));
    assert(spec_u32_to_le_bytes(spec_u32_from_le_bytes(e.subrange(17, 21))) == e.subrange(17, 21));
    assert(b.subrange(17, 21) == e.subrange(17, 21));
    assert(b.subrange(21, 21 + k) == e.subrange(21, 21 + k));
    assert(spec_u32_to_le_bytes(spec_u32_from_le_bytes(b.subrange(21 + k, 25 + k))) == b.subrange(
        21 + k,
        25 + k,
    ));
    assert(spec_u32_to_le_bytes(spec_u32_from_le_bytes(e.subrange(21 + k, 25 + k))) == e.subrange(
        21 + k,
        25 + k,
    ));
    assert(b.subrange(21 + k, 25 + k) == e.subrange(21 + k, 25 + k));
    assert(b.subrange(25 + k, 25 + k + v) == e.subrange(25 + k, 25 + k + v));
    assert(b.subrange(8, b.len() as int) =~= e.subrange(8, e.len() as int)) by {
        assert forall|x: int| 8 <= x < b.len() implies b[x] == e[x] by {
            if x < 16 {
                assert(b.subrange(8, 16)[x - 8] == e.subrange(8, 16)[x - 8]);
            } else if x == 16 {
            } else if x < 21 {
                assert(b.subrange(17, 21)[x - 17] == e.subrange(17, 21)[x - 17]);
            } else if x < 21 + k {
                assert(b.subrange(21, 21 + k)[x - 21] == e.subrange(21, 21 + k)[x - 21]);
            } else if x < 25 + k {
                assert(b.subrange(21 + k, 25 + k)[x - 21 - k] == e.subrange(21 + k, 25 + k)[x - 21
                    - k]);
            } else {
                assert(b.subrange(25 + k, 25 + k + v)[x - 25 - k] == e.subrange(
                    25 + k,
                    25 + k + v,
                )[x - 25 - k]);
            }
        }
    }
    // Equal bodies carry equal checksums.
    assert(spec_u32_to_le_bytes(spec_u32_from_le_bytes(b.subrange(4, 8))) == b.subrange(4, 8));
    assert(spec_u32_to_le_bytes(spec_u32_from_le_bytes(e.subrange(4, 8))) == e.subrange(4, 8));
    assert(b.subrange(4, 8) == e.subrange(4, 8));
    assert(b =~= e) by {
        assert forall|x: int| 0 <= x < b.len() implies b[x] == e[x] by {
            if x < 4 {
                assert(b.subrange(0, 4)[x] == e.subrange(0, 4)[x]);
            } else if x < 8 {
                assert(b.subrange(4, 8)[x - 4] == e.subrange(4, 8)[x - 4]);
            } else {
                assert(b.subrange(8, b.len() as int)[x - 8] == e.subrange(8, e.len() as int)[x
                    - 8]);
            }
        }
    }
}

/// No mutation of an encoded record decodes to the record: a buffer that
/// differs from the encoding in one byte is rejected or decodes to another
/// record.
pub proof fn lemma_mutation_changes_record(r: WalRecord, i: int, x: u8)
    requires
        encodable(r),
        0 <= i < encode_record(r).len(),
        x != encode_record(r)[i],
    ensures
        decode_record(encode_record(r).update(i, x)) != Ok::<WalRecord, Seq<char>>(r),
{
    lemma_encoded_layout(r);
    let m = encode_record(r).update(i, x);
    if decode_record(m) == Ok::<WalRecord, Seq<char>>(r) {
        lemma_decode_determines_encoding(m, r);
        assert(m[i] == encode_record(r)[i]);
    }
}

impl WALEntry {
    /// Creates a new Put entry.
    pub fn new_put(key: Key, value: Value, timestamp: Timestamp) -> (entry: Self)
        ensures
            entry.timestamp == timestamp,
            entry.operation == Operation::Put,
            entry.key == key,
            entry.value == value,
    {
        WALEntry { timestamp, operation: Operation::Put, key, value }
    }

    /// Creates a new Delete entry, whose value is empty.
    pub fn new_delete(key: Key, timestamp: Timestamp) -> (entry: Self)
        ensures
            entry.timestamp == timestamp,
            entry.operation == Operation::Delete,
            entry.key == key,
            entry.value@ == Seq::<u8>::empty(),
    {
        WALEntry { timestamp, operation: Operation::Delete, key, value: Vec::new() }
    }

    /// Encodes the part of the entry that the checksum covers: version,
    /// operation, key and value with their lengths.
    pub fn encode_body(&self) -> (body: Vec<u8>)
        ensures
            body@ == encode_body(self@),
            body@.len() == 17 + self.key@.len() + self.value@.len(),
    {
        let mut body: Vec<u8> = Vec::new();
        put_u64_le(&mut body, self.timestamp);
        let ghost after_version = body@;
        let op_byte: u8 = match self.operation {
            Operation::Put => 1u8,
            Operation::Delete => 2u8,
        };
        body.push(op_byte);
        let ghost after_op = body@;
        put_u32_le(&mut body, length_field(self.key.len()));
        append_bytes(&mut body, self.key.as_slice());
        put_u32_le(&mut body, length_field(self.value.len()));
        append_bytes(&mut body, self.value.as_slice());
        proof {
            assert(after_version =~= spec_u64_to_le_bytes(self.timestamp));
            assert(after_op =~= after_version + seq![op_byte]);
        }
        body
    }

    /// Encodes the entry into its framed binary form.
    pub fn encode(&self) -> (out: Vec<u8>)
        ensures
            out@ == encode_record(self@),
            out@.len() == encoded_len(self@),
    {
        let body = self.encode_body();
        let sum = checksum(body.as_slice());
        frame_record(body.as_slice(), sum)
    }

    /// Decodes an entry from its framed binary form, given the checksum of
    /// the bytes after the checksum field. Length, checksum, operation and
    /// the lengths of key and value are verified; every rejection is
    /// reported as corruption.
    pub fn decode_checked(data: &[u8], sum: u32) -> (r: Result<Self>)
        ensures
            match r {
                Ok(entry) => decode_with(data@, sum) == Ok::<WalRecord, Seq<char>>(entry@),
                Err(Error::Corruption(msg)) => decode_with(data@, sum) == Err::<
                    WalRecord,
                    Seq<char>,
                >(msg@),
                Err(_) => false,
            },
    {
        let n = data.len();
        if n < 8 {
            return Err(Error::Corruption(String::from_str("WAL entry too small")));
        }
        let length = read_u32_le(data, 0);
        if n as u64 != length as u64 + 4 {
            return Err(Error::Corruption(String::from_str("WAL entry length mismatch")));
        }
        let expected = read_u32_le(data, 4);
        if expected != sum {
            return Err(Error::Corruption(String::from_str("WAL entry checksum mismatch")));
        }
        if n < 17 {
            return Err(Error::Corruption(String::from_str("WAL entry too small")));
        }
        let timestamp = read_u64_le(data, 8);
        let op = data[16];
        if op != 1 && op != 2 {
            return Err(Error::Corruption(String::from_str("Invalid operation type")));
        }
        let operation = if op == 1 {
            Operation::Put
        } else {
            Operation::Delete
        };
        if n < 21 {
            return Err(Error::Corruption(String::from_str("Key length exceeds data")));
        }
        let key_len = read_u32_le(data, 17);
        if ((n - 21) as u64) < key_len as u64 {
            return Err(Error::Corruption(String::from_str("Key length exceeds data")));
        }
        let key_end: usize = 21 + key_len as usize;
        let key = copy_bytes(slice_subrange(data, 21, key_end));
        if n - key_end < 4 {
            return Err(Error::Corruption(String::from_str("Value length exceeds data")));
        }
        let value_len = read_u32_le(data, key_end);
        if ((n - key_end - 4) as u64) < value_len as u64 {
            return Err(Error::Corruption(String::from_str("Value length exceeds data")));
        }
        let value_start: usize = key_end + 4;
        let value = copy_bytes(slice_subrange(data, value_start, value_start + value_len as usize));
        Ok(WALEntry { timestamp, operation, key, value })
    }

    /// Decodes an entry from its framed binary form, verifying length and
    /// checksum. Every rejection is reported as corruption.
    pub fn decode(data: &[u8]) -> (r: Result<Self>)
        ensures
            match r {
                Ok(entry) => decode_record(data@) == Ok::<WalRecord, Seq<char>>(entry@),
                Err(Error::Corruption(msg)) => decode_record(data@) == Err::<WalRecord, Seq<char>>(
                    msg@,
                ),
                Err(_) => false,
            },
    {
        let n = data.len();
        let start: usize = if n < 8 {
            n
        } else {
            8
        };
        let sum = checksum(slice_subrange(data, start, n));
        proof {
            if n < 8 {
                assert(data@.subrange(n as int, n as int) =~= Seq::<u8>::empty());
            }
        }
        Self::decode_checked(data, sum)
    }
}

/// Puts a frame around `body` that carries the checksum `sum`: the length
/// of what follows the length field, the checksum, the body.
pub fn frame_record(body: &[u8], sum: u32) -> (out: Vec<u8>)
    ensures
        out@ == frame_bytes(body@, sum),
        out@.len() == body@.len() + 8,
{
    let wide: u64 = body.len() as u64;
    let total: u32 = ((wide % 0x1_0000_0000u64 + 4) % 0x1_0000_0000u64) as u32;
    assert(total == low_u32(body@.len() as int + 4));
    let mut out: Vec<u8> = Vec::new();
    put_u32_le(&mut out, total);
    let ghost after_length = out@;
    put_u32_le(&mut out, sum);
    append_bytes(&mut out, body);
    proof {
        assert(after_length =~= spec_u32_to_le_bytes(total));
    }
    out
}

} // verus!
