use ferrisdb::bytes::{
    append_bytes, bytes_eq, compare_bytes, copy_bytes, starts_with_bytes, KeyOrder,
};
use ferrisdb::codec::{length_field, put_u32_le, put_u64_le, read_u32_le, read_u64_le};
use ferrisdb::error::Error;
use ferrisdb::order::compare_keys;
use ferrisdb::sstable::key::label;
use ferrisdb::sstable::{Footer, InternalKey, SSTABLE_MAGIC};
use ferrisdb::text::decimal;

#[test]
fn byte_strings_compare_as_unsigned_bytes() {
    assert_eq!(compare_bytes(b"", b""), KeyOrder::Equal);
    assert_eq!(compare_bytes(b"", b"a"), KeyOrder::Less);
    assert_eq!(compare_bytes(b"a", b""), KeyOrder::Greater);
    assert_eq!(compare_bytes(b"abc", b"abd"), KeyOrder::Less);
    assert_eq!(compare_bytes(b"abc", b"abc"), KeyOrder::Equal);
    assert_eq!(compare_bytes(b"ab", b"abc"), KeyOrder::Less);
    assert_eq!(compare_bytes(b"b", b"abc"), KeyOrder::Greater);
    // Bytes are unsigned: 0x80 sorts after 0x7f.
    assert_eq!(compare_bytes(&[0x80], &[0x7f]), KeyOrder::Greater);
    assert_eq!(compare_bytes(&[0xff], &[0x00, 0xff]), KeyOrder::Greater);
}

#[test]
fn byte_string_order_agrees_with_the_standard_order() {
    let samples: Vec<Vec<u8>> = vec![
        vec![],
        vec![0],
        vec![0, 0],
        vec![0, 1],
        vec![1],
        vec![1, 0],
        vec![127],
        vec![128],
        vec![255],
        vec![255, 255],
    ];
    for a in &samples {
        for b in &samples {
            let expected = match a.cmp(b) {
                std::cmp::Ordering::Less => KeyOrder::Less,
                std::cmp::Ordering::Equal => KeyOrder::Equal,
                std::cmp::Ordering::Greater => KeyOrder::Greater,
            };
            assert_eq!(compare_bytes(a, b), expected);
            assert_eq!(bytes_eq(a, b), a == b);
            assert_eq!(starts_with_bytes(a, b), a.starts_with(b));
        }
    }
}

#[test]
fn copy_and_append_keep_every_byte() {
    assert_eq!(copy_bytes(b"hello"), b"hello".to_vec());
    assert_eq!(copy_bytes(b""), Vec::<u8>::new());

    let mut out = b"ab".to_vec();
    append_bytes(&mut out, b"cd");
    append_bytes(&mut out, b"");
    assert_eq!(out, b"abcd".to_vec());
}

#[test]
fn internal_keys_sort_by_user_key_then_newest_first() {
    assert_eq!(compare_keys(b"a", 5, b"a", 5), KeyOrder::Equal);
    assert_eq!(compare_keys(b"a", 9, b"a", 5), KeyOrder::Less);
    assert_eq!(compare_keys(b"a", 5, b"a", 9), KeyOrder::Greater);
    assert_eq!(compare_keys(b"a", 0, b"b", u64::MAX), KeyOrder::Less);
    assert_eq!(compare_keys(b"b", u64::MAX, b"a", 0), KeyOrder::Greater);
    assert_eq!(compare_keys(b"a", u64::MAX, b"a", 0), KeyOrder::Less);
}

#[test]
fn internal_key_operators_follow_the_internal_order() {
    let newer = InternalKey::new(b"key".to_vec(), 200);
    let older = InternalKey::new(b"key".to_vec(), 100);
    let other = InternalKey::new(b"kez".to_vec(), 300);

    assert!(newer < older);
    assert!(older > newer);
    assert!(newer <= newer.clone());
    assert!(older < other);
    assert!(other >= older);
    assert_eq!(newer.compare(&older), KeyOrder::Less);
    assert_eq!(other.compare(&newer), KeyOrder::Greater);
    assert_eq!(newer.compare(&newer.duplicate()), KeyOrder::Equal);
}

#[test]
fn integer_fields_are_little_endian() {
    let mut out = Vec::new();
    put_u32_le(&mut out, 0x0403_0201);
    put_u64_le(&mut out, 0x0807_0605_0403_0201);
    assert_eq!(out, vec![1, 2, 3, 4, 1, 2, 3, 4, 5, 6, 7, 8]);
    assert_eq!(read_u32_le(&out, 0), 0x0403_0201);
    assert_eq!(read_u64_le(&out, 4), 0x0807_0605_0403_0201);
    assert_eq!(read_u32_le(&out, 2), 0x0201_0403);
}

#[test]
fn length_fields_hold_the_low_32_bits() {
    assert_eq!(length_field(0), 0);
    assert_eq!(length_field(16 * 1024 * 1024), 16 * 1024 * 1024);
    assert_eq!(length_field(u32::MAX as usize), u32::MAX);
    if usize::BITS > 32 {
        let wide = (u32::MAX as u64 + 6) as usize;
        assert_eq!(length_field(wide), 5);
    }
}

#[test]
fn numbers_are_written_in_decimal() {
    assert_eq!(decimal(0), "0");
    assert_eq!(decimal(7), "7");
    assert_eq!(decimal(10), "10");
    assert_eq!(decimal(12345), "12345");
    assert_eq!(decimal(1_000_000), "1000000");
    assert_eq!(decimal(u64::MAX), "18446744073709551615");
}

#[test]
fn key_text_replaces_malformed_utf8() {
    let key = InternalKey::new(vec![b'a', 0xff, b'b'], 3);
    assert_eq!(key.to_string(), "a\u{FFFD}b@3");
    let key = InternalKey::new(Vec::new(), 0);
    assert_eq!(key.to_string(), "@0");
    let key = InternalKey::new("caf\u{e9}".as_bytes().to_vec(), u64::MAX);
    assert_eq!(key.to_string(), "caf\u{e9}@18446744073709551615");
}

#[test]
fn every_error_describes_itself() {
    let s = |t: &str| t.to_string();
    assert_eq!(Error::Io(s("disk")).to_string(), "IO error: disk");
    assert_eq!(Error::Serialization(s("bad")).to_string(), "Serialization error: bad");
    assert_eq!(Error::KeyNotFound.to_string(), "Key not found");
    assert_eq!(Error::Corruption(s("crc")).to_string(), "Corruption detected: crc");
    assert_eq!(Error::InvalidOperation(s("no")).to_string(), "Invalid operation: no");
    assert_eq!(Error::StorageEngine(s("full")).to_string(), "Storage engine error: full");
    assert_eq!(Error::MemTableFull.to_string(), "MemTable is full");
    assert_eq!(Error::InvalidFormat(s("magic")).to_string(), "Invalid format: magic");
    assert_eq!(
        Error::EntrySizeExceeded { size: 16777217, max_size: 16777216 }.to_string(),
        "Entry size exceeds maximum: 16777217 > 16777216"
    );
    assert_eq!(Error::ResourceConsumed(s("done")).to_string(), "Resource already consumed: done");
    assert_eq!(Error::EmptyOperation(s("none")).to_string(), "Operation has no data: none");
    assert_eq!(
        Error::KeyOrderingViolation { last_key: s("b@1"), new_key: s("a@1") }.to_string(),
        "Key ordering violation: expected key > b@1, got a@1"
    );
    assert_eq!(Error::Transaction(s("abort")).to_string(), "Transaction error: abort");
    assert_eq!(Error::Io(String::new()).to_string(), "IO error: ");
}

#[test]
fn footer_round_trips_and_rejects_any_other_magic() {
    for (a, b, c, d) in [(0u64, 0u64, 0u64, 0u64), (1, 2, 3, 4), (u64::MAX, 0, u64::MAX, 7)] {
        let footer = Footer::new(a, b, c, d);
        let back = Footer::from_bytes(&footer.to_bytes()).unwrap();
        assert_eq!(
            (back.index_offset, back.index_length, back.bloom_offset, back.bloom_length, back.magic),
            (a, b, c, d, SSTABLE_MAGIC)
        );
    }

    for magic in [0u64, 1, SSTABLE_MAGIC - 1, SSTABLE_MAGIC + 1, SSTABLE_MAGIC.swap_bytes(), u64::MAX] {
        let mut footer = Footer::new(1, 2, 3, 4);
        footer.magic = magic;
        match Footer::from_bytes(&footer.to_bytes()) {
            Err(Error::InvalidFormat(msg)) => assert_eq!(
                msg,
                format!("Invalid magic number: expected {}, got {}", SSTABLE_MAGIC, magic)
            ),
            other => panic!("expected an invalid format, got {:?}", other),
        }
    }

    for len in [0usize, 39, 41, 80] {
        match Footer::from_bytes(&vec![0u8; len]) {
            Err(Error::InvalidFormat(msg)) => assert_eq!(msg, "Invalid footer size"),
            other => panic!("expected an invalid format, got {:?}", other),
        }
    }
}

#[test]
fn footer_bytes_are_five_little_endian_fields() {
    let bytes = Footer::new(0x11, 0x22, 0x33, 0x44).to_bytes();
    assert_eq!(bytes.len(), 40);
    assert_eq!(&bytes[0..8], &0x11u64.to_le_bytes());
    assert_eq!(&bytes[8..16], &0x22u64.to_le_bytes());
    assert_eq!(&bytes[16..24], &0x33u64.to_le_bytes());
    assert_eq!(&bytes[24..32], &0x44u64.to_le_bytes());
    assert_eq!(&bytes[32..40], &0x4645525249534442u64.to_le_bytes());
}

#[test]
fn default_sizes() {
    assert_eq!(ferrisdb::wal::writer::DEFAULT_WAL_SIZE_LIMIT, 67_108_864);
    assert_eq!(ferrisdb::memtable::DEFAULT_MEMTABLE_SIZE, 4_194_304);
    assert_eq!(ferrisdb::sstable::DEFAULT_BLOCK_SIZE, 4096);
    assert_eq!(ferrisdb::sstable::FOOTER_SIZE, 40);
    assert_eq!(ferrisdb::sstable::MAX_ENTRY_SIZE, 16_777_216);
    assert_eq!(ferrisdb::memtable::skip_list::MAX_HEIGHT, 12);
    assert_eq!(ferrisdb::memtable::skip_list::BRANCHING_FACTOR, 4);
    assert_eq!(ferrisdb::memtable::ENTRY_OVERHEAD, 64);
}

#[test]
fn a_label_joins_text_and_version() {
    assert_eq!(label("user".to_string(), 42), "user@42");
    assert_eq!(label(String::new(), 0), "@0");
    assert_eq!(label("a@b".to_string(), 7), "a@b@7");
}
