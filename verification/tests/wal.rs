use ferrisdb::error::Error;
use ferrisdb::types::{Operation, SyncMode};
use ferrisdb::wal::log_entry::frame_record;
use ferrisdb::wal::{WALEntry, WALReader, WALWriter};

#[test]
fn test_encode_decode_put() {
    let entry = WALEntry::new_put(b"test_key".to_vec(), b"test_value".to_vec(), 12345);

    let encoded = entry.encode();
    let decoded = WALEntry::decode(&encoded).unwrap();

    assert_eq!(entry, decoded);
}

#[test]
fn test_encode_decode_delete() {
    let entry = WALEntry::new_delete(b"test_key".to_vec(), 12345);

    let encoded = entry.encode();
    let decoded = WALEntry::decode(&encoded).unwrap();

    assert_eq!(entry, decoded);
}

#[test]
fn test_corruption_detection() {
    let entry = WALEntry::new_put(b"test_key".to_vec(), b"test_value".to_vec(), 12345);

    let mut encoded = entry.encode();
    // Corrupt the data
    encoded[20] ^= 0xFF;

    let result = WALEntry::decode(&encoded);
    assert!(result.is_err());
    assert!(matches!(result.unwrap_err(), Error::Corruption(_)));
}

#[test]
fn test_wal_reader_writer_integration() {
    let mut log: Vec<u8> = Vec::new();

    // Write entries
    {
        let mut writer = WALWriter::new("test.wal", SyncMode::Full, 1024 * 1024, 0);

        for i in 0..10 {
            let entry = WALEntry::new_put(
                format!("key{}", i).into_bytes(),
                format!("value{}", i).into_bytes(),
                i as u64,
            );
            let write = writer.append(&entry).unwrap();
            assert!(write.flush);
            assert!(write.sync);
            log.extend_from_slice(&write.bytes);
        }
    }

    // Read entries
    let mut reader = WALReader::new(log);
    let entries = reader.read_all().unwrap();

    assert_eq!(entries.len(), 10);
    for (i, entry) in entries.iter().enumerate() {
        assert_eq!(entry.key, format!("key{}", i).into_bytes());
        assert_eq!(entry.value, format!("value{}", i).into_bytes());
        assert_eq!(entry.timestamp, i as u64);
    }
}

#[test]
fn test_wal_reader_iterator() {
    let mut log: Vec<u8> = Vec::new();

    // Write some entries
    {
        let mut writer = WALWriter::new("test.wal", SyncMode::Full, 1024 * 1024, 0);

        for i in 0..5 {
            let entry = if i % 2 == 0 {
                WALEntry::new_put(
                    format!("key{}", i).into_bytes(),
                    format!("value{}", i).into_bytes(),
                    i as u64,
                )
            } else {
                WALEntry::new_delete(format!("key{}", i).into_bytes(), i as u64)
            };
            log.extend_from_slice(&writer.append(&entry).unwrap().bytes);
        }
    }

    // Read one entry after another
    let mut reader = WALReader::new(log);
    let mut entries = Vec::new();
    while let Some(entry) = reader.next() {
        entries.push(entry.unwrap());
    }

    assert_eq!(entries.len(), 5);
    assert_eq!(entries[1].operation, Operation::Delete);
    assert_eq!(entries[1].value, Vec::<u8>::new());
}

#[test]
fn test_wal_writer_basic() {
    let mut writer = WALWriter::new("test.wal", SyncMode::Normal, 1024 * 1024, 0);

    let entry = WALEntry::new_put(b"key1".to_vec(), b"value1".to_vec(), 1);

    let write = writer.append(&entry).unwrap();

    assert!(writer.size() > 0);
    assert_eq!(writer.size(), write.bytes.len() as u64);
    assert_eq!(writer.path(), "test.wal");
}

#[test]
fn test_wal_size_limit() {
    // Very small size limit
    let mut writer = WALWriter::new("test.wal", SyncMode::NoSync, 50, 0);

    let entry = WALEntry::new_put(
        b"key_with_long_name".to_vec(),
        b"value_with_long_content".to_vec(),
        1,
    );

    // This should exceed the size limit
    let result = writer.append(&entry);
    assert!(result.is_err());
}

#[test]
fn encoded_record_has_the_documented_layout() {
    let entry = WALEntry::new_put(b"ab".to_vec(), b"xyz".to_vec(), 0x0102030405060708);
    let bytes = entry.encode();

    assert_eq!(bytes.len(), 25 + 2 + 3);
    assert_eq!(&bytes[0..4], &26u32.to_le_bytes());
    assert_eq!(&bytes[4..8], &crc32fast::hash(&bytes[8..]).to_le_bytes());
    assert_eq!(&bytes[8..16], &0x0102030405060708u64.to_le_bytes());
    assert_eq!(bytes[16], 1);
    assert_eq!(&bytes[17..21], &2u32.to_le_bytes());
    assert_eq!(&bytes[21..23], b"ab");
    assert_eq!(&bytes[23..27], &3u32.to_le_bytes());
    assert_eq!(&bytes[27..30], b"xyz");
}

#[test]
fn checksum_is_the_crc32_of_the_body() {
    // The CRC-32 of "123456789" is the standard check value.
    assert_eq!(crc32fast::hash(b"123456789"), 0xCBF4_3926);

    let entry = WALEntry::new_delete(b"k".to_vec(), 9);
    let bytes = entry.encode();
    let stored = u32::from_le_bytes([bytes[4], bytes[5], bytes[6], bytes[7]]);
    assert_eq!(stored, crc32fast::hash(&bytes[8..]));
    assert_ne!(stored, 0);
}

#[test]
fn delete_record_uses_operation_byte_two() {
    let bytes = WALEntry::new_delete(b"k".to_vec(), 9).encode();
    assert_eq!(bytes[16], 2);
}

#[test]
fn every_single_byte_mutation_past_the_length_prefix_is_rejected() {
    let entry = WALEntry::new_put(b"key".to_vec(), b"value".to_vec(), 77);
    let encoded = entry.encode();

    for i in 4..encoded.len() {
        for flip in [0x01u8, 0x80, 0xFF] {
            let mut mutated = encoded.clone();
            mutated[i] ^= flip;
            let result = WALEntry::decode(&mutated);
            assert!(matches!(result, Err(Error::Corruption(_))), "byte {}", i);
        }
    }
}

fn corruption_message(data: &[u8]) -> String {
    match WALEntry::decode(data) {
        Err(Error::Corruption(msg)) => msg,
        other => panic!("expected corruption, got {:?}", other),
    }
}

fn framed(body: &[u8]) -> Vec<u8> {
    let mut out = Vec::new();
    out.extend_from_slice(&((body.len() + 4) as u32).to_le_bytes());
    out.extend_from_slice(&crc32fast::hash(body).to_le_bytes());
    out.extend_from_slice(body);
    out
}

#[test]
fn decode_reports_each_kind_of_corruption() {
    assert_eq!(corruption_message(&[0u8; 7]), "WAL entry too small");

    let good = WALEntry::new_put(b"key".to_vec(), b"value".to_vec(), 77).encode();

    let mut longer = good.clone();
    longer.push(0);
    assert_eq!(corruption_message(&longer), "WAL entry length mismatch");

    let mut bad_sum = good.clone();
    bad_sum[4] ^= 1;
    assert_eq!(corruption_message(&bad_sum), "WAL entry checksum mismatch");

    // A frame whose checksum is right and whose body is too short for the
    // version and the operation.
    assert_eq!(corruption_message(&framed(&[0u8; 8])), "WAL entry too small");

    let mut body = Vec::new();
    body.extend_from_slice(&77u64.to_le_bytes());
    body.push(3);
    body.extend_from_slice(&0u32.to_le_bytes());
    body.extend_from_slice(&0u32.to_le_bytes());
    assert_eq!(corruption_message(&framed(&body)), "Invalid operation type");

    let mut body = Vec::new();
    body.extend_from_slice(&77u64.to_le_bytes());
    body.push(1);
    body.extend_from_slice(&100u32.to_le_bytes());
    body.extend_from_slice(b"key");
    assert_eq!(corruption_message(&framed(&body)), "Key length exceeds data");

    let mut body = Vec::new();
    body.extend_from_slice(&77u64.to_le_bytes());
    body.push(1);
    body.extend_from_slice(&3u32.to_le_bytes());
    body.extend_from_slice(b"key");
    body.extend_from_slice(&100u32.to_le_bytes());
    body.extend_from_slice(b"v");
    assert_eq!(corruption_message(&framed(&body)), "Value length exceeds data");
}

#[test]
fn empty_key_and_value_round_trip() {
    let entry = WALEntry::new_put(Vec::new(), Vec::new(), 0);
    let decoded = WALEntry::decode(&entry.encode()).unwrap();
    assert_eq!(decoded, entry);
    assert_eq!(entry.encode().len(), 25);
}

#[test]
fn replay_yields_the_appended_records_in_order() {
    let mut writer = WALWriter::new("wal.log", SyncMode::Normal, 1024, 0);
    let records = vec![
        WALEntry::new_put(b"a".to_vec(), b"1".to_vec(), 10),
        WALEntry::new_put(b"b".to_vec(), b"2".to_vec(), 20),
        WALEntry::new_delete(b"a".to_vec(), 30),
    ];

    let mut log: Vec<u8> = Vec::new();
    for (i, record) in records.iter().enumerate() {
        let write = writer.append(record).unwrap();
        assert!(write.flush);
        assert!(!write.sync);
        log.extend_from_slice(&write.bytes);
        if i == 1 {
            assert_eq!(writer.size(), log.len() as u64);
            assert_eq!(writer.size(), 27 + 27);
        }
    }

    let mut reader = WALReader::new(log);
    assert_eq!(reader.read_all().unwrap(), records);
    assert!(reader.read_entry().unwrap().is_none());
}

#[test]
fn replay_stops_at_the_corrupted_record() {
    let records = vec![
        WALEntry::new_put(b"a".to_vec(), b"1".to_vec(), 10),
        WALEntry::new_put(b"b".to_vec(), b"2".to_vec(), 20),
        WALEntry::new_delete(b"a".to_vec(), 30),
    ];
    let mut log: Vec<u8> = Vec::new();
    for record in &records {
        log.extend_from_slice(&record.encode());
    }
    let middle = log.len() / 2;
    log[middle] ^= 0xFF;

    let mut reader = WALReader::new(log.clone());
    assert_eq!(reader.next().unwrap().unwrap(), records[0]);
    assert!(matches!(reader.next(), Some(Err(Error::Corruption(_)))));

    let mut reader = WALReader::new(log);
    assert!(matches!(reader.read_all(), Err(Error::Corruption(_))));
}

#[test]
fn torn_tail_ends_the_replay() {
    let record = WALEntry::new_put(b"a".to_vec(), b"1".to_vec(), 10);
    let full = record.encode();

    // Fewer than four bytes of a length prefix: a clean end.
    let mut log = full.clone();
    log.extend_from_slice(&full[..3]);
    let mut reader = WALReader::new(log);
    assert_eq!(reader.read_all().unwrap(), vec![record.clone()]);

    // A record cut short after its length prefix: an input failure.
    let mut log = full.clone();
    log.extend_from_slice(&full[..10]);
    let mut reader = WALReader::new(log);
    assert_eq!(reader.read_entry().unwrap(), Some(record));
    assert!(matches!(reader.read_entry(), Err(Error::Io(_))));
    assert!(reader.read_entry().unwrap().is_none());
}

#[test]
fn writer_refuses_what_passes_the_limit_and_counts_the_rest() {
    let record = WALEntry::new_put(b"a".to_vec(), b"1".to_vec(), 10);
    let mut writer = WALWriter::new("wal.log", SyncMode::NoSync, 62, 8);
    assert_eq!(writer.size(), 8);

    let first = writer.append(&record).unwrap();
    assert!(!first.flush);
    assert!(!first.sync);
    assert_eq!(writer.size(), 35);

    // Exactly at the limit is accepted.
    writer.append(&record).unwrap();
    assert_eq!(writer.size(), 62);

    match writer.append(&record) {
        Err(Error::StorageEngine(msg)) => assert_eq!(msg, "WAL file size limit reached"),
        other => panic!("expected a full log, got {:?}", other),
    }
    assert_eq!(writer.size(), 62);
}

#[test]
fn a_frame_carries_the_checksum_it_is_given() {
    let framed = frame_record(b"body", 0xAABB_CCDD);
    assert_eq!(framed, vec![8, 0, 0, 0, 0xDD, 0xCC, 0xBB, 0xAA, b'b', b'o', b'd', b'y']);
    assert_eq!(frame_record(b"", 0), vec![4, 0, 0, 0, 0, 0, 0, 0]);
}

#[test]
fn the_body_holds_version_operation_key_and_value() {
    let body = WALEntry::new_put(b"k".to_vec(), b"vv".to_vec(), 3).encode_body();
    assert_eq!(
        body,
        vec![3, 0, 0, 0, 0, 0, 0, 0, 1, 1, 0, 0, 0, b'k', 2, 0, 0, 0, b'v', b'v']
    );
}

#[test]
fn decoding_compares_the_stored_checksum_with_the_one_given() {
    let entry = WALEntry::new_put(b"k".to_vec(), b"vv".to_vec(), 3);
    let framed = frame_record(&entry.encode_body(), 42);

    assert_eq!(WALEntry::decode_checked(&framed, 42).unwrap(), entry);
    match WALEntry::decode_checked(&framed, 43) {
        Err(Error::Corruption(msg)) => assert_eq!(msg, "WAL entry checksum mismatch"),
        other => panic!("expected corruption, got {:?}", other),
    }
    // The length is checked before the checksum.
    match WALEntry::decode_checked(&framed[..framed.len() - 1], 43) {
        Err(Error::Corruption(msg)) => assert_eq!(msg, "WAL entry length mismatch"),
        other => panic!("expected corruption, got {:?}", other),
    }
    // With the real checksum the frame is what `encode` returns.
    let sum = crc32fast::hash(&entry.encode_body());
    assert_eq!(frame_record(&entry.encode_body(), sum), entry.encode());
    assert!(WALEntry::decode(&framed).is_err());
}
