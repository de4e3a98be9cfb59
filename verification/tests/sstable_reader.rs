use ferrisdb::error::Error;
use ferrisdb::sstable::{
    InternalKey, SSTableEntry, SSTableReader, SSTableWriter, FOOTER_SIZE, SSTABLE_MAGIC,
};
use ferrisdb::types::{Operation, Value};

fn create_test_sstable() -> (Vec<u8>, Vec<(InternalKey, Value, Operation)>) {
    let mut writer = SSTableWriter::new("test.sst");

    let test_data = vec![
        (InternalKey::new(b"key1".to_vec(), 100), b"value1".to_vec(), Operation::Put),
        (InternalKey::new(b"key1".to_vec(), 50), b"old_value1".to_vec(), Operation::Put),
        (InternalKey::new(b"key2".to_vec(), 200), Vec::new(), Operation::Delete),
        (InternalKey::new(b"key3".to_vec(), 150), b"value3".to_vec(), Operation::Put),
    ];

    for (key, value, operation) in &test_data {
        writer.add(key.clone(), value.clone(), *operation).unwrap();
    }

    let (_info, image) = writer.finish().unwrap();

    (image, test_data)
}

#[test]
fn test_sstable_reader_basic() {
    let (image, test_data) = create_test_sstable();

    let mut reader = SSTableReader::open(image).unwrap();

    // Test exact key lookups
    let result = reader
        .get(&test_data[0].0.user_key, test_data[0].0.timestamp)
        .unwrap();
    assert_eq!(result, Some(test_data[0].1.clone()));

    let result = reader
        .get(&test_data[2].0.user_key, test_data[2].0.timestamp)
        .unwrap();
    assert_eq!(result, Some(test_data[2].1.clone()));

    // Test key that doesn't exist
    let result = reader.get(&b"missing".to_vec(), 100).unwrap();
    assert_eq!(result, None);

    // Test existing key with wrong timestamp
    let result = reader.get(&test_data[0].0.user_key, 999).unwrap();
    assert_eq!(result, None);
}

#[test]
fn test_sstable_reader_get_latest() {
    let (image, _test_data) = create_test_sstable();

    let mut reader = SSTableReader::open(image).unwrap();

    // Test getting latest version of key1
    let result = reader.get_latest(&b"key1".to_vec(), 1000).unwrap();
    assert!(result.is_some());
    let (value, timestamp, operation) = result.unwrap();
    assert_eq!(value, b"value1".to_vec());
    assert_eq!(timestamp, 100);
    assert_eq!(operation, Operation::Put);

    // Test with timestamp constraint
    let result = reader.get_latest(&b"key1".to_vec(), 75).unwrap();
    assert!(result.is_some());
    let (value, timestamp, _) = result.unwrap();
    assert_eq!(value, b"old_value1".to_vec());
    assert_eq!(timestamp, 50);

    // Test with timestamp too low
    let result = reader.get_latest(&b"key1".to_vec(), 25).unwrap();
    assert_eq!(result, None);
}

#[test]
fn test_sstable_reader_iterator() {
    let (image, test_data) = create_test_sstable();

    let mut reader = SSTableReader::open(image).unwrap();
    let mut iter = reader.iter().unwrap();

    // Collect all entries
    let mut entries = Vec::new();
    while let Some(entry_result) = iter.next() {
        entries.push(entry_result.unwrap());
    }

    // Should have all test data entries
    assert_eq!(entries.len(), test_data.len());

    // Verify they're in sorted order
    for i in 1..entries.len() {
        assert!(entries[i - 1].key <= entries[i].key);
    }
}

#[test]
fn test_sstable_reader_range_iterator() {
    let (image, _test_data) = create_test_sstable();

    let mut reader = SSTableReader::open(image).unwrap();

    // Test range from key1 to key3 (exclusive)
    let start_key = b"key1".to_vec();
    let end_key = b"key3".to_vec();
    let mut iter = reader.range_iter(Some(&start_key), Some(&end_key)).unwrap();

    let mut entries = Vec::new();
    while let Some(entry_result) = iter.next() {
        entries.push(entry_result.unwrap());
    }

    // Should include key1 versions and key2, but not key3
    assert!(entries.len() >= 2);
    for entry in &entries {
        assert!(entry.key.user_key >= start_key);
        assert!(entry.key.user_key < end_key);
    }
}

#[test]
fn test_sstable_reader_info() {
    let (image, _test_data) = create_test_sstable();

    let reader = SSTableReader::open(image).unwrap();
    let info = reader.info();

    assert!(info.index_entries > 0);
    assert_eq!(info.footer.magic, SSTABLE_MAGIC);
}

#[test]
fn test_sstable_reader_invalid_file() {
    // A file that's too small
    let result = SSTableReader::open(b"too small".to_vec());
    assert!(result.is_err());
    assert!(result
        .unwrap_err()
        .to_string()
        .contains("File too small to contain footer"));
}

#[test]
fn test_sstable_reader_corrupted_magic() {
    // A file with invalid magic number
    let mut invalid_footer = [0u8; FOOTER_SIZE];
    invalid_footer[32..40].copy_from_slice(&0x12345678u64.to_le_bytes());

    let result = SSTableReader::open(invalid_footer.to_vec());
    assert!(result.is_err());
    assert!(result
        .unwrap_err()
        .to_string()
        .contains("Invalid magic number"));
}

#[test]
fn test_sstable_reader_binary_search_performance() {
    // A table with many entries in large blocks
    let mut writer = SSTableWriter::with_block_size("large_block.sst", 8192); // 8KB blocks

    for i in 0..200 {
        let key = InternalKey::new(format!("key_{:06}", i).into_bytes(), i as u64);
        let value = format!("value_{}", i).into_bytes();
        writer.add(key, value, Operation::Put).unwrap();
    }

    let (_info, image) = writer.finish().unwrap();

    // Test reading from the table
    let mut reader = SSTableReader::open(image).unwrap();

    // Test lookups throughout the range
    for i in [0, 50, 100, 150, 199] {
        let key = format!("key_{:06}", i).into_bytes();
        let expected_value = format!("value_{}", i).into_bytes();

        let result = reader.get(&key, i as u64).unwrap();
        assert_eq!(result, Some(expected_value));
    }

    // Test get_latest functionality on the large block
    let result = reader.get_latest(&b"key_000100".to_vec(), 1000).unwrap();
    assert!(result.is_some());
    let (value, timestamp, _) = result.unwrap();
    assert_eq!(value, b"value_100".to_vec());
    assert_eq!(timestamp, 100);

    // Test non-existent key
    let result = reader.get(&b"key_999999".to_vec(), 100).unwrap();
    assert_eq!(result, None);
}

fn fruit_table() -> Vec<u8> {
    let mut writer = SSTableWriter::new("fruit.sst");
    writer.add(InternalKey::new(b"banana".to_vec(), 200), b"yellow".to_vec(), Operation::Put).unwrap();
    writer.add(InternalKey::new(b"banana".to_vec(), 150), b"old".to_vec(), Operation::Put).unwrap();
    writer.add(InternalKey::new(b"cherry".to_vec(), 300), Vec::new(), Operation::Delete).unwrap();
    writer.add(InternalKey::new(b"date".to_vec(), 250), b"sweet".to_vec(), Operation::Put).unwrap();
    writer.finish().unwrap().1
}

#[test]
fn build_and_read_versions() {
    let mut reader = SSTableReader::open(fruit_table()).unwrap();

    assert_eq!(reader.get(&b"banana".to_vec(), 200).unwrap(), Some(b"yellow".to_vec()));
    assert_eq!(reader.get(&b"banana".to_vec(), 150).unwrap(), Some(b"old".to_vec()));
    assert_eq!(
        reader.get_latest(&b"banana".to_vec(), 1000).unwrap(),
        Some((b"yellow".to_vec(), 200, Operation::Put))
    );
    assert_eq!(
        reader.get_latest(&b"banana".to_vec(), 175).unwrap(),
        Some((b"old".to_vec(), 150, Operation::Put))
    );
    assert_eq!(reader.get(&b"missing".to_vec(), 0).unwrap(), None);
    assert_eq!(reader.get_latest(&b"banana".to_vec(), 149).unwrap(), None);
    assert_eq!(
        reader.get_latest(&b"cherry".to_vec(), 300).unwrap(),
        Some((Vec::new(), 300, Operation::Delete))
    );
    // A tombstone is found by an exact lookup, with its empty value.
    assert_eq!(reader.get(&b"cherry".to_vec(), 300).unwrap(), Some(Vec::new()));
    // A key below the first block is looked up in the first block.
    assert_eq!(reader.get(&b"apple".to_vec(), 1).unwrap(), None);
}

fn collect(reader: &mut SSTableReader, start: Option<&Vec<u8>>, end: Option<&Vec<u8>>) -> Vec<SSTableEntry> {
    let mut iter = reader.range_iter(start, end).unwrap();
    let mut out = Vec::new();
    while let Some(entry) = iter.next() {
        out.push(entry.unwrap());
    }
    out
}

#[test]
fn iteration_returns_what_was_added_in_order_across_blocks() {
    let mut writer = SSTableWriter::with_block_size("many.sst", 64);
    let mut added = Vec::new();
    for i in 0..50u64 {
        for version in [9u64, 4] {
            let entry = SSTableEntry::new(
                InternalKey::new(format!("k{:03}", i).into_bytes(), version),
                format!("v{}-{}", i, version).into_bytes(),
                if version == 9 { Operation::Delete } else { Operation::Put },
            );
            writer.add(entry.key.clone(), entry.value.clone(), entry.operation).unwrap();
            added.push(entry);
        }
    }
    let (info, image) = writer.finish().unwrap();
    assert_eq!(info.entry_count, 100);

    let mut reader = SSTableReader::open(image).unwrap();
    assert!(reader.info().index_entries > 10);

    let mut iter = reader.iter().unwrap();
    let mut read = Vec::new();
    while let Some(entry) = iter.next() {
        read.push(entry.unwrap());
    }
    assert!(iter.next().is_none());
    assert_eq!(read, added);

    assert_eq!(collect(&mut reader, None, None), added);

    let start = b"k010".to_vec();
    let end = b"k012".to_vec();
    assert_eq!(collect(&mut reader, Some(&start), Some(&end)), added[20..24].to_vec());
    assert_eq!(collect(&mut reader, Some(&start), None), added[20..].to_vec());
    assert_eq!(collect(&mut reader, None, Some(&end)), added[..24].to_vec());
    assert_eq!(collect(&mut reader, Some(&end), Some(&start)), Vec::new());
}

#[test]
fn latest_lookup_sees_only_the_selected_block() {
    // Each entry takes 17 + 1 + 1 bytes; with a target of 38 a block holds two.
    let mut writer = SSTableWriter::with_block_size("straddle.sst", 38);
    writer.add(InternalKey::new(b"a".to_vec(), 9), b"1".to_vec(), Operation::Put).unwrap();
    writer.add(InternalKey::new(b"b".to_vec(), 9), b"2".to_vec(), Operation::Put).unwrap();
    writer.add(InternalKey::new(b"b".to_vec(), 5), b"3".to_vec(), Operation::Put).unwrap();
    writer.add(InternalKey::new(b"c".to_vec(), 9), b"4".to_vec(), Operation::Put).unwrap();
    let mut reader = SSTableReader::open(writer.finish().unwrap().1).unwrap();
    assert_eq!(reader.info().index_entries, 2);

    // The versions of "b" lie in two blocks; the second block is selected.
    assert_eq!(
        reader.get_latest(&b"b".to_vec(), 9).unwrap(),
        Some((b"3".to_vec(), 5, Operation::Put))
    );
    assert_eq!(reader.get(&b"b".to_vec(), 9).unwrap(), None);
    assert_eq!(reader.get(&b"b".to_vec(), 5).unwrap(), Some(b"3".to_vec()));
    assert_eq!(reader.get(&b"a".to_vec(), 9).unwrap(), Some(b"1".to_vec()));
}

#[test]
fn open_rejects_a_file_without_its_index() {
    let mut image = fruit_table();
    let footer_start = image.len() - FOOTER_SIZE;
    // Point the index past the end of the file.
    let beyond = (image.len() as u64 + 10).to_le_bytes();
    image[footer_start..footer_start + 8].copy_from_slice(&beyond);
    assert!(matches!(SSTableReader::open(image), Err(Error::Io(_))));
}

#[test]
fn a_bad_operation_byte_is_an_invalid_format() {
    let mut image = fruit_table();
    // The operation byte of the first entry: after the count and 16 bytes.
    image[4 + 16] = 7;
    let mut reader = SSTableReader::open(image).unwrap();
    match reader.get(&b"banana".to_vec(), 200) {
        Err(Error::InvalidFormat(msg)) => assert_eq!(msg, "Invalid operation byte: 7"),
        other => panic!("expected an invalid format, got {:?}", other),
    }
    let mut iter = reader.iter().unwrap();
    assert!(matches!(iter.next(), Some(Err(Error::InvalidFormat(_)))));
    assert!(matches!(iter.next(), Some(Err(Error::InvalidFormat(_)))));
}

#[test]
fn a_truncated_block_fails_the_read_after_the_entries_before_it() {
    let mut writer = SSTableWriter::with_block_size("two.sst", 19);
    writer.add(InternalKey::new(b"a".to_vec(), 1), b"1".to_vec(), Operation::Put).unwrap();
    writer.add(InternalKey::new(b"b".to_vec(), 1), b"2".to_vec(), Operation::Put).unwrap();
    let mut image = writer.finish().unwrap().1;
    // The second block starts at 27; ask for more entries than it holds.
    image[27..31].copy_from_slice(&1000u32.to_le_bytes());

    let mut reader = SSTableReader::open(image).unwrap();
    let mut iter = reader.iter().unwrap();
    assert_eq!(iter.next().unwrap().unwrap().key, InternalKey::new(b"a".to_vec(), 1));
    assert!(iter.next().unwrap().is_err());
    assert!(reader.get(&b"b".to_vec(), 1).is_err());
    assert_eq!(reader.get(&b"a".to_vec(), 1).unwrap(), Some(b"1".to_vec()));
}
