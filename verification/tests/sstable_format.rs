use ferrisdb::sstable::{
    Footer, IndexEntry, InternalKey, SSTableEntry, SSTableReader, SSTableWriter, FOOTER_SIZE,
    SSTABLE_MAGIC,
};
use ferrisdb::types::Operation;

#[test]
fn test_internal_key_ordering() {
    let key1 = InternalKey::new(b"key1".to_vec(), 100);
    let key2 = InternalKey::new(b"key1".to_vec(), 200);
    let key3 = InternalKey::new(b"key2".to_vec(), 100);

    // Same user key: newer timestamp comes first
    assert!(key2 < key1);

    // Different user keys: lexicographic order
    assert!(key1 < key3);
    assert!(key2 < key3);
}

#[test]
fn test_internal_key_serialized_size() {
    let key = InternalKey::new(b"test_key".to_vec(), 12345);
    let expected_size = 4 + 8 + 8; // key_len + timestamp + key
    assert_eq!(key.serialized_size(), expected_size);
}

#[test]
fn test_footer_serialization() {
    let footer = Footer::new(1000, 200, 1200, 100);

    let bytes = footer.to_bytes();
    assert_eq!(bytes.len(), FOOTER_SIZE);

    let deserialized = Footer::from_bytes(&bytes).unwrap();
    assert_eq!(deserialized.index_offset, 1000);
    assert_eq!(deserialized.index_length, 200);
    assert_eq!(deserialized.bloom_offset, 1200);
    assert_eq!(deserialized.bloom_length, 100);
    assert_eq!(deserialized.magic, SSTABLE_MAGIC);
}

#[test]
fn test_footer_invalid_magic() {
    let mut bytes = [0u8; FOOTER_SIZE];
    // Set invalid magic number
    bytes[32..40].copy_from_slice(&0x12345678u64.to_le_bytes());

    let result = Footer::from_bytes(&bytes);
    assert!(result.is_err());
    assert!(result
        .unwrap_err()
        .to_string()
        .contains("Invalid magic number"));
}

#[test]
fn test_footer_invalid_size() {
    let bytes = [0u8; 10]; // Too small
    let result = Footer::from_bytes(&bytes);
    assert!(result.is_err());
    assert!(result
        .unwrap_err()
        .to_string()
        .contains("Invalid footer size"));
}

#[test]
fn test_index_entry_serialized_size() {
    let entry = IndexEntry::new(1000, b"first_key".to_vec());
    let expected_size = 8 + 4 + 9; // offset + key_len + key
    assert_eq!(entry.serialized_size(), expected_size);
}

#[test]
fn test_internal_key_display() {
    let key = InternalKey::new(b"test_key".to_vec(), 12345);
    let display = key.to_string();
    assert_eq!(display, "test_key@12345");

    let delete_key = InternalKey::new(b"del_key".to_vec(), 99999);
    let display = delete_key.to_string();
    assert_eq!(display, "del_key@99999");
}

#[test]
fn test_internal_key_equality() {
    let key1 = InternalKey::new(b"key".to_vec(), 100);
    let key2 = InternalKey::new(b"key".to_vec(), 100);
    let key3 = InternalKey::new(b"key".to_vec(), 101);

    assert_eq!(key1, key2);
    assert_ne!(key1, key3);
}

#[test]
fn test_magic_number_ascii() {
    // The magic number spells "FERRISDB" in ASCII
    let bytes = SSTABLE_MAGIC.to_be_bytes();
    let ascii = std::str::from_utf8(&bytes).unwrap();
    assert_eq!(ascii, "FERRISDB");
}

#[test]
fn test_sstable_entry() {
    let key = InternalKey::new(b"test_key".to_vec(), 12345);
    let value = b"test_value".to_vec();
    let entry = SSTableEntry::new(key.clone(), value.clone(), Operation::Put);

    assert_eq!(entry.key, key);
    assert_eq!(entry.value, value);
    assert_eq!(entry.operation, Operation::Put);
}

#[test]
fn test_sstable_entry_serialized_size() {
    let key = InternalKey::new(b"test_key".to_vec(), 12345);
    let value = b"test_value".to_vec();
    let entry = SSTableEntry::new(key, value, Operation::Put);

    // key_serialized_size + value_len(4) + value + operation(1)
    let expected_size = (4 + 8 + 8) + 4 + 10 + 1;
    assert_eq!(entry.serialized_size(), expected_size);
}

#[test]
fn test_sstable_writer_reader_integration() {
    // Create test data
    let test_entries = vec![
        (
            InternalKey::new(b"apple".to_vec(), 100),
            b"red fruit".to_vec(),
            Operation::Put,
        ),
        (
            InternalKey::new(b"banana".to_vec(), 200),
            b"yellow fruit".to_vec(),
            Operation::Put,
        ),
        (
            InternalKey::new(b"banana".to_vec(), 150),
            b"old yellow".to_vec(),
            Operation::Put,
        ),
        (
            InternalKey::new(b"cherry".to_vec(), 300),
            Vec::new(),
            Operation::Delete,
        ),
        (
            InternalKey::new(b"date".to_vec(), 250),
            b"sweet fruit".to_vec(),
            Operation::Put,
        ),
    ];

    // Write the table
    let image = {
        let mut writer = SSTableWriter::new("integration.sst");
        for (key, value, operation) in &test_entries {
            writer.add(key.clone(), value.clone(), *operation).unwrap();
        }
        let (info, image) = writer.finish().unwrap();
        assert_eq!(info.entry_count, test_entries.len());
        image
    };

    // Read and verify
    {
        let mut reader = SSTableReader::open(image).unwrap();

        // Test exact key lookups
        for (key, expected_value, _operation) in &test_entries {
            let result = reader.get(&key.user_key, key.timestamp).unwrap();
            assert_eq!(result.as_ref(), Some(expected_value));
        }

        // Test get_latest functionality
        let latest_banana = reader.get_latest(&b"banana".to_vec(), 1000).unwrap();
        assert!(latest_banana.is_some());
        let (value, timestamp, _) = latest_banana.unwrap();
        assert_eq!(value, b"yellow fruit".to_vec());
        assert_eq!(timestamp, 200);

        // Test get_latest with timestamp constraint
        let old_banana = reader.get_latest(&b"banana".to_vec(), 175).unwrap();
        assert!(old_banana.is_some());
        let (value, timestamp, _) = old_banana.unwrap();
        assert_eq!(value, b"old yellow".to_vec());
        assert_eq!(timestamp, 150);

        // Test missing key
        let missing = reader.get(&b"missing".to_vec(), 100).unwrap();
        assert_eq!(missing, None);

        // Test iterator
        let mut iter = reader.iter().unwrap();
        let mut count = 0;
        let mut last_key: Option<InternalKey> = None;

        while let Some(entry_result) = iter.next() {
            let entry = entry_result.unwrap();

            // Verify ordering
            if let Some(ref last) = last_key {
                assert!(entry.key >= *last, "Entries not in sorted order");
            }
            last_key = Some(entry.key.clone());
            count += 1;
        }
        assert_eq!(count, test_entries.len());

        // Test range iterator
        let start_key = b"banana".to_vec();
        let end_key = b"date".to_vec();
        let mut range_iter = reader.range_iter(Some(&start_key), Some(&end_key)).unwrap();

        let mut range_entries = Vec::new();
        while let Some(entry_result) = range_iter.next() {
            let entry = entry_result.unwrap();
            assert!(entry.key.user_key >= start_key);
            assert!(entry.key.user_key < end_key);
            range_entries.push(entry);
        }

        // Should include banana versions and cherry
        assert!(range_entries.len() >= 3);
    }
}
