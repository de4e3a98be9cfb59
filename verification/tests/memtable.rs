use ferrisdb::error::Error;
use ferrisdb::memtable::skip_list::{InternalKey, SkipList};
use ferrisdb::memtable::MemTable;
use ferrisdb::types::Operation;
use ferrisdb::bytes::KeyOrder;

#[test]
fn memtable_test_memtable_basic() {
    let mut memtable = MemTable::new(1024 * 1024); // 1MB

    memtable
        .put(b"key1".to_vec(), b"value1".to_vec(), 1)
        .unwrap();
    memtable
        .put(b"key2".to_vec(), b"value2".to_vec(), 2)
        .unwrap();
    memtable.delete(b"key3".to_vec(), 3).unwrap();

    let result = memtable.get(b"key1", 10);
    assert!(result.is_some());
    let (value, op) = result.unwrap();
    assert_eq!(value, b"value1");
    assert_eq!(op, Operation::Put);

    let result = memtable.get(b"key3", 10);
    assert!(result.is_some());
    let (_, op) = result.unwrap();
    assert_eq!(op, Operation::Delete);
}

#[test]
fn memtable_test_memtable_size_limit() {
    let mut memtable = MemTable::new(100); // Very small limit

    // This should succeed
    memtable
        .put(b"key1".to_vec(), b"small".to_vec(), 1)
        .unwrap();

    // This should fail due to size limit
    let result = memtable.put(
        b"key_with_very_long_name".to_vec(),
        b"value_with_very_long_content_that_exceeds_limit".to_vec(),
        2,
    );
    assert!(result.is_err());
}

#[test]
fn memtable_test_memtable_scan() {
    let mut memtable = MemTable::new(1024 * 1024);

    memtable.put(b"a".to_vec(), b"value_a".to_vec(), 1).unwrap();
    memtable.put(b"b".to_vec(), b"value_b".to_vec(), 1).unwrap();
    memtable.put(b"c".to_vec(), b"value_c".to_vec(), 1).unwrap();
    memtable.put(b"d".to_vec(), b"value_d".to_vec(), 1).unwrap();

    let results = memtable.scan(b"b", b"d", 10);
    assert_eq!(results.len(), 2);
    assert_eq!(results[0].0, b"b");
    assert_eq!(results[1].0, b"c");
}

#[test]
fn mod_test_memtable_basic() {
    let mut memtable = MemTable::new(1024);

    memtable
        .put(b"key1".to_vec(), b"value1".to_vec(), 1)
        .unwrap();
    memtable
        .put(b"key2".to_vec(), b"value2".to_vec(), 2)
        .unwrap();

    let result = memtable.get(b"key1", 10);
    assert!(result.is_some());
    let (value, op) = result.unwrap();
    assert_eq!(value, b"value1");
    assert_eq!(op, Operation::Put);

    let result = memtable.get(b"key2", 10);
    assert!(result.is_some());
    let (value, op) = result.unwrap();
    assert_eq!(value, b"value2");
    assert_eq!(op, Operation::Put);
}

#[test]
fn mod_test_memtable_scan() {
    let mut memtable = MemTable::new(1024);

    memtable
        .put(b"key1".to_vec(), b"value1".to_vec(), 1)
        .unwrap();
    memtable
        .put(b"key2".to_vec(), b"value2".to_vec(), 2)
        .unwrap();
    memtable
        .put(b"key3".to_vec(), b"value3".to_vec(), 3)
        .unwrap();

    let results = memtable.scan(b"key1", b"key3", 10);
    assert_eq!(results.len(), 2);
    assert_eq!(results[0], (b"key1".to_vec(), b"value1".to_vec()));
    assert_eq!(results[1], (b"key2".to_vec(), b"value2".to_vec()));
}

#[test]
fn mod_test_memtable_size_limit() {
    let mut memtable = MemTable::new(100); // Very small limit

    // First insert should succeed
    memtable
        .put(b"key1".to_vec(), b"value1".to_vec(), 1)
        .unwrap();

    // Eventually we should hit the limit
    let mut insert_count = 1;
    loop {
        let key = format!("key{}", insert_count).into_bytes();
        let value = format!("value{}", insert_count).into_bytes();

        match memtable.put(key, value, insert_count as u64) {
            Ok(_) => insert_count += 1,
            Err(Error::MemTableFull) => break,
            Err(e) => panic!("Unexpected error: {:?}", e),
        }

        if insert_count > 1000 {
            panic!("Never hit size limit");
        }
    }

    assert!(memtable.is_full());
}

#[test]
fn skip_list_test_skiplist_basic() {
    let mut sl = SkipList::new();

    sl.insert(b"key1".to_vec(), b"value1".to_vec(), 1, Operation::Put);
    sl.insert(b"key2".to_vec(), b"value2".to_vec(), 2, Operation::Put);
    sl.insert(b"key3".to_vec(), b"value3".to_vec(), 3, Operation::Put);

    assert_eq!(sl.size(), 3);

    let result = sl.get(b"key2", 5);
    assert!(result.is_some());
    let (value, op) = result.unwrap();
    assert_eq!(value, b"value2");
    assert_eq!(op, Operation::Put);
}

#[test]
fn skip_list_test_skiplist_versions() {
    let mut sl = SkipList::new();

    // Insert multiple versions of the same key
    sl.insert(b"key1".to_vec(), b"value1".to_vec(), 1, Operation::Put);
    sl.insert(b"key1".to_vec(), b"value2".to_vec(), 3, Operation::Put);
    sl.insert(b"key1".to_vec(), b"value3".to_vec(), 5, Operation::Put);

    // Read at different timestamps
    let result = sl.get(b"key1", 2);
    assert_eq!(result.unwrap().0, b"value1");

    let result = sl.get(b"key1", 4);
    assert_eq!(result.unwrap().0, b"value2");

    let result = sl.get(b"key1", 6);
    assert_eq!(result.unwrap().0, b"value3");
}

#[test]
fn skip_list_test_skiplist_delete() {
    let mut sl = SkipList::new();

    sl.insert(b"key1".to_vec(), b"value1".to_vec(), 1, Operation::Put);
    sl.insert(b"key1".to_vec(), Vec::new(), 3, Operation::Delete);

    // Before delete
    let result = sl.get(b"key1", 2);
    assert_eq!(result.unwrap().1, Operation::Put);

    // After delete
    let result = sl.get(b"key1", 4);
    assert_eq!(result.unwrap().1, Operation::Delete);
}

#[test]
fn skiplist_test_skiplist_basic() {
    let mut sl = SkipList::new();

    sl.insert(b"key1".to_vec(), b"value1".to_vec(), 1, Operation::Put);
    sl.insert(b"key2".to_vec(), b"value2".to_vec(), 2, Operation::Put);
    sl.insert(b"key3".to_vec(), b"value3".to_vec(), 3, Operation::Put);

    assert_eq!(sl.size(), 3);

    let result = sl.get(b"key2", 5);
    assert!(result.is_some());
    let (value, op) = result.unwrap();
    assert_eq!(value, b"value2");
    assert_eq!(op, Operation::Put);
}

#[test]
fn skiplist_test_skiplist_versions() {
    let mut sl = SkipList::new();

    // Insert multiple versions of the same key
    sl.insert(b"key1".to_vec(), b"value1".to_vec(), 1, Operation::Put);
    sl.insert(b"key1".to_vec(), b"value2".to_vec(), 3, Operation::Put);
    sl.insert(b"key1".to_vec(), b"value3".to_vec(), 5, Operation::Put);

    // Read at different timestamps
    let result = sl.get(b"key1", 2);
    assert_eq!(result.unwrap().0, b"value1");

    let result = sl.get(b"key1", 4);
    assert_eq!(result.unwrap().0, b"value2");

    let result = sl.get(b"key1", 6);
    assert_eq!(result.unwrap().0, b"value3");
}

#[test]
fn skiplist_test_skiplist_delete() {
    let mut sl = SkipList::new();

    sl.insert(b"key1".to_vec(), b"value1".to_vec(), 1, Operation::Put);
    sl.insert(b"key1".to_vec(), Vec::new(), 3, Operation::Delete);

    // Before delete
    let result = sl.get(b"key1", 2);
    assert_eq!(result.unwrap().1, Operation::Put);

    // After delete
    let result = sl.get(b"key1", 4);
    assert_eq!(result.unwrap().1, Operation::Delete);
}

#[test]
fn reads_see_the_greatest_version_not_above_the_snapshot() {
    let mut memtable = MemTable::new(1024 * 1024);
    memtable.put(b"x".to_vec(), b"v1".to_vec(), 1).unwrap();
    memtable.put(b"x".to_vec(), b"v2".to_vec(), 3).unwrap();
    memtable.put(b"x".to_vec(), b"v3".to_vec(), 5).unwrap();

    assert_eq!(memtable.get(b"x", 2), Some((b"v1".to_vec(), Operation::Put)));
    assert_eq!(memtable.get(b"x", 4), Some((b"v2".to_vec(), Operation::Put)));
    assert_eq!(memtable.get(b"x", 6), Some((b"v3".to_vec(), Operation::Put)));
    assert_eq!(memtable.get(b"x", 0), None);
    assert_eq!(memtable.get(b"x", 1), Some((b"v1".to_vec(), Operation::Put)));
    assert_eq!(memtable.get(b"x", u64::MAX), Some((b"v3".to_vec(), Operation::Put)));
    assert_eq!(memtable.get(b"y", 6), None);
    assert_eq!(memtable.get(b"", 6), None);
}

#[test]
fn scan_reports_keys_in_range_in_order() {
    let mut memtable = MemTable::new(1024 * 1024);
    memtable.put(b"a".to_vec(), b"A".to_vec(), 1).unwrap();
    memtable.put(b"b".to_vec(), b"B".to_vec(), 1).unwrap();
    memtable.put(b"c".to_vec(), b"C".to_vec(), 1).unwrap();
    memtable.put(b"d".to_vec(), b"D".to_vec(), 1).unwrap();

    assert_eq!(
        memtable.scan(b"b", b"d", 10),
        vec![(b"b".to_vec(), b"B".to_vec()), (b"c".to_vec(), b"C".to_vec())]
    );
    assert_eq!(memtable.scan(b"b", b"b", 10), Vec::new());
    assert_eq!(memtable.scan(b"d", b"b", 10), Vec::new());
    assert_eq!(memtable.scan(b"a", b"e", 0), Vec::new());
    assert_eq!(memtable.scan(b"", b"zz", 10).len(), 4);
}

#[test]
fn scan_reports_one_visible_value_per_key_and_hides_tombstones() {
    let mut memtable = MemTable::new(1024 * 1024);
    memtable.put(b"a".to_vec(), b"a1".to_vec(), 1).unwrap();
    memtable.put(b"a".to_vec(), b"a5".to_vec(), 5).unwrap();
    memtable.put(b"b".to_vec(), b"b2".to_vec(), 2).unwrap();
    memtable.delete(b"b".to_vec(), 4).unwrap();
    memtable.put(b"c".to_vec(), b"c9".to_vec(), 9).unwrap();

    assert_eq!(
        memtable.scan(b"a", b"z", 3),
        vec![(b"a".to_vec(), b"a1".to_vec()), (b"b".to_vec(), b"b2".to_vec())]
    );
    assert_eq!(memtable.scan(b"a", b"z", 4), vec![(b"a".to_vec(), b"a1".to_vec())]);
    assert_eq!(
        memtable.scan(b"a", b"z", 9),
        vec![(b"a".to_vec(), b"a5".to_vec()), (b"c".to_vec(), b"c9".to_vec())]
    );
}

#[test]
fn delete_is_seen_from_its_version_on() {
    let mut memtable = MemTable::new(1024 * 1024);
    memtable.put(b"k".to_vec(), b"v".to_vec(), 5).unwrap();
    memtable.delete(b"k".to_vec(), 8).unwrap();

    assert_eq!(memtable.get(b"k", 7), Some((b"v".to_vec(), Operation::Put)));
    assert_eq!(memtable.get(b"k", 8), Some((Vec::new(), Operation::Delete)));
    assert_eq!(memtable.get(b"k", 100), Some((Vec::new(), Operation::Delete)));
    assert_eq!(memtable.get(b"k", 4), None);
}

#[test]
fn inserting_an_existing_key_and_version_changes_nothing() {
    let mut sl = SkipList::new();
    sl.insert(b"k".to_vec(), b"first".to_vec(), 7, Operation::Put);
    sl.insert(b"k".to_vec(), b"second".to_vec(), 7, Operation::Put);
    sl.insert(b"k".to_vec(), Vec::new(), 7, Operation::Delete);

    assert_eq!(sl.size(), 1);
    assert_eq!(sl.get(b"k", 7), Some((b"first".to_vec(), Operation::Put)));
}

#[test]
fn many_inserts_in_any_order_end_up_sorted() {
    let mut sl = SkipList::new();
    let n: u64 = 500;
    // A fixed permutation of 0..n.
    for i in 0..n {
        let k = (i * 197) % n;
        sl.insert(format!("key{:04}", k).into_bytes(), format!("v{}", k).into_bytes(), k + 1, Operation::Put);
    }
    assert_eq!(sl.size(), n as usize);

    let all = sl.scan(b"", b"z", u64::MAX);
    assert_eq!(all.len(), n as usize);
    for (i, (key, value)) in all.iter().enumerate() {
        assert_eq!(key, &format!("key{:04}", i).into_bytes());
        assert_eq!(value, &format!("v{}", i).into_bytes());
    }
    for k in 0..n {
        let key = format!("key{:04}", k).into_bytes();
        assert_eq!(sl.get(&key, k + 1), Some((format!("v{}", k).into_bytes(), Operation::Put)));
        assert_eq!(sl.get(&key, k), None);
    }
}

#[test]
fn size_accounting_charges_key_value_and_overhead() {
    let mut memtable = MemTable::new(200);
    assert_eq!(memtable.memory_usage(), 0);
    assert!(!memtable.is_full());

    memtable.put(b"key".to_vec(), b"value".to_vec(), 1).unwrap();
    assert_eq!(memtable.memory_usage(), 3 + 5 + 64);
    assert_eq!(memtable.approximate_size(), 72);

    memtable.delete(b"key".to_vec(), 2).unwrap();
    assert_eq!(memtable.memory_usage(), 72 + 3 + 64);
    assert_eq!(memtable.entry_count(), 2);

    // The entry that passes the limit is inserted and reported.
    let result = memtable.put(b"k".to_vec(), b"v".to_vec(), 3);
    assert!(matches!(result, Err(Error::MemTableFull)));
    assert_eq!(memtable.memory_usage(), 139 + 66);
    assert_eq!(memtable.entry_count(), 3);
    assert!(memtable.is_full());
    assert_eq!(memtable.get(b"k", 3), Some((b"v".to_vec(), Operation::Put)));
}

#[test]
fn an_entry_that_reaches_the_limit_exactly_is_accepted() {
    let mut memtable = MemTable::new(72);
    memtable.put(b"key".to_vec(), b"value".to_vec(), 1).unwrap();
    assert!(memtable.is_full());
}

#[test]
fn internal_keys_compare_by_user_key_then_newest_first() {
    let a = InternalKey::new(b"a".to_vec(), 5, Operation::Put);
    let a_newer = InternalKey::new(b"a".to_vec(), 9, Operation::Delete);
    let b = InternalKey::new(b"b".to_vec(), 1, Operation::Put);
    let a_again = InternalKey::new(b"a".to_vec(), 5, Operation::Delete);
    let prefix = InternalKey::new(b"".to_vec(), 5, Operation::Put);

    assert_eq!(a_newer.compare(&a), KeyOrder::Less);
    assert_eq!(a.compare(&a_newer), KeyOrder::Greater);
    assert_eq!(a.compare(&b), KeyOrder::Less);
    assert_eq!(a.compare(&a_again), KeyOrder::Equal);
    assert_eq!(prefix.compare(&a), KeyOrder::Less);
}

#[test]
fn entries_do_not_depend_on_node_heights() {
    let keys: Vec<u64> = (0..200).map(|i| (i * 73) % 200).collect();
    let mut lists = Vec::new();
    for choice in 0..4 {
        let mut sl = SkipList::new();
        for (n, k) in keys.iter().enumerate() {
            let height = match choice {
                0 => 1,
                1 => 12,
                2 => 1 + n % 12,
                _ => 12 - n % 12,
            };
            sl.insert_with_height(
                format!("k{:03}", k).into_bytes(),
                format!("v{}", k).into_bytes(),
                *k,
                if k % 5 == 0 { Operation::Delete } else { Operation::Put },
                height,
            );
        }
        assert_eq!(sl.size(), 200);
        lists.push(sl);
    }
    let expected: Vec<(Vec<u8>, Vec<u8>)> = (0..200u64)
        .filter(|k| k % 5 != 0)
        .map(|k| (format!("k{:03}", k).into_bytes(), format!("v{}", k).into_bytes()))
        .collect();
    for sl in &lists {
        assert_eq!(sl.scan(b"", b"l", u64::MAX), expected);
        assert_eq!(sl.get(b"k010", 10), Some((b"v10".to_vec(), Operation::Delete)));
        assert_eq!(sl.get(b"k011", 11), Some((b"v11".to_vec(), Operation::Put)));
        assert_eq!(sl.get(b"k011", 10), None);
    }
}

#[test]
fn a_tall_node_after_short_ones_is_found() {
    let mut sl = SkipList::new();
    sl.insert_with_height(b"b".to_vec(), b"2".to_vec(), 1, Operation::Put, 1);
    sl.insert_with_height(b"d".to_vec(), b"4".to_vec(), 1, Operation::Put, 12);
    sl.insert_with_height(b"a".to_vec(), b"1".to_vec(), 1, Operation::Put, 3);
    sl.insert_with_height(b"c".to_vec(), b"3".to_vec(), 1, Operation::Put, 7);
    sl.insert_with_height(b"c".to_vec(), b"3x".to_vec(), 2, Operation::Put, 2);

    assert_eq!(
        sl.scan(b"a", b"e", 1),
        vec![
            (b"a".to_vec(), b"1".to_vec()),
            (b"b".to_vec(), b"2".to_vec()),
            (b"c".to_vec(), b"3".to_vec()),
            (b"d".to_vec(), b"4".to_vec()),
        ]
    );
    assert_eq!(sl.get(b"c", 2), Some((b"3x".to_vec(), Operation::Put)));
    assert_eq!(sl.get(b"d", 5), Some((b"4".to_vec(), Operation::Put)));
}
