use ferrisdb::store::KeyValueStore;

#[test]
fn new_creates_empty_store() {
    let store = KeyValueStore::new();
    assert!(store.is_empty());
    assert_eq!(store.len(), 0);
}

#[test]
fn set_stores_value_and_get_retrieves_it() {
    let mut store = KeyValueStore::new();

    // Test basic set and get
    store.set("user:1".to_string(), "Alice".to_string());
    assert_eq!(store.get("user:1"), Some("Alice".to_string()));

    // Test missing key
    assert_eq!(store.get("user:2"), None);

    // Test overwrite
    store.set("user:1".to_string(), "Alice Smith".to_string());
    assert_eq!(store.get("user:1"), Some("Alice Smith".to_string()));
}

#[test]
fn multiple_entries_are_stored_independently() {
    let mut store = KeyValueStore::new();

    store.set("user:1".to_string(), "Alice".to_string());
    store.set("user:2".to_string(), "Bob".to_string());
    store.set("user:3".to_string(), "Charlie".to_string());

    assert_eq!(store.len(), 3);
    assert_eq!(store.get("user:1"), Some("Alice".to_string()));
    assert_eq!(store.get("user:2"), Some("Bob".to_string()));
    assert_eq!(store.get("user:3"), Some("Charlie".to_string()));
}

#[test]
fn default_creates_empty_store() {
    let store = KeyValueStore::default();
    assert!(store.is_empty());
    assert_eq!(store.len(), 0);
}

#[test]
fn is_empty_returns_false_after_adding_entries() {
    let mut store = KeyValueStore::new();
    assert!(store.is_empty());

    store.set("key".to_string(), "value".to_string());
    assert!(!store.is_empty());
}

#[test]
fn len_increases_with_new_entries() {
    let mut store = KeyValueStore::new();
    assert_eq!(store.len(), 0);

    store.set("key1".to_string(), "value1".to_string());
    assert_eq!(store.len(), 1);

    store.set("key2".to_string(), "value2".to_string());
    assert_eq!(store.len(), 2);
}

#[test]
fn len_unchanged_when_overwriting_existing_key() {
    let mut store = KeyValueStore::new();

    store.set("key".to_string(), "value1".to_string());
    assert_eq!(store.len(), 1);

    store.set("key".to_string(), "value2".to_string());
    assert_eq!(store.len(), 1);
    assert_eq!(store.get("key"), Some("value2".to_string()));
}

#[test]
fn handles_empty_string_keys_and_values() {
    let mut store = KeyValueStore::new();

    store.set("".to_string(), "".to_string());
    assert_eq!(store.get(""), Some("".to_string()));
    assert_eq!(store.len(), 1);
}

#[test]
fn handles_unicode_keys_and_values() {
    let mut store = KeyValueStore::new();

    store.set("ü¶Ä".to_string(), "üöÄ".to_string());
    store.set("ÊµãËØï".to_string(), "—Ç–µ—Å—Ç".to_string());

    assert_eq!(store.get("ü¶Ä"), Some("üöÄ".to_string()));
    assert_eq!(store.get("ÊµãËØï"), Some("—Ç–µ—Å—Ç".to_string()));
    assert_eq!(store.len(), 2);
}

#[test]
fn get_returns_none_for_missing_keys() {
    let store = KeyValueStore::new();
    assert_eq!(store.get("nonexistent"), None);

    let mut store = KeyValueStore::new();
    store.set("existing".to_string(), "value".to_string());
    assert_eq!(store.get("different"), None);
}

#[test]
fn test_complete_functionality() {
    let mut store = KeyValueStore::new();

    // Verify empty state
    assert!(store.is_empty());
    assert_eq!(store.len(), 0);
    assert_eq!(store.get("any_key"), None);

    // Add some data
    store.set("user:1".to_string(), "Alice".to_string());
    store.set("user:2".to_string(), "Bob".to_string());
    store.set("product:1".to_string(), "Laptop".to_string());

    // Verify storage
    assert_eq!(store.len(), 3);
    assert!(!store.is_empty());

    // Verify retrieval
    assert_eq!(store.get("user:1"), Some("Alice".to_string()));
    assert_eq!(store.get("user:2"), Some("Bob".to_string()));
    assert_eq!(store.get("product:1"), Some("Laptop".to_string()));

    // Verify missing keys
    assert_eq!(store.get("user:3"), None);
    assert_eq!(store.get(""), None);

    // Test updates
    store.set("user:1".to_string(), "Alice Smith".to_string());
    assert_eq!(store.get("user:1"), Some("Alice Smith".to_string()));
    assert_eq!(store.len(), 3); // Count unchanged
}

#[test]
fn test_empty_keys_and_values() {
    let mut store = KeyValueStore::new();

    // Empty key and value should work
    store.set("".to_string(), "empty_key".to_string());
    store.set("empty_value".to_string(), "".to_string());

    assert_eq!(store.get(""), Some("empty_key".to_string()));
    assert_eq!(store.get("empty_value"), Some("".to_string()));
}

#[test]
fn test_unicode_support() {
    let mut store = KeyValueStore::new();

    // Test with various Unicode characters
    store.set("greeting:jp".to_string(), "こんにちは".to_string());
    store.set("greeting:es".to_string(), "¡Hola!".to_string());
    store.set("emoji:happy".to_string(), "😊".to_string());

    assert_eq!(store.get("greeting:jp"), Some("こんにちは".to_string()));
    assert_eq!(store.get("greeting:es"), Some("¡Hola!".to_string()));
    assert_eq!(store.get("emoji:happy"), Some("😊".to_string()));
}

#[test]
fn test_case_sensitivity() {
    let mut store = KeyValueStore::new();

    // Keys are case-sensitive
    store.set("Key".to_string(), "uppercase".to_string());
    store.set("key".to_string(), "lowercase".to_string());
    store.set("KEY".to_string(), "allcaps".to_string());

    assert_eq!(store.get("Key"), Some("uppercase".to_string()));
    assert_eq!(store.get("key"), Some("lowercase".to_string()));
    assert_eq!(store.get("KEY"), Some("allcaps".to_string()));
    assert_eq!(store.len(), 3);
}

#[test]
fn step_01_create_empty_struct() {
    let store = KeyValueStore::new();

    // At this point, we just verify it exists
    let _ = store; // Use it to avoid warning
}

#[test]
fn step_02_struct_with_hashmap() {
    let store = KeyValueStore::new();

    // We can check it's empty
    assert!(store.is_empty());
    assert_eq!(store.len(), 0);
}

#[test]
fn step_03_can_store_values() {
    let mut store = KeyValueStore::new();

    store.set("user:1".to_string(), "Alice".to_string());
    store.set("user:2".to_string(), "Bob".to_string());

    // We can verify the count
    assert_eq!(store.len(), 2);
    assert!(!store.is_empty());
}

#[test]
fn step_03_can_overwrite_values() {
    let mut store = KeyValueStore::new();

    // Store initial value
    store.set("key".to_string(), "value1".to_string());
    assert_eq!(store.len(), 1);

    // Overwrite with new value
    store.set("key".to_string(), "value2".to_string());

    // Count should still be 1
    assert_eq!(store.len(), 1);
}
