use ferrisdb::store::CaseInsensitiveStore;

#[test]
fn set_and_get_work_case_insensitively() {
    let mut store = CaseInsensitiveStore::new();

    store.set("Hello".to_string(), "world".to_string());

    assert_eq!(store.get("Hello"), Some("world".to_string()));
    assert_eq!(store.get("hello"), Some("world".to_string()));
    assert_eq!(store.get("HELLO"), Some("world".to_string()));
    assert_eq!(store.get("hElLo"), Some("world".to_string()));
}

#[test]
fn overwrite_preserves_most_recent_key_casing() {
    let mut store = CaseInsensitiveStore::new();

    store.set("hello".to_string(), "value1".to_string());
    store.set("HELLO".to_string(), "value2".to_string());
    store.set("Hello".to_string(), "value3".to_string());

    assert_eq!(store.len(), 1);
    assert_eq!(store.get("hello"), Some("value3".to_string()));

    let keys = store.keys();
    assert_eq!(keys.len(), 1);
    assert_eq!(keys[0], "Hello");
}

#[test]
fn keys_returns_current_original_casing() {
    let mut store = CaseInsensitiveStore::new();

    store.set("First".to_string(), "1".to_string());
    store.set("SECOND".to_string(), "2".to_string());
    store.set("tHiRd".to_string(), "3".to_string());

    let mut keys = store.keys();
    keys.sort();

    assert_eq!(keys, vec!["First", "SECOND", "tHiRd"]);
}

#[test]
fn delete_works_case_insensitively() {
    let mut store = CaseInsensitiveStore::new();

    store.set("Hello".to_string(), "world".to_string());

    assert_eq!(store.delete("HELLO"), Some("world".to_string()));
    assert_eq!(store.get("Hello"), None);
    assert_eq!(store.len(), 0);
}

#[test]
fn empty_store_and_missing_keys_return_defaults() {
    let mut store = CaseInsensitiveStore::new();

    assert_eq!(store.get("anything"), None);
    assert_eq!(store.delete("anything"), None);
    assert_eq!(store.keys(), Vec::<String>::new());
    assert_eq!(store.len(), 0);
}

#[test]
fn keys_differing_in_case_share_one_entry() {
    let mut store = CaseInsensitiveStore::new();
    store.set("\u{c9}COLE".to_string(), "1".to_string());
    store.set("\u{e9}cole".to_string(), "2".to_string());
    store.set("other".to_string(), "3".to_string());

    assert_eq!(store.len(), 2);
    assert_eq!(store.get("\u{c9}cole"), Some("2".to_string()));
    let mut keys = store.keys();
    keys.sort();
    assert_eq!(keys, vec!["other".to_string(), "\u{e9}cole".to_string()]);
    assert_eq!(store.delete("OTHER"), Some("3".to_string()));
    assert_eq!(store.delete("OTHER"), None);
    assert_eq!(store.len(), 1);
}

#[test]
fn normalized_keys_are_used_as_given() {
    let mut store = CaseInsensitiveStore::new();
    store.set_normalized("key".to_string(), "KeY".to_string(), "1".to_string());
    store.set_normalized("KEY".to_string(), "other".to_string(), "2".to_string());

    assert_eq!(store.len(), 2);
    assert_eq!(store.get_normalized("key"), Some("1".to_string()));
    assert_eq!(store.get_normalized("KEY"), Some("2".to_string()));
    assert_eq!(store.get_normalized("Key"), None);
    // A lookup by key goes through the lowercase form.
    assert_eq!(store.get("KEY"), Some("1".to_string()));

    store.set_normalized("key".to_string(), "kEy".to_string(), "3".to_string());
    assert_eq!(store.len(), 2);
    let mut keys = store.keys();
    keys.sort();
    assert_eq!(keys, vec!["kEy".to_string(), "other".to_string()]);

    assert_eq!(store.delete_normalized("KEY"), Some("2".to_string()));
    assert_eq!(store.delete_normalized("KEY"), None);
    assert_eq!(store.delete("Key"), Some("3".to_string()));
    assert_eq!(store.len(), 0);
}
