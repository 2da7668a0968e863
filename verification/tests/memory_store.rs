use kvs::memory::KvStore;

#[test]
fn set_then_get_returns_value() {
    let mut store = KvStore::new();
    store.set("key".to_owned(), "value".to_owned());
    let val = store.get("key".to_owned());
    assert_eq!(val, Some("value".to_owned()));
}

#[test]
fn get_missing_key_is_none() {
    let store = KvStore::new();
    assert_eq!(store.get("missing".to_owned()), None);
}

#[test]
fn set_overwrites_previous_value() {
    let mut store = KvStore::new();
    store.set("key".to_owned(), "first".to_owned());
    store.set("key".to_owned(), "second".to_owned());
    assert_eq!(store.get("key".to_owned()), Some("second".to_owned()));
}

#[test]
fn remove_then_get_is_none() {
    let mut store = KvStore::new();
    store.set("key".to_owned(), "value".to_owned());
    store.remove("key".to_owned());
    assert_eq!(store.get("key".to_owned()), None);
}

#[test]
fn remove_absent_key_changes_nothing() {
    let mut store = KvStore::new();
    store.set("a".to_owned(), "1".to_owned());
    store.remove("b".to_owned());
    assert_eq!(store.get("a".to_owned()), Some("1".to_owned()));
    assert_eq!(store.get("b".to_owned()), None);
}

#[test]
fn other_keys_unchanged_by_set_and_remove() {
    let mut store = KvStore::new();
    store.set("a".to_owned(), "1".to_owned());
    store.set("b".to_owned(), "2".to_owned());
    store.remove("a".to_owned());
    assert_eq!(store.get("b".to_owned()), Some("2".to_owned()));
    store.set("c".to_owned(), "3".to_owned());
    assert_eq!(store.get("b".to_owned()), Some("2".to_owned()));
}

#[test]
fn default_store_is_empty() {
    let store: KvStore = Default::default();
    assert_eq!(store.get("key".to_owned()), None);
}

#[test]
fn empty_key_and_value_are_stored() {
    let mut store = KvStore::new();
    store.set(String::new(), String::new());
    assert_eq!(store.get(String::new()), Some(String::new()));
}

#[test]
fn get_follows_the_last_call_on_each_key() {
    let mut store = KvStore::new();
    store.set("a".to_owned(), "1".to_owned());
    store.set("b".to_owned(), "2".to_owned());
    store.set("a".to_owned(), "3".to_owned());
    store.remove("b".to_owned());
    store.set("c".to_owned(), "4".to_owned());
    store.remove("c".to_owned());
    store.set("c".to_owned(), "5".to_owned());
    assert_eq!(store.get("a".to_owned()), Some("3".to_owned()));
    assert_eq!(store.get("b".to_owned()), None);
    assert_eq!(store.get("c".to_owned()), Some("5".to_owned()));
    assert_eq!(store.get("d".to_owned()), None);
}
