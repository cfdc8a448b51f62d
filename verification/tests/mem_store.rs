use kvs::mem::KvStore as MemStore;

#[test]
fn mem_set_get() {
    let mut store = MemStore::new();
    assert_eq!(store.get("a".to_string()), None);
    store.set("a".to_string(), "1".to_string());
    store.set("b".to_string(), "2".to_string());
    assert_eq!(store.get("a".to_string()), Some("1".to_string()));
    assert_eq!(store.get("b".to_string()), Some("2".to_string()));
}

#[test]
fn mem_overwrite() {
    let mut store = MemStore::new();
    store.set("k".to_string(), "v1".to_string());
    store.set("k".to_string(), "v2".to_string());
    assert_eq!(store.get("k".to_string()), Some("v2".to_string()));
}

#[test]
fn mem_remove() {
    let mut store = MemStore::new();
    store.set("k".to_string(), "v".to_string());
    store.remove("k".to_string());
    assert_eq!(store.get("k".to_string()), None);
    // Removing an absent key is a no-op.
    store.remove("k".to_string());
    assert_eq!(store.get("k".to_string()), None);
}
