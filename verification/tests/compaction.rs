use kvs::KvStore;

#[test]
fn thousand_overwrites_then_compact() {
    let mut store = KvStore::open(Vec::new()).unwrap();
    for i in 0..1000 {
        store.set("k".to_string(), i.to_string()).unwrap();
    }
    store.compact().unwrap();
    assert_eq!(store.get("k".to_string()).unwrap(), Some("999".to_string()));
    // One record remains: a 2-byte prefix and a payload of tag (1), record
    // id (8), and the length-prefixed key "k" (2 + 1) and value "999" (2 + 3).
    assert_eq!(store.total_records(), 1);
    assert_eq!(store.total_bytes(), 19);
    assert_eq!(store.file_image().len(), kvs::HEADER_SIZE + 19);
    let reopened = KvStore::open(store.file_image().clone()).unwrap();
    assert_eq!(reopened.get("k".to_string()).unwrap(), Some("999".to_string()));
}

#[test]
fn compact_preserves_lookups() {
    let mut store = KvStore::open(Vec::new()).unwrap();
    store.set("a".to_string(), "1".to_string()).unwrap();
    store.set("b".to_string(), "2".to_string()).unwrap();
    store.set("a".to_string(), "3".to_string()).unwrap();
    store.set("c".to_string(), "4".to_string()).unwrap();
    store.remove("b".to_string()).unwrap();
    let before: Vec<Option<String>> = ["a", "b", "c", "d"]
        .iter()
        .map(|k| store.get(k.to_string()).unwrap())
        .collect();
    store.compact().unwrap();
    let after: Vec<Option<String>> = ["a", "b", "c", "d"]
        .iter()
        .map(|k| store.get(k.to_string()).unwrap())
        .collect();
    assert_eq!(before, after);
    // Two live keys remain, so exactly two records remain.
    assert_eq!(store.total_records(), 2);
    assert_eq!(
        store.file_image().len() as u64,
        1024 + store.total_bytes()
    );
}

#[test]
fn compact_then_reopen() {
    let mut store = KvStore::open(Vec::new()).unwrap();
    store.set("a".to_string(), "1".to_string()).unwrap();
    store.set("b".to_string(), "2".to_string()).unwrap();
    store.remove("a".to_string()).unwrap();
    store.compact().unwrap();
    let reopened = KvStore::open(store.file_image().clone()).unwrap();
    assert_eq!(reopened.get("a".to_string()).unwrap(), None);
    assert_eq!(reopened.get("b".to_string()).unwrap(), Some("2".to_string()));
    assert_eq!(reopened.total_records(), 1);
}

#[test]
fn compact_empty_store() {
    let mut store = KvStore::open(Vec::new()).unwrap();
    store.set("a".to_string(), "1".to_string()).unwrap();
    store.remove("a".to_string()).unwrap();
    store.compact().unwrap();
    assert_eq!(store.total_records(), 0);
    assert_eq!(store.total_bytes(), 0);
    assert_eq!(store.file_image().len(), 1024);
}
