use kvs::error::KvErr;
use kvs::KvStore;

fn fresh() -> KvStore {
    KvStore::open(Vec::new()).unwrap()
}

#[test]
fn basic_round_trip() {
    let mut store = fresh();
    store.set("a".to_string(), "1".to_string()).unwrap();
    store.set("b".to_string(), "2".to_string()).unwrap();
    assert_eq!(store.get("a".to_string()).unwrap(), Some("1".to_string()));
    assert_eq!(store.get("b".to_string()).unwrap(), Some("2".to_string()));
    assert_eq!(store.get("c".to_string()).unwrap(), None);
}

#[test]
fn overwrite() {
    let mut store = fresh();
    store.set("k".to_string(), "v1".to_string()).unwrap();
    store.set("k".to_string(), "v2".to_string()).unwrap();
    assert_eq!(store.get("k".to_string()).unwrap(), Some("v2".to_string()));
}

#[test]
fn repeated_set_same_value() {
    let mut store = fresh();
    store.set("k".to_string(), "v".to_string()).unwrap();
    store.set("k".to_string(), "v".to_string()).unwrap();
    assert_eq!(store.get("k".to_string()).unwrap(), Some("v".to_string()));
}

#[test]
fn remove_then_reset() {
    let mut store = fresh();
    store.set("k".to_string(), "v1".to_string()).unwrap();
    store.remove("k".to_string()).unwrap();
    assert_eq!(store.get("k".to_string()).unwrap(), None);
    store.set("k".to_string(), "v2".to_string()).unwrap();
    assert_eq!(store.get("k".to_string()).unwrap(), Some("v2".to_string()));
}

#[test]
fn set_then_remove_leaves_key_absent() {
    let mut store = fresh();
    store.set("k".to_string(), "v".to_string()).unwrap();
    store.remove("k".to_string()).unwrap();
    assert_eq!(store.get("k".to_string()).unwrap(), None);
}

#[test]
fn remove_absent_key() {
    let mut store = fresh();
    assert_eq!(store.remove("x".to_string()), Err(KvErr::KeyNotFound));
    assert_eq!(store.file_image().len(), 1024);
    assert_eq!(store.total_records(), 0);
}

#[test]
fn remove_key_never_set_fails() {
    let mut store = fresh();
    store.set("a".to_string(), "1".to_string()).unwrap();
    assert_eq!(store.remove("b".to_string()), Err(KvErr::KeyNotFound));
    assert_eq!(store.get("a".to_string()).unwrap(), Some("1".to_string()));
}

#[test]
fn fresh_open_initializes() {
    let store = fresh();
    assert_eq!(store.file_image().len(), kvs::HEADER_SIZE);
    assert_eq!(store.total_records(), 0);
    assert_eq!(store.total_bytes(), 0);
    assert_eq!(store.get("anything".to_string()).unwrap(), None);
}

#[test]
fn last_write_wins_over_history() {
    let mut store = fresh();
    store.set("a".to_string(), "1".to_string()).unwrap();
    store.set("b".to_string(), "2".to_string()).unwrap();
    store.set("a".to_string(), "3".to_string()).unwrap();
    store.remove("b".to_string()).unwrap();
    store.set("b".to_string(), "4".to_string()).unwrap();
    store.remove("a".to_string()).unwrap();
    assert_eq!(store.get("a".to_string()).unwrap(), None);
    assert_eq!(store.get("b".to_string()).unwrap(), Some("4".to_string()));
}

#[test]
fn unicode_keys_and_values_round_trip() {
    let mut store = fresh();
    store.set("héllo".to_string(), "wörld ✓".to_string()).unwrap();
    store.set("ключ".to_string(), "значение".to_string()).unwrap();
    assert_eq!(
        store.get("héllo".to_string()).unwrap(),
        Some("wörld ✓".to_string())
    );
    assert_eq!(
        store.get("ключ".to_string()).unwrap(),
        Some("значение".to_string())
    );
}

#[test]
fn error_descriptions() {
    assert_eq!(KvErr::KeyNotFound.describe(), "Key not found");
    assert_eq!(KvErr::MalformedRecord.describe(), "malformed record");
    assert_eq!(KvErr::RecordTooLarge.describe(), "record too large");
    assert_eq!(KvErr::Io.describe(), "io error");
}
