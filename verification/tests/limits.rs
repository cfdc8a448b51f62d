use kvs::error::KvErr;
use kvs::KvStore;

// A put record's payload is 13 bytes of framing plus the UTF-8 bytes of the
// key and the value, and must stay within 65534 bytes.

#[test]
fn largest_payload_is_accepted() {
    let mut store = KvStore::open(Vec::new()).unwrap();
    let value = "x".repeat(65534 - 13 - 1);
    assert_eq!(store.set("k".to_string(), value.clone()), Ok(()));
    assert_eq!(store.get("k".to_string()).unwrap(), Some(value));
    assert_eq!(store.total_bytes(), 2 + 65534);
}

#[test]
fn oversized_payload_is_rejected_without_state_change() {
    let mut store = KvStore::open(Vec::new()).unwrap();
    store.set("k".to_string(), "old".to_string()).unwrap();
    let records = store.total_records();
    let length = store.file_image().len();
    let value = "x".repeat(65535 - 13 - 1);
    assert_eq!(
        store.set("k".to_string(), value),
        Err(KvErr::RecordTooLarge)
    );
    assert_eq!(store.get("k".to_string()).unwrap(), Some("old".to_string()));
    assert_eq!(store.total_records(), records);
    assert_eq!(store.file_image().len(), length);
}

#[test]
fn oversized_key_is_rejected() {
    let mut store = KvStore::open(Vec::new()).unwrap();
    let key = "k".repeat(70000);
    assert_eq!(
        store.set(key, "v".to_string()),
        Err(KvErr::RecordTooLarge)
    );
    assert_eq!(store.file_image().len(), 1024);
}
