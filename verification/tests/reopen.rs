use kvs::error::KvErr;
use kvs::KvStore;

#[test]
fn persistence_across_reopen() {
    let mut store = KvStore::open(Vec::new()).unwrap();
    store.set("a".to_string(), "1".to_string()).unwrap();
    store.set("b".to_string(), "2".to_string()).unwrap();
    store.remove("a".to_string()).unwrap();
    let image = store.file_image().clone();
    drop(store);
    let reopened = KvStore::open(image).unwrap();
    assert_eq!(reopened.get("a".to_string()).unwrap(), None);
    assert_eq!(reopened.get("b".to_string()).unwrap(), Some("2".to_string()));
}

#[test]
fn reopen_answers_like_the_writer() {
    let mut store = KvStore::open(Vec::new()).unwrap();
    store.set("x".to_string(), "10".to_string()).unwrap();
    store.set("y".to_string(), "20".to_string()).unwrap();
    store.set("x".to_string(), "30".to_string()).unwrap();
    store.remove("y".to_string()).unwrap();
    let reopened = KvStore::open(store.file_image().clone()).unwrap();
    for key in ["x", "y", "z"] {
        assert_eq!(
            store.get(key.to_string()).unwrap(),
            reopened.get(key.to_string()).unwrap()
        );
    }
    assert_eq!(store.total_records(), reopened.total_records());
    assert_eq!(store.total_bytes(), reopened.total_bytes());
}

#[test]
fn corrupt_header_is_rejected() {
    assert_eq!(
        KvStore::open(vec![0u8; 2048]).err(),
        Some(KvErr::MalformedRecord)
    );
}

#[test]
fn truncated_record_is_rejected() {
    let mut store = KvStore::open(Vec::new()).unwrap();
    store.set("a".to_string(), "1".to_string()).unwrap();
    let mut image = store.file_image().clone();
    image.pop();
    assert_eq!(KvStore::open(image).err(), Some(KvErr::MalformedRecord));
}

#[test]
fn trailing_bytes_are_ignored() {
    let mut store = KvStore::open(Vec::new()).unwrap();
    store.set("a".to_string(), "1".to_string()).unwrap();
    let mut image = store.file_image().clone();
    let expected = image.len();
    image.extend_from_slice(&[0xAB, 0xCD, 0xEF]);
    let reopened = KvStore::open(image).unwrap();
    assert_eq!(reopened.file_image().len(), expected);
    assert_eq!(reopened.get("a".to_string()).unwrap(), Some("1".to_string()));
}
