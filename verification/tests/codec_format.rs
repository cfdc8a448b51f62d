use kvs::codec::{decode_payload, encode_payload};
use kvs::txlog::{LogEntry, LogOperation, LogPointer};

#[test]
fn put_payload_bytes_are_exact() {
    let entry = LogEntry {
        logid: 5,
        operation: LogOperation::Put("a".to_string(), "1".to_string()),
    };
    let payload = encode_payload(&entry).unwrap();
    let expected = vec![
        0u8, // put tag
        5, 0, 0, 0, 0, 0, 0, 0, // record id, little endian
        1, 0,    // key length, little endian
        b'a', // key bytes
        1, 0,    // value length, little endian
        b'1', // value bytes
    ];
    assert_eq!(payload, expected);
}

#[test]
fn rm_payload_bytes_are_exact() {
    let entry = LogEntry {
        logid: 7,
        operation: LogOperation::Rm("ab".to_string()),
    };
    let payload = encode_payload(&entry).unwrap();
    let expected = vec![
        1u8, // remove tag
        7, 0, 0, 0, 0, 0, 0, 0, // record id, little endian
        2, 0, // key length, little endian
        b'a', b'b', // key bytes
    ];
    assert_eq!(payload, expected);
}

#[test]
fn payload_round_trips() {
    let entry = LogEntry {
        logid: 42,
        operation: LogOperation::Put("clé".to_string(), "värde".to_string()),
    };
    let payload = encode_payload(&entry).unwrap();
    let back = decode_payload(&payload).unwrap();
    assert_eq!(back.logid, 42);
    match back.operation {
        LogOperation::Put(k, v) => {
            assert_eq!(k, "clé");
            assert_eq!(v, "värde");
        }
        LogOperation::Rm(_) => panic!("decoded a remove from a put payload"),
    }
}

#[test]
fn short_payload_does_not_decode() {
    assert!(decode_payload(&[0u8; 10]).is_none());
}

#[test]
fn unknown_tag_does_not_decode() {
    let mut bytes = vec![9u8];
    bytes.extend_from_slice(&[0u8; 10]);
    assert!(decode_payload(&bytes).is_none());
}

#[test]
fn invalid_utf8_key_does_not_decode() {
    let bytes = vec![
        1u8, // remove tag
        0, 0, 0, 0, 0, 0, 0, 0, // record id
        1, 0,    // key length
        0xFF, // not valid UTF-8
    ];
    assert!(decode_payload(&bytes).is_none());
}

#[test]
fn inconsistent_length_does_not_decode() {
    let bytes = vec![
        1u8, // remove tag
        0, 0, 0, 0, 0, 0, 0, 0, // record id
        5, 0, // key length, but only one key byte follows
        b'a',
    ];
    assert!(decode_payload(&bytes).is_none());
}

#[test]
fn log_pointer_starts_at_zero() {
    let p = LogPointer::new();
    assert_eq!(p.offset, 0);
    assert_eq!(p.size, 0);
}

#[test]
fn fresh_image_header_prefix() {
    let store = kvs::KvStore::open(Vec::new()).unwrap();
    let image = store.file_image();
    assert_eq!(image.len(), 1024);
    // 4-byte little-endian length of the header payload: two 8-byte counters.
    assert_eq!(&image[0..4], &[16, 0, 0, 0]);
    // Both counters zero, padding zero.
    assert!(image[4..].iter().all(|b| *b == 0));
}
