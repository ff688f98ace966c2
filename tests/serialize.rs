use buffoon::{serialize, Entry, Message, Value};

#[test]
fn test_writing_unit_struct() {
    let empty = Message { entries: vec![] };
    let bytes = serialize(&empty);
    assert!(bytes.is_empty());
}

#[test]
fn test_writing_simple_message() {
    let simple = Message {
        entries: vec![Entry { tag: 1, value: Value::Bytes(b"hello".to_vec()) }],
    };
    let bytes = serialize(&simple);
    let expect = b"\x0A\x05hello";
    assert!(bytes == expect, "expect={:?}; actual={:?}", expect, bytes);
}

#[test]
fn test_serializing_packed_varints() {
    let simple = Message {
        entries: vec![Entry { tag: 4, value: Value::Packed(vec![3u64, 270, 86942]) }],
    };
    let bytes = serialize(&simple);
    let expect = b"\x22\x06\x03\x8e\x02\x9e\xa7\x05";
    assert_eq!(bytes, expect);
}
