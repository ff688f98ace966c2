use buffoon::output_stream::write_message;
use buffoon::{serialize, serializer_for, Entry, Error, Message, OutputStream, OutputWriter, Value};

fn sample() -> Message {
    Message {
        entries: vec![
            Entry { tag: 1, value: Value::Varint(150) },
            Entry {
                tag: 2,
                value: Value::Nested(Message {
                    entries: vec![
                        Entry { tag: 1, value: Value::Bytes(b"ab".to_vec()) },
                        Entry { tag: 3, value: Value::Packed(vec![1, 128]) },
                    ],
                }),
            },
        ],
    }
}

#[test]
fn sizing_pass_counts_every_byte() {
    let msg = sample();
    let bytes = serialize(&msg);
    let expect = vec![
        0x08, 0x96, 0x01, // field 1 = 150
        0x12, 0x09, // field 2, nine bytes
        0x0A, 0x02, b'a', b'b', // field 1 = "ab"
        0x1A, 0x03, 0x01, 0x80, 0x01, // field 3 = packed [1, 128]
    ];
    assert_eq!(bytes, expect);
    let s = serializer_for(&msg);
    assert_eq!(s.size(), bytes.len());
    assert_eq!(s.lengths_slice(), &[9usize, 3][..]);
}

#[test]
fn writing_pass_replays_the_lengths() {
    let msg = sample();
    let s = serializer_for(&msg);
    let mut out = OutputWriter::new(s.lengths_slice(), vec![0xEE]);
    write_message(&mut out, &msg).unwrap();
    let mut expect = vec![0xEE];
    expect.extend(serialize(&msg));
    assert_eq!(out.into_inner(), expect);
}

#[test]
fn serialize_appends_to_the_writer() {
    let msg = sample();
    let s = serializer_for(&msg);
    let mut buf = vec![1, 2];
    s.serialize(&msg, &mut buf);
    let mut expect = vec![1, 2];
    expect.extend(serialize(&msg));
    assert_eq!(buf, expect);
}

#[test]
fn serialize_into_a_large_enough_buffer() {
    let msg = sample();
    let s = serializer_for(&msg);
    let mut dst = [0xAAu8; 16];
    assert_eq!(s.serialize_into(&msg, &mut dst), Ok(()));
    let bytes = serialize(&msg);
    assert_eq!(&dst[..bytes.len()], &bytes[..]);
    assert_eq!(&dst[bytes.len()..], &[0xAA, 0xAA][..]);
}

#[test]
fn serialize_into_a_small_buffer_fails() {
    let msg = sample();
    let s = serializer_for(&msg);
    let mut dst = [0u8; 13];
    assert_eq!(s.serialize_into(&msg, &mut dst), Err(Error::DestinationTooSmall));
    assert_eq!(dst, [0u8; 13]);
}

#[test]
fn sizing_pass_by_field() {
    let mut s = buffoon::Serializer::new();
    s.write_varint(1, 300);
    assert_eq!(s.size(), 3);
    s.write_bytes(2, b"xyz");
    assert_eq!(s.size(), 8);
    s.write_packed(3, &[]).unwrap();
    assert_eq!(s.size(), 8);
    s.write_packed(4, &[5, 6]).unwrap();
    assert_eq!(s.size(), 12);
    assert_eq!(s.lengths_slice(), &[0usize, 2][..]);
}

#[test]
fn writing_pass_by_field() {
    let lengths = [0usize, 2];
    let mut w = OutputWriter::new(&lengths, Vec::new());
    w.write_varint(1, 300);
    w.write_bytes(2, b"xyz");
    w.write_packed(3, &[]).unwrap();
    w.write_packed(4, &[5, 6]).unwrap();
    assert_eq!(
        w.into_inner(),
        vec![0x08, 0xAC, 0x02, 0x12, 0x03, b'x', b'y', b'z', 0x22, 0x02, 0x05, 0x06]
    );
}

#[test]
fn nested_message_opens_and_closes() {
    let inner = Message { entries: vec![Entry { tag: 1, value: Value::Varint(1) }] };
    let mut s = buffoon::Serializer::new();
    let (descend, mark) = s.begin_nested(5, &inner).unwrap();
    assert!(descend);
    write_message(&mut s, &inner).unwrap();
    s.end_nested(5, mark, &inner);
    assert_eq!(s.size(), 4);
    assert_eq!(s.lengths_slice(), &[2usize][..]);

    let empty = Message { entries: vec![] };
    let lengths = [0usize];
    let mut w = OutputWriter::new(&lengths, Vec::new());
    let (descend, mark) = w.begin_nested(5, &empty).unwrap();
    assert!(!descend);
    w.end_nested(5, mark, &empty);
    assert!(w.into_inner().is_empty());
}

#[test]
fn writing_pass_reports_an_exhausted_table() {
    let msg = Message { entries: vec![Entry { tag: 1, value: Value::Varint(1) }] };
    let lengths: [usize; 0] = [];
    let mut w = OutputWriter::new(&lengths, Vec::new());
    assert_eq!(w.write_packed(2, &[1, 2]), Err(Error::InvalidSerializer));
    assert!(matches!(w.begin_nested(3, &msg), Err(Error::InvalidSerializer)));
    assert!(w.into_inner().is_empty());
}

#[test]
fn writing_pass_skips_a_zero_entry_whatever_the_value() {
    let msg = Message { entries: vec![Entry { tag: 1, value: Value::Varint(1) }] };
    let lengths = [0usize, 0, 3];
    let mut w = OutputWriter::new(&lengths, Vec::new());
    w.write_packed(2, &[1, 2]).unwrap();
    let (descend, mark) = w.begin_nested(3, &msg).unwrap();
    assert!(!descend);
    w.end_nested(3, mark, &msg);
    // The next entry is used by the next block: its length is written as
    // recorded, whatever the values.
    w.write_packed(4, &[7]).unwrap();
    assert_eq!(w.into_inner(), vec![0x22, 0x03, 0x07]);
}
