use buffoon::{
    deserialize, serialize, Entry, Error, InputStream, Message, Schema, SchemaField, Shape, Value,
    Varint,
};

fn field(tag: u32, shape: Shape) -> SchemaField {
    SchemaField { tag, shape }
}

fn entry(tag: u32, value: Value) -> Entry {
    Entry { tag, value }
}

#[test]
fn packed_round_trip() {
    let msg = Message { entries: vec![entry(4, Value::Packed(vec![3, 270, 86942]))] };
    let bytes = serialize(&msg);
    assert_eq!(bytes, b"\x22\x06\x03\x8e\x02\x9e\xa7\x05".to_vec());
    let schema = Schema { fields: vec![field(4, Shape::Packed)] };
    assert_eq!(deserialize(bytes, &schema).unwrap(), msg);
}

#[test]
fn string_field_bytes_and_read_back() {
    let msg = Message { entries: vec![entry(1, Value::Bytes(b"hello".to_vec()))] };
    let bytes = serialize(&msg);
    assert_eq!(bytes, vec![0x0A, 0x05, 0x68, 0x65, 0x6C, 0x6C, 0x6F]);
    let mut input = InputStream::from(bytes);
    let f = input.read_field().unwrap().unwrap();
    assert_eq!(f.read_string().unwrap(), "hello");
    assert!(input.read_field().unwrap().is_none());
}

#[test]
fn round_trip_of_every_field_shape() {
    let inner = Message {
        entries: vec![entry(1, Value::Varint(7)), entry(2, Value::Bytes(b"in".to_vec()))],
    };
    let msg = Message {
        entries: vec![
            entry(1, Value::Varint(u64::MAX)),
            entry(2, Value::Bytes(vec![])),
            entry(3, Value::Packed(vec![0, 1, 300])),
            entry(4, Value::Nested(inner)),
            entry(1, Value::Varint(0)),
        ],
    };
    let inner_schema = Schema { fields: vec![field(1, Shape::Varint), field(2, Shape::Bytes)] };
    let schema = Schema {
        fields: vec![
            field(1, Shape::Varint),
            field(2, Shape::Bytes),
            field(3, Shape::Packed),
            field(4, Shape::Nested(inner_schema)),
        ],
    };
    let bytes = serialize(&msg);
    assert_eq!(deserialize(bytes, &schema).unwrap(), msg);
}

#[test]
fn empty_nested_messages_are_left_out() {
    let msg = Message {
        entries: vec![
            entry(1, Value::Nested(Message { entries: vec![] })),
            entry(
                2,
                Value::Nested(Message {
                    entries: vec![entry(3, Value::Nested(Message { entries: vec![] }))],
                }),
            ),
        ],
    };
    assert_eq!(buffoon::serializer_for(&msg).size(), 0);
    assert!(serialize(&msg).is_empty());
}

#[test]
fn empty_packed_list_is_left_out() {
    let msg = Message { entries: vec![entry(4, Value::Packed(vec![])), entry(1, Value::Varint(1))] };
    assert_eq!(serialize(&msg), vec![0x08, 0x01]);
}

#[test]
fn skipping_leaves_the_cursor_at_the_end() {
    let mut i = InputStream::from(b"\x00\x08\x0A\x04zomg\x12\x03lol".to_vec());
    i.read_field().unwrap().unwrap().skip().unwrap();
    let f = i.read_field().unwrap().unwrap();
    assert_eq!(f.tag(), 1);
    assert_eq!(f.read_string().unwrap(), "zomg");
    let f = i.read_field().unwrap().unwrap();
    assert_eq!(f.tag(), 2);
    f.skip().unwrap();
    assert!(i.read_field().unwrap().is_none());
    assert!(i.read_field().unwrap().is_none());
}

#[test]
fn nested_overrun_is_rejected() {
    // Field 1 holds two bytes: a header for field 1 and a length of five,
    // which runs past the enclosing message.
    let bytes = vec![0x0A, 0x02, 0x0A, 0x05, 1, 2, 3, 4, 5];
    let inner = Schema { fields: vec![field(1, Shape::Nested(Schema { fields: vec![] }))] };
    let schema = Schema { fields: vec![field(1, Shape::Nested(inner))] };
    assert_eq!(deserialize(bytes, &schema), Err(Error::NestedTooLong));
}

#[test]
fn nested_read_restores_the_parent_budget() {
    let bytes = vec![0x0A, 0x02, 0x08, 0x07, 0x10, 0x09];
    let mut input = InputStream::from(bytes);
    let f = input.read_field().unwrap().unwrap();
    let inner = Schema { fields: vec![field(1, Shape::Varint)] };
    let m = f.read_nested(&inner).unwrap();
    assert_eq!(m, Message { entries: vec![entry(1, Value::Varint(7))] });
    let f = input.read_field().unwrap().unwrap();
    assert_eq!(f.tag(), 2);
    assert_eq!(f.read_varint().unwrap(), 9);
    assert!(input.read_field().unwrap().is_none());
}

#[test]
fn unknown_fields_are_skipped() {
    let msg = Message {
        entries: vec![
            entry(1, Value::Varint(5)),
            entry(7, Value::Bytes(b"x".to_vec())),
            entry(8, Value::Varint(300)),
            entry(9, Value::Nested(Message { entries: vec![entry(1, Value::Varint(1))] })),
            entry(2, Value::Varint(6)),
        ],
    };
    let schema = Schema { fields: vec![field(1, Shape::Varint), field(2, Shape::Varint)] };
    let decoded = deserialize(serialize(&msg), &schema).unwrap();
    assert_eq!(
        decoded,
        Message { entries: vec![entry(1, Value::Varint(5)), entry(2, Value::Varint(6))] }
    );
}

#[test]
fn invalid_wire_type_is_an_error() {
    let mut i = InputStream::from(vec![0x0F, 0x00]);
    assert!(matches!(i.read_field(), Err(Error::InvalidWireType)));
    let schema = Schema { fields: vec![] };
    assert_eq!(deserialize(vec![0x0E], &schema), Err(Error::InvalidWireType));
}

#[test]
fn short_payload_is_unexpected_eof() {
    let mut i = InputStream::from(vec![0x0A, 0x05, b'a', b'b']);
    let f = i.read_field().unwrap().unwrap();
    assert_eq!(f.read_bytes(), Err(Error::UnexpectedEof));
    let schema = Schema { fields: vec![] };
    assert_eq!(deserialize(vec![0x0A, 0x05, b'a'], &schema), Err(Error::UnexpectedEof));
    assert_eq!(deserialize(vec![0x08], &schema), Err(Error::UnexpectedEof));
}

#[test]
fn truncated_nested_message_is_unexpected_eof() {
    let schema = Schema { fields: vec![field(1, Shape::Nested(Schema { fields: vec![] }))] };
    assert_eq!(deserialize(vec![0x0A, 0x03, 0x08], &schema), Err(Error::UnexpectedEof));
}

#[test]
fn wrong_wire_type_is_a_type_mismatch() {
    let schema = Schema { fields: vec![field(1, Shape::Bytes)] };
    assert_eq!(deserialize(vec![0x08, 0x01], &schema), Err(Error::TypeMismatch));
    let mut i = InputStream::from(vec![0x08, 0x01]);
    let f = i.read_field().unwrap().unwrap();
    assert!(matches!(f.read_packed(), Err(Error::TypeMismatch)));
}

#[test]
fn invalid_utf8_is_an_encoding_error() {
    let mut i = InputStream::from(vec![0x0A, 0x02, 0xC3, 0x28]);
    let f = i.read_field().unwrap().unwrap();
    assert_eq!(f.read_string(), Err(Error::InvalidEncoding));
}

#[test]
fn valid_utf8_is_read_as_text() {
    let mut i = InputStream::from(vec![0x0A, 0x03, b'h', 0xC3, 0xA9]);
    let f = i.read_field().unwrap().unwrap();
    assert_eq!(f.read_string().unwrap(), "h\u{e9}");
}

#[test]
fn fixed_width_fields_are_unimplemented() {
    let mut i = InputStream::from(vec![0x09, 1, 2, 3, 4, 5, 6, 7, 8]);
    let f = i.read_field().unwrap().unwrap();
    assert_eq!(f.skip(), Err(Error::UnimplementedWireType));
    let schema = Schema { fields: vec![] };
    assert_eq!(deserialize(vec![0x0D, 1, 2, 3, 4], &schema), Err(Error::UnimplementedWireType));
}

#[test]
fn overlong_varint_field_overflows() {
    let mut bytes = vec![0x08];
    bytes.extend_from_slice(&[0xFF; 10]);
    let schema = Schema { fields: vec![field(1, Shape::Varint)] };
    assert_eq!(deserialize(bytes, &schema), Err(Error::VarintOverflow));
}

#[test]
fn packed_values_with_a_bad_varint_fail() {
    let schema = Schema { fields: vec![field(4, Shape::Packed)] };
    assert_eq!(deserialize(vec![0x22, 0x02, 0x03, 0x80], &schema), Err(Error::UnexpectedEof));
}

#[test]
fn first_declaration_of_a_tag_wins() {
    let schema = Schema { fields: vec![field(1, Shape::Varint), field(1, Shape::Bytes)] };
    assert_eq!(
        deserialize(vec![0x08, 0x02], &schema).unwrap(),
        Message { entries: vec![entry(1, Value::Varint(2))] }
    );
    assert!(matches!(schema.lookup(1), Some(Shape::Varint)));
    assert!(schema.lookup(2).is_none());
}

#[test]
fn typed_reads_check_the_width() {
    let bytes = vec![0x08, 0xAC, 0x02, 0x10, 0xAC, 0x02, 0x18, 0x7F, 0x20, 0x05];
    let mut i = InputStream::from(bytes);
    let f = i.read_field().unwrap().unwrap();
    assert_eq!(f.read::<u8>(), Err(Error::VarintOverflow));
    let mut i = InputStream::from(vec![0x10, 0xAC, 0x02, 0x18, 0x7F, 0x20, 0x05]);
    let f = i.read_field().unwrap().unwrap();
    assert_eq!(f.read::<u16>(), Ok(300));
    let f = i.read_field().unwrap().unwrap();
    assert_eq!(f.read::<u8>(), Ok(127));
    let f = i.read_field().unwrap().unwrap();
    assert_eq!(f.read::<usize>(), Ok(5));
    assert!(i.read_field().unwrap().is_none());
}

#[test]
fn typed_read_of_a_large_u32() {
    let mut i = InputStream::from(vec![0x08, 0xFF, 0xFF, 0xFF, 0xFF, 0x0F, 0x08, 0x80, 0x80, 0x80, 0x80, 0x10]);
    let f = i.read_field().unwrap().unwrap();
    assert_eq!(f.read::<u32>(), Ok(u32::MAX));
    let f = i.read_field().unwrap().unwrap();
    assert_eq!(f.read::<u32>(), Err(Error::VarintOverflow));
}

#[test]
fn varint_widths_widen_to_64_bits() {
    assert_eq!(200u8.to_wire(), 200);
    assert_eq!(<u16 as Varint>::from_wire(70000), None);
    assert_eq!(<u32 as Varint>::from_wire(70000), Some(70000));
    assert_eq!(<u64 as Varint>::from_wire(u64::MAX), Some(u64::MAX));
}

#[test]
fn tag_beyond_32_bits_overflows() {
    // The key 2^35 carries tag 2^32, one past the largest tag.
    let mut i = InputStream::from(vec![0x80, 0x80, 0x80, 0x80, 0x80, 0x01, 0x00]);
    assert!(matches!(i.read_field(), Err(Error::VarintOverflow)));
}

#[test]
fn raw_stream_reads() {
    let mut i = buffoon::input_stream::from(vec![0xAC, 0x02, 0x03, b'a', b'b', b'c', 0x05]);
    assert_eq!(i.read_varint(), Ok(Some(300)));
    assert_eq!(i.read_length_delimited(), Ok(Some(b"abc".to_vec())));
    assert_eq!(i.read_length_delimited(), Err(Error::UnexpectedEof));
    let mut empty = InputStream::from(vec![]);
    assert_eq!(empty.read_varint(), Ok(None));
    assert_eq!(empty.read_length_delimited(), Ok(None));
}

#[test]
fn packed_values_one_at_a_time() {
    let mut i = InputStream::from(vec![0x22, 0x03, 0x01, 0xAC, 0x02]);
    let f = i.read_field().unwrap().unwrap();
    let mut values = f.read_packed().unwrap();
    assert_eq!(values.next(), Some(Ok(1)));
    assert_eq!(values.collect_values(), Ok(vec![300]));
    assert_eq!(values.next(), None);
    assert!(i.read_field().unwrap().is_none());
}

#[test]
fn parent_budget_is_restored_after_a_nested_failure() {
    // Field 1 declares two bytes; the first holds an invalid wire type.
    let bytes = vec![0x0A, 0x02, 0x0F, 0x00, 0x10, 0x09];
    let mut input = InputStream::from(bytes);
    let f = input.read_field().unwrap().unwrap();
    let inner = Schema { fields: vec![] };
    assert_eq!(f.read_nested(&inner), Err(Error::InvalidWireType));
    // One byte of the nested message was consumed; the parent reads on from
    // there with its own budget, not what the nested message had left.
    let f = input.read_field().unwrap().unwrap();
    assert_eq!(f.tag(), 0);
    assert_eq!(f.read::<u64>(), Ok(16));
}

#[test]
fn a_type_mismatch_consumes_nothing() {
    let mut i = InputStream::from(vec![0x08, 0x05]);
    let f = i.read_field().unwrap().unwrap();
    assert!(matches!(f.read_packed(), Err(Error::TypeMismatch)));
    assert_eq!(i.read_varint(), Ok(Some(5)));

    let mut i = InputStream::from(vec![0x0A, 0x01, 0x07]);
    let f = i.read_field().unwrap().unwrap();
    assert_eq!(f.read_varint(), Err(Error::TypeMismatch));
    assert_eq!(i.read_length_delimited(), Ok(Some(vec![0x07])));
}

#[test]
fn an_unsupported_wire_type_consumes_nothing() {
    let mut i = InputStream::from(vec![0x09, 0x01, 0x02]);
    let f = i.read_field().unwrap().unwrap();
    assert_eq!(f.skip(), Err(Error::UnimplementedWireType));
    assert_eq!(i.read_varint(), Ok(Some(1)));
}
