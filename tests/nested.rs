use buffoon::{deserialize, serialize, Entry, Message, Schema, SchemaField, Shape, Value};

fn nested(tag: u32, entries: Vec<Entry>) -> Entry {
    Entry { tag, value: Value::Nested(Message { entries }) }
}

fn foo_schema() -> Schema {
    Schema { fields: vec![SchemaField { tag: 1, shape: Shape::Varint }] }
}

#[test]
fn test_serializing_nested_empty() {
    let foo = vec![Entry { tag: 1, value: Value::Varint(123) }];
    let root = Message { entries: vec![nested(1, vec![nested(1, vec![])]), nested(2, foo)] };
    let bytes = serialize(&root);

    // Root skips field 1 and reads field 2 as a Foo.
    let schema = Schema {
        fields: vec![SchemaField { tag: 2, shape: Shape::Nested(foo_schema()) }],
    };
    let root2 = deserialize(bytes, &schema).unwrap();

    let expect = Message {
        entries: vec![nested(2, vec![Entry { tag: 1, value: Value::Varint(123) }])],
    };
    assert_eq!(root2, expect);
}
