use vstd::prelude::*;
use crate::output_stream::{head_bytes, head_key};
use crate::varint::{lemma_varint_size, varint_bytes, varint_size};
use crate::wire_type::WireType;

verus! {

/// The payload of one field of a message.
#[derive(Debug, PartialEq, Eq)]
pub enum Value {
    /// An unsigned integer, written as a varint.
    Varint(u64),
    /// Raw bytes (or UTF-8 text), written length-delimited.
    Bytes(Vec<u8>),
    /// Repeated integers, written as one length-delimited run of varints.
    Packed(Vec<u64>),
    /// An embedded message, written length-delimited.
    Nested(Message),
}

/// One field of a message: a tag and its payload.
#[derive(Debug, PartialEq, Eq)]
pub struct Entry {
    pub tag: u32,
    pub value: Value,
}

/// A message: its fields in the order they are written.
#[derive(Debug, PartialEq, Eq)]
pub struct Message {
    pub entries: Vec<Entry>,
}

/// What a field holds, as a mathematical value.
pub enum ValueModel {
    Varint(u64),
    Bytes(Seq<u8>),
    Packed(Seq<u64>),
    Nested(Seq<EntryModel>),
}

/// A field as a mathematical value.
pub struct EntryModel {
    pub tag: u32,
    pub value: ValueModel,
}

/// What a field holds.
pub open spec fn entry_model(e: Entry) -> EntryModel
    decreases e,
{
    EntryModel {
        tag: e.tag,
        value: match e.value {
            Value::Varint(v) => ValueModel::Varint(v),
            Value::Bytes(b) => ValueModel::Bytes(b@),
            Value::Packed(vs) => ValueModel::Packed(vs@),
            Value::Nested(m) => ValueModel::Nested(entries_model(m.entries@)),
        },
    }
}

/// What a sequence of fields holds.
pub open spec fn entries_model(es: Seq<Entry>) -> Seq<EntryModel>
    decreases es,
{
    if es.len() == 0 {
        seq![]
    } else {
        seq![entry_model(es[0])] + entries_model(es.drop_first())
    }
}

/// The concatenated encodings of `vs`: the payload of a packed field.
pub open spec fn packed_payload(vs: Seq<u64>) -> Seq<u8>
    decreases vs.len(),
{
    if vs.len() == 0 {
        seq![]
    } else {
        varint_bytes(vs[0] as nat) + packed_payload(vs.drop_first())
    }
}

/// A length-delimited field holding `payload`; nothing at all when the
/// payload is empty.
pub open spec fn block(tag: u32, payload: Seq<u8>) -> Seq<u8> {
    if payload.len() == 0 {
        seq![]
    } else {
        head_bytes(tag, WireType::LengthDelimited) + varint_bytes(payload.len()) + payload
    }
}

/// A varint field.
pub open spec fn varint_field(tag: u32, v: u64) -> Seq<u8> {
    head_bytes(tag, WireType::Varint) + varint_bytes(v as nat)
}

/// A length-delimited field of raw bytes, written even when empty.
pub open spec fn bytes_field(tag: u32, b: Seq<u8>) -> Seq<u8> {
    head_bytes(tag, WireType::LengthDelimited) + varint_bytes(b.len()) + b
}

/// The wire bytes of one field.
pub open spec fn entry_bytes(e: Entry) -> Seq<u8>
    decreases e,
{
    match e.value {
        Value::Varint(v) => varint_field(e.tag, v),
        Value::Bytes(b) => bytes_field(e.tag, b@),
        Value::Packed(vs) => block(e.tag, packed_payload(vs@)),
        Value::Nested(m) => block(e.tag, entries_bytes(m.entries@)),
    }
}

/// The wire bytes of a sequence of fields.
pub open spec fn entries_bytes(es: Seq<Entry>) -> Seq<u8>
    decreases es,
{
    if es.len() == 0 {
        seq![]
    } else {
        entry_bytes(es[0]) + entries_bytes(es.drop_first())
    }
}

/// The wire bytes of a message.
pub open spec fn message_bytes(m: Message) -> Seq<u8> {
    entries_bytes(m.entries@)
}

/// The size of the header of a field.
pub open spec fn head_size(tag: u32, wire_type: WireType) -> nat {
    varint_size(head_key(tag, wire_type))
}

/// The size of the payload of a packed field, summed value by value.
pub open spec fn packed_size(vs: Seq<u64>) -> nat
    decreases vs.len(),
{
    if vs.len() == 0 {
        0
    } else {
        varint_size(vs[0] as nat) + packed_size(vs.drop_first())
    }
}

/// The size of a length-delimited field with a payload of `n` bytes, or
/// zero when the payload is empty.
pub open spec fn block_size(tag: u32, n: nat) -> nat {
    if n == 0 {
        0
    } else {
        head_size(tag, WireType::LengthDelimited) + varint_size(n) + n
    }
}

/// The size of one field, as the sizing pass adds it up.
pub open spec fn entry_size(e: Entry) -> nat
    decreases e,
{
    match e.value {
        Value::Varint(v) => head_size(e.tag, WireType::Varint) + varint_size(v as nat),
        Value::Bytes(b) => head_size(e.tag, WireType::LengthDelimited) + varint_size(b@.len())
            + b@.len(),
        Value::Packed(vs) => block_size(e.tag, packed_size(vs@)),
        Value::Nested(m) => block_size(e.tag, entries_size(m.entries@)),
    }
}

/// The size of a sequence of fields.
pub open spec fn entries_size(es: Seq<Entry>) -> nat
    decreases es,
{
    if es.len() == 0 {
        0
    } else {
        entry_size(es[0]) + entries_size(es.drop_first())
    }
}

/// The size of a message, as the sizing pass adds it up.
pub open spec fn message_size(m: Message) -> nat {
    entries_size(m.entries@)
}

/// The payload lengths that the sizing pass records for one field, in
/// traversal order: one for each packed field and nested message met, but
/// none inside a nested message that turned out empty.
pub open spec fn entry_table(e: Entry) -> Seq<nat>
    decreases e,
{
    match e.value {
        Value::Varint(_) => seq![],
        Value::Bytes(_) => seq![],
        Value::Packed(vs) => seq![packed_size(vs@)],
        Value::Nested(m) => nested_table(entries_size(m.entries@), entries_table(m.entries@)),
    }
}

/// The recorded lengths of a nested message of `size` bytes whose own
/// fields record `inner`.
pub open spec fn nested_table(size: nat, inner: Seq<nat>) -> Seq<nat> {
    if size == 0 {
        seq![0nat]
    } else {
        seq![size] + inner
    }
}

/// The recorded payload lengths of a sequence of fields.
pub open spec fn entries_table(es: Seq<Entry>) -> Seq<nat>
    decreases es,
{
    if es.len() == 0 {
        seq![]
    } else {
        entry_table(es[0]) + entries_table(es.drop_first())
    }
}

/// The recorded payload lengths of a message.
pub open spec fn message_table(m: Message) -> Seq<nat> {
    entries_table(m.entries@)
}

/// Encoding concatenated fields concatenates their encodings.
pub proof fn lemma_entries_bytes_concat(a: Seq<Entry>, b: Seq<Entry>)
    ensures
        entries_bytes(a + b) == entries_bytes(a) + entries_bytes(b),
    decreases a.len(),
{
    if a.len() == 0 {
        assert(a + b =~= b);
    } else {
        assert((a + b).drop_first() =~= a.drop_first() + b);
        lemma_entries_bytes_concat(a.drop_first(), b);
    }
}

/// The recorded lengths of concatenated fields are concatenated.
pub proof fn lemma_entries_table_concat(a: Seq<Entry>, b: Seq<Entry>)
    ensures
        entries_table(a + b) == entries_table(a) + entries_table(b),
    decreases a.len(),
{
    if a.len() == 0 {
        assert(a + b =~= b);
    } else {
        assert((a + b).drop_first() =~= a.drop_first() + b);
        lemma_entries_table_concat(a.drop_first(), b);
    }
}

/// The packed payload of concatenated lists is the concatenation.
pub proof fn lemma_packed_payload_concat(a: Seq<u64>, b: Seq<u64>)
    ensures
        packed_payload(a + b) == packed_payload(a) + packed_payload(b),
    decreases a.len(),
{
    if a.len() == 0 {
        assert(a + b =~= b);
    } else {
        assert((a + b).drop_first() =~= a.drop_first() + b);
        lemma_packed_payload_concat(a.drop_first(), b);
    }
}

/// Fields `0..i+1` encode as fields `0..i` followed by field `i`.
pub proof fn lemma_entries_step(es: Seq<Entry>, i: int)
    requires
        0 <= i < es.len(),
    ensures
        entries_bytes(es.take(i + 1)) == entries_bytes(es.take(i)) + entry_bytes(es[i]),
        entries_table(es.take(i + 1)) == entries_table(es.take(i)) + entry_table(es[i]),
        entries_bytes(es) == entries_bytes(es.take(i + 1)) + entries_bytes(es.skip(i + 1)),
        entries_table(es) == entries_table(es.take(i + 1)) + entries_table(es.skip(i + 1)),
{
    let one = seq![es[i]];
    assert(es.take(i + 1) =~= es.take(i) + one);
    assert(es =~= es.take(i + 1) + es.skip(i + 1));
    lemma_entries_bytes_concat(es.take(i), one);
    lemma_entries_table_concat(es.take(i), one);
    lemma_entries_bytes_concat(es.take(i + 1), es.skip(i + 1));
    lemma_entries_table_concat(es.take(i + 1), es.skip(i + 1));
    assert(one.drop_first() =~= Seq::<Entry>::empty());
    assert(one[0] == es[i]);
    assert(entries_bytes(one.drop_first()) == Seq::<u8>::empty());
    assert(entries_table(one.drop_first()) == Seq::<nat>::empty());
    assert(entries_bytes(one) =~= entry_bytes(es[i]));
    assert(entries_table(one) =~= entry_table(es[i]));
}

/// Values `0..i+1` pack as values `0..i` followed by value `i`.
pub proof fn lemma_packed_step(vs: Seq<u64>, i: int)
    requires
        0 <= i < vs.len(),
    ensures
        packed_payload(vs.take(i + 1)) == packed_payload(vs.take(i)) + varint_bytes(vs[i] as nat),
        packed_payload(vs) == packed_payload(vs.take(i + 1)) + packed_payload(vs.skip(i + 1)),
{
    let one = seq![vs[i]];
    assert(vs.take(i + 1) =~= vs.take(i) + one);
    assert(vs =~= vs.take(i + 1) + vs.skip(i + 1));
    lemma_packed_payload_concat(vs.take(i), one);
    lemma_packed_payload_concat(vs.take(i + 1), vs.skip(i + 1));
    assert(one.drop_first() =~= Seq::<u64>::empty());
    assert(one[0] == vs[i]);
    assert(packed_payload(one.drop_first()) == Seq::<u8>::empty());
    assert(packed_payload(one) =~= varint_bytes(vs[i] as nat));
}

/// The size of a packed payload is its length.
pub proof fn lemma_packed_size(vs: Seq<u64>)
    ensures
        packed_size(vs) == packed_payload(vs).len(),
    decreases vs.len(),
{
    if vs.len() > 0 {
        lemma_varint_size(vs[0] as nat);
        lemma_packed_size(vs.drop_first());
    }
}

/// The size of a field is the length of its encoding.
pub proof fn lemma_entry_size(e: Entry)
    ensures
        entry_size(e) == entry_bytes(e).len(),
    decreases e,
{
    match e.value {
        Value::Varint(v) => {
            lemma_varint_size(head_key(e.tag, WireType::Varint));
            lemma_varint_size(v as nat);
        },
        Value::Bytes(b) => {
            lemma_varint_size(head_key(e.tag, WireType::LengthDelimited));
            lemma_varint_size(b@.len());
        },
        Value::Packed(vs) => {
            lemma_varint_size(head_key(e.tag, WireType::LengthDelimited));
            lemma_packed_size(vs@);
            lemma_varint_size(packed_size(vs@));
        },
        Value::Nested(m) => {
            lemma_varint_size(head_key(e.tag, WireType::LengthDelimited));
            lemma_entries_size(m.entries@);
            lemma_varint_size(entries_size(m.entries@));
        },
    }
}

/// The size of a sequence of fields is the length of its encoding.
pub proof fn lemma_entries_size(es: Seq<Entry>)
    ensures
        entries_size(es) == entries_bytes(es).len(),
    decreases es,
{
    if es.len() > 0 {
        lemma_entry_size(es[0]);
        lemma_entries_size(es.drop_first());
    }
}

/// The size that the sizing pass adds up for a message is exactly the number
/// of bytes that the writing pass emits for it.
pub proof fn lemma_size_is_length(m: Message)
    ensures
        message_size(m) == message_bytes(m).len(),
{
    lemma_entries_size(m.entries@);
}

/// Appending a field appends its model.
pub proof fn lemma_entries_model_push(es: Seq<Entry>, e: Entry)
    ensures
        entries_model(es.push(e)) == entries_model(es) + seq![entry_model(e)],
    decreases es.len(),
{
    if es.len() == 0 {
        assert(es.push(e).drop_first() =~= Seq::<Entry>::empty());
        assert(es.push(e)[0] == e);
        assert(entries_model(Seq::<Entry>::empty()) == Seq::<EntryModel>::empty());
        assert(entries_model(es) == Seq::<EntryModel>::empty());
        assert(entries_model(es.push(e)) =~= entries_model(es) + seq![entry_model(e)]);
    } else {
        assert(es.push(e).drop_first() =~= es.drop_first().push(e));
        assert(es.push(e)[0] == es[0]);
        lemma_entries_model_push(es.drop_first(), e);
        assert(entries_model(es.push(e)) == seq![entry_model(es[0])] + entries_model(
            es.drop_first().push(e),
        ));
        assert(entries_model(es.push(e)) =~= entries_model(es) + seq![entry_model(e)]);
    }
}

} // verus!
