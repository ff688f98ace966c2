use vstd::prelude::*;
use crate::error::Error;
use crate::input_stream::{
    decode_entries, head_outcome, lemma_decode_unfold, nested_extent, packed_outcome,
    skip_outcome, step_outcome,
};
use crate::message::{
    block, bytes_field, entries_bytes, entries_model, entry_bytes, entry_model,
    lemma_size_is_length, message_bytes, message_size, message_table, nested_table,
    packed_payload, varint_field, Entry, EntryModel, Message, Value,
};
use crate::output_stream::{head_bytes, head_key, OutputStream};
use crate::serializer::Serializer;
use crate::schema::{shape_of, SchemaField, Shape};
use crate::varint::{lemma_varint_len, lemma_varint_outcome_encoded, varint_bytes, varint_outcome};
use crate::wire_type::WireType;

verus! {

/// Whether `fields` declares the tag of `e` with the shape `e` has, and `e`
/// is not an empty packed list or an empty nested message, at any depth.
pub open spec fn entry_fits(e: Entry, fields: Seq<SchemaField>) -> bool
    decreases e,
{
    match e.value {
        Value::Varint(_) => shape_of(fields, e.tag) matches Some(Shape::Varint),
        Value::Bytes(_) => shape_of(fields, e.tag) matches Some(Shape::Bytes),
        Value::Packed(vs) => (shape_of(fields, e.tag) matches Some(Shape::Packed)) && vs@.len() > 0,
        Value::Nested(m) => match shape_of(fields, e.tag) {
            Some(Shape::Nested(sub)) => m.entries@.len() > 0 && entries_fit(m.entries@, sub.fields@),
            _ => false,
        },
    }
}

/// Whether every field of `es` fits `fields`.
pub open spec fn entries_fit(es: Seq<Entry>, fields: Seq<SchemaField>) -> bool
    decreases es,
{
    es.len() == 0 || (entry_fits(es[0], fields) && entries_fit(es.drop_first(), fields))
}

/// A header read off the encoding of a header gives back the tag and the
/// wire type.
pub proof fn lemma_head_round_trip(tag: u32, wire_type: WireType, rest: Seq<u8>)
    ensures
        head_outcome(head_bytes(tag, wire_type) + rest) == Ok::<
            Option<(u32, WireType, nat)>,
            Error,
        >(Some((tag, wire_type, head_bytes(tag, wire_type).len()))),
{
    let key = head_key(tag, wire_type);
    assert(key <= u64::MAX);
    lemma_varint_outcome_encoded(key as u64, rest);
    let c = wire_type.spec_code();
    assert(key % 8 == c && key / 8 == tag) by (nonlinear_arith)
        requires
            key == tag * 8 + c,
            c < 8,
    ;
}

/// Reading packed varints off a packed payload gives back the values.
pub proof fn lemma_packed_round_trip(vs: Seq<u64>)
    ensures
        packed_outcome(packed_payload(vs)) == Ok::<Seq<u64>, Error>(vs),
    decreases vs.len(),
{
    if vs.len() == 0 {
        assert(varint_outcome(Seq::<u8>::empty()) == Ok::<Option<(u64, nat)>, Error>(None));
        assert(vs =~= Seq::<u64>::empty());
        assert(packed_payload(vs) =~= Seq::<u8>::empty());
    } else {
        let rest = packed_payload(vs.drop_first());
        lemma_varint_outcome_encoded(vs[0], rest);
        let s = packed_payload(vs);
        let n = varint_bytes(vs[0] as nat).len();
        assert(s.skip(n as int) =~= rest);
        lemma_packed_round_trip(vs.drop_first());
        assert(seq![vs[0]] + vs.drop_first() =~= vs);
    }
}

/// A packed list with a value encodes to at least one byte.
proof fn lemma_packed_nonempty(vs: Seq<u64>)
    requires
        vs.len() > 0,
    ensures
        packed_payload(vs).len() > 0,
{
    lemma_varint_len(vs[0]);
}

/// A field that fits its schema encodes to at least one byte.
proof fn lemma_entry_nonempty(e: Entry, fields: Seq<SchemaField>)
    requires
        entry_fits(e, fields),
    ensures
        entry_bytes(e).len() > 0,
    decreases e,
{
    match e.value {
        Value::Varint(v) => lemma_varint_len(head_key(e.tag, WireType::Varint) as u64),
        Value::Bytes(b) => lemma_varint_len(head_key(e.tag, WireType::LengthDelimited) as u64),
        Value::Packed(vs) => {
            lemma_packed_nonempty(vs@);
            lemma_varint_len(head_key(e.tag, WireType::LengthDelimited) as u64);
        },
        Value::Nested(m) => {
            let sub = shape_of(fields, e.tag)->Some_0->Nested_0;
            lemma_entry_nonempty(m.entries@[0], sub.fields@);
            lemma_varint_len(head_key(e.tag, WireType::LengthDelimited) as u64);
        },
    }
}

/// The encoding of a field that fits its schema, whatever follows it,
/// decodes as one step to that field.
proof fn lemma_step_encoded(e: Entry, rest: Seq<u8>, budget: nat, fields: Seq<SchemaField>)
    requires
        entry_fits(e, fields),
        entry_bytes(e).len() + rest.len() <= budget,
        budget <= u64::MAX,
        e.value matches Value::Nested(m) ==> decode_entries(
            entries_bytes(m.entries@),
            entries_bytes(m.entries@).len(),
            shape_of(fields, e.tag)->Some_0->Nested_0.fields@,
        ) == Ok::<Seq<EntryModel>, Error>(entries_model(m.entries@)),
    ensures
        step_outcome(entry_bytes(e) + rest, budget, fields) == Ok::<
            Option<(Option<EntryModel>, nat)>,
            Error,
        >(Some((Some(entry_model(e)), entry_bytes(e).len()))),
{
    match e.value {
        Value::Varint(v) => lemma_step_varint(e.tag, v, rest, budget, fields),
        Value::Bytes(b) => lemma_step_bytes(e.tag, b@, rest, budget, fields),
        Value::Packed(vs) => {
            lemma_packed_nonempty(vs@);
            lemma_step_packed(e.tag, vs@, rest, budget, fields);
        },
        Value::Nested(m) => {
            let sub = shape_of(fields, e.tag)->Some_0->Nested_0;
            lemma_entry_nonempty(m.entries@[0], sub.fields@);
            lemma_step_nested(e.tag, m, sub.fields@, rest, budget, fields);
        },
    }
}

#[verifier::spinoff_prover]
proof fn lemma_step_varint(tag: u32, v: u64, rest: Seq<u8>, budget: nat, fields: Seq<SchemaField>)
    requires
        shape_of(fields, tag) matches Some(Shape::Varint),
        varint_field(tag, v).len() + rest.len() <= budget,
    ensures
        step_outcome(varint_field(tag, v) + rest, budget, fields) == Ok::<
            Option<(Option<EntryModel>, nat)>,
            Error,
        >(
            Some(
                (
                    Some(EntryModel { tag, value: crate::message::ValueModel::Varint(v) }),
                    varint_field(tag, v).len(),
                ),
            ),
        ),
{
    let s = varint_field(tag, v) + rest;
    let hd = head_bytes(tag, WireType::Varint);
    let x = varint_bytes(v as nat);
    assert(s =~= hd + (x + rest));
    lemma_head_round_trip(tag, WireType::Varint, x + rest);
    assert(s.skip(hd.len() as int) =~= x + rest);
    lemma_varint_outcome_encoded(v, rest);
}

#[verifier::spinoff_prover]
proof fn lemma_step_bytes(tag: u32, b: Seq<u8>, rest: Seq<u8>, budget: nat, fields: Seq<SchemaField>)
    requires
        shape_of(fields, tag) matches Some(Shape::Bytes),
        bytes_field(tag, b).len() + rest.len() <= budget,
        budget <= u64::MAX,
    ensures
        step_outcome(bytes_field(tag, b) + rest, budget, fields) == Ok::<
            Option<(Option<EntryModel>, nat)>,
            Error,
        >(
            Some(
                (
                    Some(EntryModel { tag, value: crate::message::ValueModel::Bytes(b) }),
                    bytes_field(tag, b).len(),
                ),
            ),
        ),
{
    let s = bytes_field(tag, b) + rest;
    let hd = head_bytes(tag, WireType::LengthDelimited);
    let len = b.len();
    let x = varint_bytes(len);
    assert(s =~= hd + (x + (b + rest)));
    lemma_head_round_trip(tag, WireType::LengthDelimited, x + (b + rest));
    let t = s.skip(hd.len() as int);
    assert(t =~= x + (b + rest));
    lemma_varint_outcome_encoded(len as u64, b + rest);
    assert(t.subrange(x.len() as int, (x.len() + len) as int) =~= b);
}

#[verifier::spinoff_prover]
proof fn lemma_step_packed(tag: u32, vs: Seq<u64>, rest: Seq<u8>, budget: nat, fields: Seq<SchemaField>)
    requires
        shape_of(fields, tag) matches Some(Shape::Packed),
        packed_payload(vs).len() > 0,
        block(tag, packed_payload(vs)).len() + rest.len() <= budget,
        budget <= u64::MAX,
    ensures
        step_outcome(block(tag, packed_payload(vs)) + rest, budget, fields) == Ok::<
            Option<(Option<EntryModel>, nat)>,
            Error,
        >(
            Some(
                (
                    Some(EntryModel { tag, value: crate::message::ValueModel::Packed(vs) }),
                    block(tag, packed_payload(vs)).len(),
                ),
            ),
        ),
{
    let p = packed_payload(vs);
    let s = block(tag, p) + rest;
    let hd = head_bytes(tag, WireType::LengthDelimited);
    let len = p.len();
    let x = varint_bytes(len);
    assert(s =~= hd + (x + (p + rest)));
    lemma_head_round_trip(tag, WireType::LengthDelimited, x + (p + rest));
    let t = s.skip(hd.len() as int);
    assert(t =~= x + (p + rest));
    lemma_varint_outcome_encoded(len as u64, p + rest);
    assert(t.subrange(x.len() as int, (x.len() + len) as int) =~= p);
    lemma_packed_round_trip(vs);
}

#[verifier::spinoff_prover]
proof fn lemma_step_nested(
    tag: u32,
    m: Message,
    sub: Seq<SchemaField>,
    rest: Seq<u8>,
    budget: nat,
    fields: Seq<SchemaField>,
)
    requires
        shape_of(fields, tag) matches Some(Shape::Nested(s)) && s.fields@ == sub,
        entries_bytes(m.entries@).len() > 0,
        block(tag, entries_bytes(m.entries@)).len() + rest.len() <= budget,
        budget <= u64::MAX,
        decode_entries(entries_bytes(m.entries@), entries_bytes(m.entries@).len(), sub) == Ok::<
            Seq<EntryModel>,
            Error,
        >(entries_model(m.entries@)),
    ensures
        step_outcome(block(tag, entries_bytes(m.entries@)) + rest, budget, fields) == Ok::<
            Option<(Option<EntryModel>, nat)>,
            Error,
        >(
            Some(
                (
                    Some(
                        EntryModel {
                            tag,
                            value: crate::message::ValueModel::Nested(entries_model(m.entries@)),
                        },
                    ),
                    block(tag, entries_bytes(m.entries@)).len(),
                ),
            ),
        ),
{
    let p = entries_bytes(m.entries@);
    let s = block(tag, p) + rest;
    let hd = head_bytes(tag, WireType::LengthDelimited);
    let len = p.len();
    let x = varint_bytes(len);
    assert(s =~= hd + (x + (p + rest)));
    lemma_head_round_trip(tag, WireType::LengthDelimited, x + (p + rest));
    let t = s.skip(hd.len() as int);
    assert(t =~= x + (p + rest));
    lemma_varint_outcome_encoded(len as u64, p + rest);
    assert(t.subrange(x.len() as int, (x.len() + len) as int) =~= p);
    assert(nested_extent(t) == x.len() + len);
}

/// Decoding the encoding of fields that fit their schema gives back the
/// fields.
pub proof fn lemma_decode_encoded(es: Seq<Entry>, budget: nat, fields: Seq<SchemaField>)
    requires
        entries_fit(es, fields),
        entries_bytes(es).len() <= budget,
        budget <= u64::MAX,
    ensures
        decode_entries(entries_bytes(es), budget, fields) == Ok::<Seq<EntryModel>, Error>(
            entries_model(es),
        ),
    decreases es,
{
    let s = entries_bytes(es);
    lemma_decode_unfold(s, budget, fields);
    if es.len() == 0 {
        assert(varint_outcome(s) == Ok::<Option<(u64, nat)>, Error>(None));
    } else {
        let e = es[0];
        let r = entries_bytes(es.drop_first());
        match e.value {
            Value::Nested(m) => {
                assert(entry_fits(e, fields));
                let sub = shape_of(fields, e.tag)->Some_0->Nested_0;
                assert(s == entry_bytes(e) + r);
                assert(entry_bytes(e) == block(e.tag, entries_bytes(m.entries@)));
                assert(decreases_to!(es => m.entries@)) by {
                    assert(decreases_to!(es => es[0]));
                };
                lemma_decode_encoded(m.entries@, entries_bytes(m.entries@).len(), sub.fields@);
            },
            _ => {},
        }
        lemma_step_encoded(e, r, budget, fields);
        let k = entry_bytes(e).len();
        assert(s.skip(k as int) =~= r);
        lemma_decode_encoded(es.drop_first(), (budget - k) as nat, fields);
    }
}

/// Round trip: decoding the encoding of a message, with a schema that
/// declares each of its fields with the shape it has, gives back the
/// message. Empty packed lists and empty nested messages are left out of
/// the encoding, so the message may hold none.
pub proof fn lemma_round_trip(m: Message, fields: Seq<SchemaField>)
    requires
        entries_fit(m.entries@, fields),
        message_size(m) <= usize::MAX,
    ensures
        decode_entries(message_bytes(m), u64::MAX as nat, fields) == Ok::<
            Seq<EntryModel>,
            Error,
        >(entries_model(m.entries@)),
{
    lemma_size_is_length(m);
    lemma_decode_encoded(m.entries@, u64::MAX as nat, fields);
}

/// Whether every field of `es` is a nested message whose own fields are all
/// such messages, down to messages with no fields.
pub open spec fn only_empty_nested(es: Seq<Entry>) -> bool
    decreases es,
{
    es.len() == 0 || (match es[0].value {
        Value::Nested(m) => only_empty_nested(m.entries@),
        _ => false,
    } && only_empty_nested(es.drop_first()))
}

/// Empty nested messages are left out: a message whose fields are all empty
/// nested messages encodes to no bytes at all, and the sizing pass counts
/// none.
pub proof fn lemma_empty_nested_vanish(m: Message)
    requires
        only_empty_nested(m.entries@),
    ensures
        message_bytes(m).len() == 0,
        message_size(m) == 0,
{
    lemma_empty_entries(m.entries@);
    lemma_size_is_length(m);
}

proof fn lemma_empty_entries(es: Seq<Entry>)
    requires
        only_empty_nested(es),
    ensures
        entries_bytes(es).len() == 0,
    decreases es,
{
    if es.len() > 0 {
        match es[0].value {
            Value::Nested(m) => {
                assert(decreases_to!(es => m.entries@)) by {
                    assert(decreases_to!(es => es[0]));
                };
                lemma_empty_entries(m.entries@);
                assert(entry_bytes(es[0]) =~= Seq::<u8>::empty());
            },
            _ => {},
        }
        lemma_empty_entries(es.drop_first());
        assert(entries_bytes(es) == entry_bytes(es[0]) + entries_bytes(es.drop_first()));
    }
}

/// Unknown fields are tolerated: a field whose tag the schema does not
/// declare is skipped, and decoding goes on with the bytes after it as if
/// it were not there.
pub proof fn lemma_unknown_field_skipped(
    e: Entry,
    rest: Seq<u8>,
    budget: nat,
    fields: Seq<SchemaField>,
)
    requires
        shape_of(fields, e.tag) is None,
        entry_bytes(e).len() > 0,
        entry_bytes(e).len() + rest.len() <= budget,
        budget <= u64::MAX,
    ensures
        decode_entries(entry_bytes(e) + rest, budget, fields) == decode_entries(
            rest,
            (budget - entry_bytes(e).len()) as nat,
            fields,
        ),
{
    let s = entry_bytes(e) + rest;
    let k = entry_bytes(e).len();
    lemma_decode_unfold(s, budget, fields);
    lemma_skip_encoded(e, rest);
    assert(s.skip(k as int) =~= rest);
    let h = head_outcome(s)->Ok_0->Some_0.2;
    assert(step_outcome(s, budget, fields) == Ok::<Option<(Option<EntryModel>, nat)>, Error>(
        Some((None, k)),
    ));
    assert(crate::input_stream::opt_entries(None) =~= Seq::<EntryModel>::empty());
    let later = decode_entries(rest, (budget - k) as nat, fields);
    if later is Ok {
        assert(Seq::<EntryModel>::empty() + later->Ok_0 =~= later->Ok_0);
    }
}

/// Skipping the encoding of a non-empty field, whatever follows it, takes
/// exactly its bytes.
#[verifier::spinoff_prover]
proof fn lemma_skip_encoded(e: Entry, rest: Seq<u8>)
    requires
        entry_bytes(e).len() > 0,
        entry_bytes(e).len() + rest.len() <= u64::MAX,
    ensures
        ({
            let s = entry_bytes(e) + rest;
            head_outcome(s) matches Ok(Some((tag, w, h))) && tag == e.tag && h <= entry_bytes(
                e,
            ).len() && skip_outcome(
                s.skip(h as int),
                w,
            ) == Ok::<nat, Error>((entry_bytes(e).len() - h) as nat)
        }),
{
    let s = entry_bytes(e) + rest;
    let tag = e.tag;
    match e.value {
        Value::Varint(v) => {
            let hd = head_bytes(tag, WireType::Varint);
            let x = varint_bytes(v as nat);
            assert(s =~= hd + (x + rest));
            lemma_head_round_trip(tag, WireType::Varint, x + rest);
            assert(s.skip(hd.len() as int) =~= x + rest);
            lemma_varint_outcome_encoded(v, rest);
        },
        _ => {
            let hd = head_bytes(tag, WireType::LengthDelimited);
            let p = match e.value {
                Value::Bytes(b) => b@,
                Value::Packed(vs) => packed_payload(vs@),
                Value::Nested(m) => entries_bytes(m.entries@),
                Value::Varint(_) => Seq::<u8>::empty(),
            };
            let x = varint_bytes(p.len());
            assert(entry_bytes(e) == hd + x + p);
            assert(s =~= hd + (x + (p + rest)));
            lemma_head_round_trip(tag, WireType::LengthDelimited, x + (p + rest));
            assert(s.skip(hd.len() as int) =~= x + (p + rest));
            lemma_varint_outcome_encoded(p.len() as u64, p + rest);
        },
    }
}

/// The sizing pass drops an empty nested message: once it is closed, the
/// count is where it was before it opened, and the only length recorded for
/// it is a zero, which the writing pass uses up writing nothing.
pub proof fn lemma_empty_nested_records_zero(
    before: Serializer,
    after: Serializer,
    field: u32,
    m: Message,
)
    requires
        after.wrote(
            before,
            block(field, message_bytes(m)),
            nested_table(message_size(m), message_table(m)),
        ),
        message_size(m) == 0,
    ensures
        after.spec_size() == before.spec_size(),
        after.lengths() == before.lengths().push(0),
{
    lemma_size_is_length(m);
    assert(before.lengths() + seq![0nat] =~= before.lengths().push(0));
}

} // verus!
