use vstd::prelude::*;
use crate::message::{
    block, bytes_field, entries_bytes, entries_table, entry_bytes, entry_table,
    lemma_entries_step, message_bytes, message_size, message_table, nested_table, packed_payload,
    packed_size, varint_field, Entry, Message, Value,
};
use crate::error::Error;
use crate::varint::{varint_bytes, varint_size, wire_len, write_varint};
use crate::wire_type::WireType;

verus! {

/// The key of a field header: the tag shifted past the three wire-type bits.
pub open spec fn head_key(field: u32, wire_type: WireType) -> nat {
    field as nat * 8 + wire_type.spec_code() as nat
}

/// The bytes of a field header.
pub open spec fn head_bytes(field: u32, wire_type: WireType) -> Seq<u8> {
    varint_bytes(head_key(field, wire_type))
}

/// The key of a field header as a 64-bit value.
pub fn head_value(field: u32, wire_type: WireType) -> (r: u64)
    ensures
        r as nat == head_key(field, wire_type),
{
    field as u64 * 8 + wire_type.code() as u64
}

/// Appends the header of a field to `out`.
pub fn write_head(out: &mut Vec<u8>, field: u32, wire_type: WireType)
    ensures
        final(out)@ == old(out)@ + head_bytes(field, wire_type),
{
    write_varint(head_value(field, wire_type), out);
}

/// The number of bytes of the header of a field.
pub fn head_len(field: u32, wire_type: WireType) -> (r: usize)
    ensures
        r == head_bytes(field, wire_type).len(),
        r == varint_size(head_key(field, wire_type)),
        1 <= r <= 10,
{
    wire_len(head_value(field, wire_type))
}

/// The interface that both passes of the encoder implement: the sizing pass
/// counts bytes and records the payload length of every packed field and
/// nested message; the writing pass emits bytes and replays those lengths.
/// One traversal, [`write_message`], drives either, so both see the fields
/// in the same order.
pub trait OutputStream: Sized {
    /// What opening a nested message leaves for closing it.
    type Mark;

    /// Whether `self` is `before` once the bytes `b` went through, with
    /// the payload lengths `t` recorded or replayed.
    spec fn wrote(&self, before: Self, b: Seq<u8>, t: Seq<nat>) -> bool;

    /// Whether `n` more bytes, with the payload lengths `t`, can go through.
    spec fn ready(&self, n: nat, t: Seq<nat>) -> bool;

    /// Whether `n` more bytes can go through at all, whatever lengths they
    /// carry.
    spec fn admits(&self, n: nat) -> bool;

    /// What `write_packed` did, going from `before` to `after` with the
    /// result `r`, whatever the lengths.
    spec fn packed_step(
        before: Self,
        after: Self,
        field: u32,
        vals: Seq<u64>,
        r: Result<(), Error>,
    ) -> bool;

    /// What `begin_nested` did, going from `before` to `after` with the
    /// result `r`, whatever the lengths.
    spec fn nested_step(
        before: Self,
        after: Self,
        field: u32,
        m: Message,
        r: Result<(bool, Self::Mark), Error>,
    ) -> bool;

    /// Whether `after` is `before` with the nested message `m` of field
    /// `field` opened; `descend` tells whether its fields go through next.
    spec fn opened(
        mark: Self::Mark,
        before: Self,
        after: Self,
        field: u32,
        m: Message,
        descend: bool,
    ) -> bool;

    /// Whether `self` can close the nested message that `mark` opened.
    spec fn closable(&self, mark: Self::Mark, field: u32, m: Message) -> bool;

    /// The stream as it was before `mark` opened a nested message.
    spec fn start(mark: Self::Mark) -> Self;

    proof fn lemma_wrote_nothing(s: Self)
        ensures
            s.wrote(s, seq![], seq![]),
    ;

    proof fn lemma_wrote_trans(
        s0: Self,
        s1: Self,
        s2: Self,
        b1: Seq<u8>,
        t1: Seq<nat>,
        b2: Seq<u8>,
        t2: Seq<nat>,
    )
        requires
            s1.wrote(s0, b1, t1),
            s2.wrote(s1, b2, t2),
        ensures
            s2.wrote(s0, b1 + b2, t1 + t2),
    ;

    proof fn lemma_ready_admits(s: Self, n: nat, t: Seq<nat>)
        requires
            s.ready(n, t),
        ensures
            s.admits(n),
    ;

    proof fn lemma_ready_prefix(s: Self, n1: nat, t1: Seq<nat>, n2: nat, t2: Seq<nat>)
        requires
            s.ready(n1 + n2, t1 + t2),
        ensures
            s.ready(n1, t1),
    ;

    proof fn lemma_ready_rest(s0: Self, s1: Self, b1: Seq<u8>, t1: Seq<nat>, n2: nat, t2: Seq<nat>)
        requires
            s0.ready(b1.len() + n2, t1 + t2),
            s1.wrote(s0, b1, t1),
        ensures
            s1.ready(n2, t2),
    ;

    proof fn lemma_close(
        mark: Self::Mark,
        s0: Self,
        s1: Self,
        s2: Self,
        field: u32,
        m: Message,
        descend: bool,
    )
        requires
            Self::opened(mark, s0, s1, field, m, descend),
            descend ==> s2.wrote(s1, message_bytes(m), message_table(m)),
            !descend ==> s2 == s1,
        ensures
            s2.closable(mark, field, m),
            Self::start(mark) == s0,
    ;

    /// A varint field.
    fn write_varint(&mut self, field: u32, val: u64)
        requires
            old(self).admits(varint_field(field, val).len()),
        ensures
            final(self).wrote(*old(self), varint_field(field, val), seq![]),
    ;

    /// A length-delimited field of raw bytes.
    fn write_bytes(&mut self, field: u32, val: &[u8])
        requires
            old(self).admits(bytes_field(field, val@).len()),
        ensures
            final(self).wrote(*old(self), bytes_field(field, val@), seq![]),
    ;

    /// A packed field. When the lengths match, an empty list writes nothing
    /// but still has its length recorded or used.
    fn write_packed(&mut self, field: u32, vals: &[u64]) -> (r: Result<(), Error>)
        requires
            old(self).admits(block(field, packed_payload(vals@)).len()),
        ensures
            Self::packed_step(*old(self), *final(self), field, vals@, r),
            old(self).ready(block(field, packed_payload(vals@)).len(), seq![packed_size(vals@)])
                ==> (r is Ok && final(self).wrote(
                *old(self),
                block(field, packed_payload(vals@)),
                seq![packed_size(vals@)],
            )),
    ;

    /// Opens the nested message `m` of field `field`; its fields go through
    /// next when the first value returned is true.
    fn begin_nested(&mut self, field: u32, m: &Message) -> (r: Result<(bool, Self::Mark), Error>)
        requires
            old(self).admits(block(field, message_bytes(*m)).len()),
        ensures
            Self::nested_step(*old(self), *final(self), field, *m, r),
            old(self).ready(
                block(field, message_bytes(*m)).len(),
                nested_table(message_size(*m), message_table(*m)),
            ) ==> (r matches Ok((descend, mark)) && Self::opened(
                mark,
                *old(self),
                *final(self),
                field,
                *m,
                descend,
            ) && (descend ==> final(self).ready(message_bytes(*m).len(), message_table(*m)))),
    ;

    /// Closes the nested message that `mark` opened.
    fn end_nested(&mut self, field: u32, mark: Self::Mark, m: &Message)
        requires
            old(self).closable(mark, field, *m),
        ensures
            final(self).wrote(
                Self::start(mark),
                block(field, message_bytes(*m)),
                nested_table(message_size(*m), message_table(*m)),
            ),
    ;
}

/// Sends every field of `m` through `out`, in order, nested messages
/// included. A stream that is ready for `m` takes every field.
pub fn write_message<O: OutputStream>(out: &mut O, m: &Message) -> (r: Result<(), Error>)
    requires
        old(out).ready(message_bytes(*m).len(), message_table(*m)),
    ensures
        r is Ok,
        final(out).wrote(*old(out), message_bytes(*m), message_table(*m)),
    decreases m,
{
    let ghost es = m.entries@;
    let mut i: usize = 0;
    proof {
        O::lemma_wrote_nothing(*out);
        assert(es.take(0) =~= Seq::<Entry>::empty());
        assert(es.skip(0) =~= es);
    }
    while i < m.entries.len()
        invariant
            es == m.entries@,
            i <= es.len(),
            out.wrote(*old(out), entries_bytes(es.take(i as int)), entries_table(es.take(i as int))),
            out.ready(entries_bytes(es.skip(i as int)).len(), entries_table(es.skip(i as int))),
        decreases es.len() - i,
    {
        let ghost s = *out;
        let ghost e = es[i as int];
        let ghost rest = es.skip(i + 1);
        proof {
            lemma_entries_step(es, i as int);
            lemma_entries_step(es.skip(i as int), 0);
            assert(es.skip(i as int).take(1) =~= seq![e]);
            assert(es.skip(i as int).skip(1) =~= rest);
            lemma_entries_step(seq![e], 0);
            assert(seq![e].take(0) =~= Seq::<Entry>::empty());
            assert(seq![e].take(1) =~= seq![e]);
            assert(seq![e].skip(1) =~= Seq::<Entry>::empty());
            assert(entries_bytes(seq![e]) == entry_bytes(e));
            assert(entries_table(seq![e]) == entry_table(e));
            O::lemma_ready_prefix(
                s,
                entry_bytes(e).len(),
                entry_table(e),
                entries_bytes(rest).len(),
                entries_table(rest),
            );
            O::lemma_ready_admits(s, entry_bytes(e).len(), entry_table(e));
        }
        let en = &m.entries[i];
        match &en.value {
            Value::Varint(v) => out.write_varint(en.tag, *v),
            Value::Bytes(b) => out.write_bytes(en.tag, b.as_slice()),
            Value::Packed(vs) => {
                match out.write_packed(en.tag, vs.as_slice()) {
                    Ok(()) => {},
                    Err(e) => return Err(e),
                }
            },
            Value::Nested(n) => {
                let ghost s0 = *out;
                let (descend, mark) = match out.begin_nested(en.tag, n) {
                    Ok(opened) => opened,
                    Err(e) => return Err(e),
                };
                let ghost s1 = *out;
                if descend {
                    proof {
                        assert(decreases_to!(*m => *n));
                    }
                    match write_message(out, n) {
                        Ok(()) => {},
                        Err(e) => return Err(e),
                    }
                }
                proof {
                    O::lemma_close(mark, s0, s1, *out, en.tag, *n, descend);
                }
                out.end_nested(en.tag, mark, n);
            },
        }
        proof {
            O::lemma_wrote_trans(
                *old(out),
                s,
                *out,
                entries_bytes(es.take(i as int)),
                entries_table(es.take(i as int)),
                entry_bytes(e),
                entry_table(e),
            );
            O::lemma_ready_rest(
                s,
                *out,
                entry_bytes(e),
                entry_table(e),
                entries_bytes(rest).len(),
                entries_table(rest),
            );
        }
        i = i + 1;
    }
    proof {
        assert(es.take(i as int) =~= es);
    }
    Ok(())
}

} // verus!
