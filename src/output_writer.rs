use vstd::prelude::*;
use crate::message::{
    block, bytes_field, lemma_packed_size, lemma_packed_step, lemma_size_is_length,
    message_bytes, message_size, message_table, nested_table, packed_payload, packed_size,
    varint_field, Message,
};
use crate::error::Error;
use crate::output_stream::{head_bytes, write_head, OutputStream};
use crate::serializer::lengths_of;
use crate::varint::{varint_bytes, write_varint};
use crate::wire_type::WireType;

verus! {

broadcast use vstd::std_specs::vec::group_vec_axioms, vstd::seq::group_seq_axioms;

/// The writing pass of the encoder.
///
/// It walks a message a second time and emits its bytes, taking the length
/// prefix of every packed field and nested message from the table that the
/// sizing pass recorded, in the same order.
pub struct OutputWriter<'a> {
    curr: usize,
    nested: &'a [usize],
    writer: Vec<u8>,
}

impl<'a> OutputWriter<'a> {
    /// How many recorded lengths have been used.
    pub closed spec fn position(&self) -> nat {
        self.curr as nat
    }

    /// The recorded lengths being replayed.
    pub closed spec fn table(&self) -> Seq<nat> {
        lengths_of(self.nested@)
    }

    /// The bytes written so far.
    pub closed spec fn written(&self) -> Seq<u8> {
        self.writer@
    }

    /// Whether the lengths not yet used start with `t`.
    pub open spec fn expects(&self, t: Seq<nat>) -> bool {
        self.position() + t.len() <= self.table().len() && self.table().subrange(
            self.position() as int,
            (self.position() + t.len()) as int,
        ) == t
    }

    /// A writer that replays `nested` and appends to `writer`.
    pub fn new(nested: &'a [usize], writer: Vec<u8>) -> (r: OutputWriter<'a>)
        ensures
            r.position() == 0,
            r.table() == lengths_of(nested@),
            r.written() == writer@,
    {
        OutputWriter { curr: 0, nested, writer }
    }

    /// The bytes written, handing the buffer back.
    pub fn into_inner(self) -> (r: Vec<u8>)
        ensures
            r@ == self.written(),
    {
        self.writer
    }

    /// Writes the varint encoding of `val`.
    pub fn write_raw_varint(&mut self, val: u64)
        ensures
            final(self).written() == old(self).written() + varint_bytes(val as nat),
            final(self).position() == old(self).position(),
            final(self).table() == old(self).table(),
    {
        write_varint(val, &mut self.writer);
    }

    /// Writes `bytes` as they are.
    pub fn write_raw_bytes(&mut self, bytes: &[u8])
        ensures
            final(self).written() == old(self).written() + bytes@,
            final(self).position() == old(self).position(),
            final(self).table() == old(self).table(),
    {
        self.writer.extend_from_slice(bytes);
    }
}

impl<'a> OutputStream for OutputWriter<'a> {
    type Mark = Ghost<OutputWriter<'a>>;

    open spec fn wrote(&self, before: Self, b: Seq<u8>, t: Seq<nat>) -> bool {
        &&& self.written() == before.written() + b
        &&& self.position() == before.position() + t.len()
        &&& self.table() == before.table()
    }

    open spec fn ready(&self, n: nat, t: Seq<nat>) -> bool {
        self.expects(t)
    }

    open spec fn admits(&self, n: nat) -> bool {
        true
    }

    open spec fn packed_step(
        before: Self,
        after: Self,
        field: u32,
        vals: Seq<u64>,
        r: Result<(), Error>,
    ) -> bool {
        let p = before.position() as int;
        if p >= before.table().len() {
            r == Err::<(), Error>(Error::InvalidSerializer) && after == before
        } else {
            let n = before.table()[p];
            &&& r is Ok
            &&& after.position() == p + 1
            &&& after.table() == before.table()
            &&& n == 0 ==> after.written() == before.written()
            &&& n > 0 ==> after.written() == before.written() + head_bytes(
                field,
                WireType::LengthDelimited,
            ) + varint_bytes(n) + packed_payload(vals)
        }
    }

    open spec fn nested_step(
        before: Self,
        after: Self,
        field: u32,
        m: Message,
        r: Result<(bool, Ghost<OutputWriter<'a>>), Error>,
    ) -> bool {
        let p = before.position() as int;
        if p >= before.table().len() {
            (r matches Err(e) && e == Error::InvalidSerializer) && after == before
        } else {
            let n = before.table()[p];
            &&& r matches Ok((descend, mark)) && mark@ == before && (descend <==> n > 0)
            &&& after.position() == p + 1
            &&& after.table() == before.table()
            &&& n == 0 ==> after.written() == before.written()
            &&& n > 0 ==> after.written() == before.written() + head_bytes(
                field,
                WireType::LengthDelimited,
            ) + varint_bytes(n)
        }
    }

    open spec fn opened(
        mark: Ghost<OutputWriter<'a>>,
        before: Self,
        after: Self,
        field: u32,
        m: Message,
        descend: bool,
    ) -> bool {
        &&& mark@ == before
        &&& before.expects(nested_table(message_size(m), message_table(m)))
        &&& after.table() == before.table()
        &&& after.position() == before.position() + 1
        &&& descend <==> message_size(m) > 0
        &&& descend ==> after.written() == before.written() + head_bytes(
            field,
            WireType::LengthDelimited,
        ) + varint_bytes(message_size(m))
        &&& !descend ==> after.written() == before.written()
    }

    open spec fn closable(&self, mark: Ghost<OutputWriter<'a>>, field: u32, m: Message) -> bool {
        self.wrote(
            mark@,
            block(field, message_bytes(m)),
            nested_table(message_size(m), message_table(m)),
        )
    }

    open spec fn start(mark: Ghost<OutputWriter<'a>>) -> Self {
        mark@
    }

    proof fn lemma_wrote_nothing(s: Self) {
        assert(s.written() + seq![] =~= s.written());
    }

    proof fn lemma_wrote_trans(
        s0: Self,
        s1: Self,
        s2: Self,
        b1: Seq<u8>,
        t1: Seq<nat>,
        b2: Seq<u8>,
        t2: Seq<nat>,
    ) {
        assert(s0.written() + b1 + b2 =~= s0.written() + (b1 + b2));
    }

    proof fn lemma_ready_admits(s: Self, n: nat, t: Seq<nat>) {
    }

    proof fn lemma_ready_prefix(s: Self, n1: nat, t1: Seq<nat>, n2: nat, t2: Seq<nat>) {
        let p = s.position() as int;
        assert(s.table().subrange(p, p + t1.len()) =~= s.table().subrange(
            p,
            p + t1.len() + t2.len(),
        ).subrange(0, t1.len() as int));
        assert((t1 + t2).subrange(0, t1.len() as int) =~= t1);
    }

    proof fn lemma_ready_rest(
        s0: Self,
        s1: Self,
        b1: Seq<u8>,
        t1: Seq<nat>,
        n2: nat,
        t2: Seq<nat>,
    ) {
        let p = s0.position() as int;
        let q = s1.position() as int;
        assert(s1.table().subrange(q, q + t2.len()) =~= s0.table().subrange(
            p,
            p + t1.len() + t2.len(),
        ).subrange(t1.len() as int, (t1.len() + t2.len()) as int));
        assert((t1 + t2).subrange(t1.len() as int, (t1.len() + t2.len()) as int) =~= t2);
    }

    proof fn lemma_close(
        mark: Ghost<OutputWriter<'a>>,
        s0: Self,
        s1: Self,
        s2: Self,
        field: u32,
        m: Message,
        descend: bool,
    ) {
        lemma_size_is_length(m);
        assert(s2.written() =~= s0.written() + block(field, message_bytes(m)));
    }

    fn write_varint(&mut self, field: u32, val: u64) {
        write_head(&mut self.writer, field, WireType::Varint);
        self.write_raw_varint(val);
        proof {
            assert(self.written() =~= old(self).written() + varint_field(field, val));
        }
    }

    fn write_bytes(&mut self, field: u32, val: &[u8]) {
        write_head(&mut self.writer, field, WireType::LengthDelimited);
        self.write_raw_varint(val.len() as u64);
        self.write_raw_bytes(val);
        proof {
            assert(self.written() =~= old(self).written() + bytes_field(field, val@));
        }
    }

    fn write_packed(&mut self, field: u32, vals: &[u64]) -> (r: Result<(), Error>) {
        if self.curr >= self.nested.len() {
            return Err(Error::InvalidSerializer);
        }
        let size = self.nested[self.curr];
        self.curr = self.curr + 1;
        let ghost p = old(self).position() as int;
        if size > 0 {
            write_head(&mut self.writer, field, WireType::LengthDelimited);
            self.write_raw_varint(size as u64);
            let ghost start = self.written();
            let mut i: usize = 0;
            while i < vals.len()
                invariant
                    i <= vals@.len(),
                    self.written() == start + packed_payload(vals@.take(i as int)),
                    self.position() == old(self).position() + 1,
                    self.table() == old(self).table(),
                decreases vals@.len() - i,
            {
                proof {
                    lemma_packed_step(vals@, i as int);
                }
                self.write_raw_varint(vals[i]);
                proof {
                    assert(self.written() =~= start + packed_payload(vals@.take(i + 1)));
                }
                i = i + 1;
            }
            proof {
                assert(vals@.take(i as int) =~= vals@);
            }
        }
        proof {
            assert(self.table()[p] == size as nat);
            if old(self).ready(
                block(field, packed_payload(vals@)).len(),
                seq![packed_size(vals@)],
            ) {
                let sub = old(self).table().subrange(p, p + 1);
                assert(sub[0] == old(self).table()[p]);
                assert(sub == seq![packed_size(vals@)]);
                lemma_packed_size(vals@);
                assert(self.written() =~= old(self).written() + block(
                    field,
                    packed_payload(vals@),
                ));
            }
        }
        Ok(())
    }

    fn begin_nested(&mut self, field: u32, m: &Message) -> (r: Result<
        (bool, Ghost<OutputWriter<'a>>),
        Error,
    >) {
        let ghost start = *self;
        let ghost t = nested_table(message_size(*m), message_table(*m));
        if self.curr >= self.nested.len() {
            return Err(Error::InvalidSerializer);
        }
        let size = self.nested[self.curr];
        self.curr = self.curr + 1;
        let ghost p = old(self).position() as int;
        proof {
            assert(self.table()[p] == size as nat);
            lemma_size_is_length(*m);
        }
        if size > 0 {
            write_head(&mut self.writer, field, WireType::LengthDelimited);
            self.write_raw_varint(size as u64);
            proof {
                if old(self).expects(t) {
                    let sub = self.table().subrange(p, p + t.len());
                    assert(sub[0] == self.table()[p]);
                    assert(t[0] == self.table()[p]);
                    assert(t == seq![message_size(*m)] + message_table(*m));
                    assert forall|k: int| 0 <= k < message_table(*m).len() implies self.table()[p
                        + 1 + k] == message_table(*m)[k] by {
                        assert(sub[1 + k] == self.table()[p + 1 + k]);
                        assert(t[1 + k] == message_table(*m)[k]);
                    }
                    assert(self.table().subrange(
                        self.position() as int,
                        (self.position() + message_table(*m).len()) as int,
                    ) =~= message_table(*m));
                }
            }
            Ok((true, Ghost(start)))
        } else {
            proof {
                if old(self).expects(t) {
                    let sub = self.table().subrange(p, p + t.len());
                    assert(sub[0] == self.table()[p]);
                }
            }
            Ok((false, Ghost(start)))
        }
    }

    fn end_nested(&mut self, field: u32, mark: Ghost<OutputWriter<'a>>, m: &Message) {
    }
}

} // verus!
