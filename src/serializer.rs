use vstd::prelude::*;
use crate::error::Error;
use crate::message::{
    block, lemma_packed_size, lemma_packed_step, lemma_size_is_length, message_bytes,
    message_size, message_table, nested_table, packed_payload, packed_size, Message,
};
use crate::output_stream::{head_len, write_message, OutputStream};
use crate::output_writer::OutputWriter;
use crate::varint::{lemma_varint_size, varint_size, wire_len};
use crate::wire_type::WireType;

verus! {

broadcast use vstd::std_specs::vec::group_vec_axioms, vstd::seq::group_seq_axioms;

/// The sizing pass of the encoder.
///
/// It walks a message, adds up the exact number of bytes the writing pass
/// will produce, and records the payload length of every packed field and
/// nested message in traversal order, so that the writing pass can emit each
/// length prefix before the payload it measures.
pub struct Serializer {
    size: usize,
    nested: Vec<usize>,
}

/// Where the sizing pass opened a nested message: the slot of its length
/// and the size counted before it.
pub struct SizeMark {
    position: usize,
    prev_count: usize,
    start: Ghost<Serializer>,
}

/// The lengths held in `v`, as mathematical integers.
pub open spec fn lengths_of(v: Seq<usize>) -> Seq<nat> {
    v.map_values(|x: usize| x as nat)
}

impl Serializer {
    /// The number of bytes counted so far.
    pub closed spec fn spec_size(&self) -> nat {
        self.size as nat
    }

    /// The payload lengths recorded so far, in traversal order.
    pub closed spec fn lengths(&self) -> Seq<nat> {
        lengths_of(self.nested@)
    }

    pub fn new() -> (r: Serializer)
        ensures
            r.spec_size() == 0,
            r.lengths() == Seq::<nat>::empty(),
    {
        let r = Serializer { size: 0, nested: Vec::new() };
        proof {
            assert(r.lengths() =~= Seq::<nat>::empty());
        }
        r
    }

    /// The total number of bytes counted.
    pub fn size(&self) -> (r: usize)
        ensures
            r == self.spec_size(),
    {
        self.size
    }

    /// The recorded payload lengths.
    pub fn lengths_slice(&self) -> (r: &[usize])
        ensures
            lengths_of(r@) == self.lengths(),
    {
        self.nested.as_slice()
    }

    /// Counts the bytes of the varint encoding of `val`.
    fn write_raw_varint(&mut self, val: u64)
        requires
            old(self).spec_size() + varint_size(val as nat) <= usize::MAX,
        ensures
            final(self).spec_size() == old(self).spec_size() + varint_size(val as nat),
            final(self).nested@ == old(self).nested@,
    {
        self.size = self.size + wire_len(val);
    }

    /// Counts `bytes`.
    fn write_raw_bytes(&mut self, bytes: &[u8])
        requires
            old(self).spec_size() + bytes@.len() <= usize::MAX,
        ensures
            final(self).spec_size() == old(self).spec_size() + bytes@.len(),
            final(self).nested@ == old(self).nested@,
    {
        self.size = self.size + bytes.len();
    }

    /// Runs the writing pass for `msg`, which must be the message this
    /// sizing pass walked, and appends its bytes to `writer`.
    pub fn serialize(&self, msg: &Message, writer: &mut Vec<u8>)
        requires
            self.lengths() == message_table(*msg),
        ensures
            final(writer)@ == old(writer)@ + message_bytes(*msg),
    {
        let mut out = OutputWriter::new(self.nested.as_slice(), Vec::new());
        proof {
            assert(out.table().subrange(0, message_table(*msg).len() as int) =~= message_table(
                *msg,
            ));
        }
        let _ = write_message(&mut out, msg);
        let bytes = out.into_inner();
        proof {
            assert(bytes@ =~= message_bytes(*msg));
        }
        writer.extend_from_slice(bytes.as_slice());
    }

    /// Runs the writing pass for `msg` into the front of `dst`, or fails when
    /// `dst` is shorter than the counted size.
    pub fn serialize_into(&self, msg: &Message, dst: &mut [u8]) -> (r: Result<(), Error>)
        requires
            self.lengths() == message_table(*msg),
            self.spec_size() == message_size(*msg),
        ensures
            r is Err <==> self.spec_size() > old(dst)@.len(),
            r is Err ==> r == Err::<(), Error>(Error::DestinationTooSmall) && final(dst)@ == old(
                dst,
            )@,
            r is Ok ==> final(dst)@ == message_bytes(*msg) + old(dst)@.skip(
                self.spec_size() as int,
            ),
    {
        if self.size > dst.len() {
            return Err(Error::DestinationTooSmall);
        }
        let mut bytes: Vec<u8> = Vec::with_capacity(self.size);
        self.serialize(msg, &mut bytes);
        proof {
            lemma_size_is_length(*msg);
        }
        let mut i: usize = 0;
        while i < bytes.len()
            invariant
                bytes@ == message_bytes(*msg),
                bytes@.len() <= dst@.len(),
                dst@.len() == old(dst)@.len(),
                i <= bytes@.len(),
                dst@ == bytes@.take(i as int) + old(dst)@.skip(i as int),
            decreases bytes@.len() - i,
        {
            dst[i] = bytes[i];
            proof {
                assert(dst@ =~= bytes@.take(i + 1) + old(dst)@.skip(i + 1));
            }
            i = i + 1;
        }
        proof {
            assert(bytes@.take(i as int) =~= bytes@);
        }
        Ok(())
    }
}

impl OutputStream for Serializer {
    type Mark = SizeMark;

    open spec fn wrote(&self, before: Self, b: Seq<u8>, t: Seq<nat>) -> bool {
        self.spec_size() == before.spec_size() + b.len() && self.lengths() == before.lengths() + t
    }

    open spec fn ready(&self, n: nat, t: Seq<nat>) -> bool {
        self.spec_size() + n <= usize::MAX
    }

    open spec fn admits(&self, n: nat) -> bool {
        self.spec_size() + n <= usize::MAX
    }

    open spec fn packed_step(
        before: Self,
        after: Self,
        field: u32,
        vals: Seq<u64>,
        r: Result<(), Error>,
    ) -> bool {
        r is Ok && after.wrote(before, block(field, packed_payload(vals)), seq![packed_size(vals)])
    }

    open spec fn nested_step(
        before: Self,
        after: Self,
        field: u32,
        m: Message,
        r: Result<(bool, SizeMark), Error>,
    ) -> bool {
        r matches Ok((descend, mark)) && Self::opened(mark, before, after, field, m, descend)
    }

    closed spec fn opened(
        mark: SizeMark,
        before: Self,
        after: Self,
        field: u32,
        m: Message,
        descend: bool,
    ) -> bool {
        &&& descend
        &&& mark.start@ == before
        &&& mark.position == before.nested@.len()
        &&& mark.prev_count == before.size
        &&& after.size == before.size
        &&& after.nested@ == before.nested@.push(0)
        &&& before.size + block(field, message_bytes(m)).len() <= usize::MAX
    }

    closed spec fn closable(&self, mark: SizeMark, field: u32, m: Message) -> bool {
        let start = mark.start@;
        &&& mark.position == start.nested@.len()
        &&& mark.prev_count == start.size
        &&& self.size == start.size + message_bytes(m).len()
        &&& self.lengths() == start.lengths() + seq![0nat] + message_table(m)
        &&& start.size + block(field, message_bytes(m)).len() <= usize::MAX
    }

    closed spec fn start(mark: SizeMark) -> Self {
        mark.start@
    }

    proof fn lemma_wrote_nothing(s: Self) {
        assert(s.lengths() + seq![] =~= s.lengths());
    }

    proof fn lemma_wrote_trans(
        s0: Self,
        s1: Self,
        s2: Self,
        b1: Seq<u8>,
        t1: Seq<nat>,
        b2: Seq<u8>,
        t2: Seq<nat>,
    ) {
        assert(s0.lengths() + t1 + t2 =~= s0.lengths() + (t1 + t2));
    }

    proof fn lemma_ready_admits(s: Self, n: nat, t: Seq<nat>) {
    }

    proof fn lemma_ready_prefix(s: Self, n1: nat, t1: Seq<nat>, n2: nat, t2: Seq<nat>) {
    }

    proof fn lemma_ready_rest(
        s0: Self,
        s1: Self,
        b1: Seq<u8>,
        t1: Seq<nat>,
        n2: nat,
        t2: Seq<nat>,
    ) {
    }

    proof fn lemma_close(
        mark: SizeMark,
        s0: Self,
        s1: Self,
        s2: Self,
        field: u32,
        m: Message,
        descend: bool,
    ) {
        assert(s1.lengths() =~= s0.lengths() + seq![0nat]);
    }

    fn write_varint(&mut self, field: u32, val: u64) {
        proof {
            lemma_varint_size(val as nat);
        }
        self.size = self.size + head_len(field, WireType::Varint);
        self.write_raw_varint(val);
        proof {
            assert(self.lengths() =~= old(self).lengths() + seq![]);
        }
    }

    fn write_bytes(&mut self, field: u32, val: &[u8]) {
        proof {
            lemma_varint_size(val@.len());
        }
        self.size = self.size + head_len(field, WireType::LengthDelimited);
        self.write_raw_varint(val.len() as u64);
        self.write_raw_bytes(val);
        proof {
            assert(self.lengths() =~= old(self).lengths() + seq![]);
        }
    }

    fn write_packed(&mut self, field: u32, vals: &[u64]) -> (r: Result<(), Error>) {
        let position = self.nested.len();
        let prev_count = self.size;
        self.nested.push(0);
        let ghost total = packed_size(vals@);
        proof {
            lemma_packed_size(vals@);
        }
        let mut i: usize = 0;
        while i < vals.len()
            invariant
                i <= vals@.len(),
                total == packed_size(vals@),
                total == packed_payload(vals@).len(),
                self.size == prev_count + packed_payload(vals@.take(i as int)).len(),
                prev_count + block(field, packed_payload(vals@)).len() <= usize::MAX,
                self.nested@ == old(self).nested@.push(0),
                position == old(self).nested@.len(),
            decreases vals@.len() - i,
        {
            proof {
                lemma_packed_step(vals@, i as int);
                lemma_varint_size(vals@[i as int] as nat);
            }
            self.write_raw_varint(vals[i]);
            i = i + 1;
        }
        proof {
            assert(vals@.take(i as int) =~= vals@);
        }
        let nested_size = self.size - prev_count;
        if nested_size > 0 {
            proof {
                lemma_varint_size(nested_size as nat);
            }
            self.nested[position] = nested_size;
            self.size = self.size + head_len(field, WireType::LengthDelimited);
            self.write_raw_varint(nested_size as u64);
        }
        proof {
            assert(self.lengths() =~= old(self).lengths() + seq![total]);
        }
        Ok(())
    }

    fn begin_nested(&mut self, field: u32, m: &Message) -> (r: Result<(bool, SizeMark), Error>) {
        let position = self.nested.len();
        let prev_count = self.size;
        let ghost start = *self;
        self.nested.push(0);
        proof {
            lemma_size_is_length(*m);
        }
        Ok((true, SizeMark { position, prev_count, start: Ghost(start) }))
    }

    fn end_nested(&mut self, field: u32, mark: SizeMark, m: &Message) {
        let ghost start = mark.start@;
        proof {
            lemma_size_is_length(*m);
            assert(self.nested@.len() == self.lengths().len());
            assert(start.lengths().len() == mark.position);
        }
        let position = mark.position;
        let nested_size = self.size - mark.prev_count;
        if nested_size > 0 {
            let ghost before = self.lengths();
            proof {
                lemma_varint_size(nested_size as nat);
            }
            self.nested[position] = nested_size;
            self.size = self.size + head_len(field, WireType::LengthDelimited);
            self.write_raw_varint(nested_size as u64);
            proof {
                assert(self.lengths() =~= before.update(position as int, nested_size as nat));
                assert(self.lengths() =~= start.lengths() + nested_table(
                    message_size(*m),
                    message_table(*m),
                ));
            }
        } else {
            let ghost before = self.lengths();
            let recorded = self.nested.len();
            assert(position < recorded);
            self.nested.truncate(position + 1);
            proof {
                assert(self.lengths() =~= before.take(position + 1));
                assert(before[position as int] == 0);
                assert(self.lengths() =~= start.lengths() + nested_table(
                    message_size(*m),
                    message_table(*m),
                ));
            }
        }
    }
}

} // verus!
