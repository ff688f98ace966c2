use vstd::prelude::*;
use crate::error::Error;
use crate::message::{
    entries_model, lemma_entries_model_push, Entry, EntryModel, Message, Value, ValueModel,
};
use crate::schema::{shape_of, Schema, SchemaField, Shape};
use crate::take::{lemma_progressed_by, lemma_progressed_refl, lemma_progressed_trans, Take};
use crate::varint::{lemma_outcome_len, read_varint, varint_outcome, Varint};
use crate::wire_type::WireType;
use vstd::utf8::{decode_utf8, valid_utf8};

verus! {

/// What reading a field header off the front of `s` yields: `Ok(None)` at a
/// clean end, else the tag, the wire type and the header's length, or the
/// error.
pub open spec fn head_outcome(s: Seq<u8>) -> Result<Option<(u32, WireType, nat)>, Error> {
    match varint_outcome(s) {
        Err(e) => Err(e),
        Ok(None) => Ok(None),
        Ok(Some((h, n))) => if h % 8 > 5 {
            Err(Error::InvalidWireType)
        } else if h / 8 > u32::MAX {
            Err(Error::VarintOverflow)
        } else {
            Ok(Some(((h / 8) as u32, WireType::spec_from_code((h % 8) as u32), n)))
        },
    }
}

/// What reading a length prefix and its payload off the front of `s`
/// yields: the prefix's length and the payload's length, or the error. A
/// payload that `s` does not hold in full is an unexpected end.
pub open spec fn delimited_outcome(s: Seq<u8>) -> Result<(nat, nat), Error> {
    match varint_outcome(s) {
        Err(e) => Err(e),
        Ok(None) => Err(Error::UnexpectedEof),
        Ok(Some((len, n))) => if n + len > s.len() {
            Err(Error::UnexpectedEof)
        } else {
            Ok((n, len as nat))
        },
    }
}

/// What reading a single varint payload off the front of `s` yields.
pub open spec fn varint_field_outcome(s: Seq<u8>) -> Result<(u64, nat), Error> {
    match varint_outcome(s) {
        Err(e) => Err(e),
        Ok(None) => Err(Error::UnexpectedEof),
        Ok(Some((v, n))) => Ok((v, n)),
    }
}

/// What reading varints one after another until the end of `s` yields.
pub open spec fn packed_outcome(s: Seq<u8>) -> Result<Seq<u64>, Error>
    decreases s.len(),
{
    match varint_outcome(s) {
        Err(e) => Err(e),
        Ok(None) => Ok(seq![]),
        Ok(Some((v, n))) => {
            proof {
                lemma_outcome_len(s);
            }
            match packed_outcome(s.skip(n as int)) {
                Err(e) => Err(e),
                Ok(vs) => Ok(seq![v] + vs),
            }
        },
    }
}

/// What skipping the payload of a field of wire type `wire_type` off the
/// front of `t` yields: the number of bytes skipped, or the error.
pub open spec fn skip_outcome(t: Seq<u8>, wire_type: WireType) -> Result<nat, Error> {
    if wire_type == WireType::Varint {
        match varint_field_outcome(t) {
            Err(e) => Err(e),
            Ok((v, n)) => Ok(n),
        }
    } else if wire_type == WireType::LengthDelimited {
        match delimited_outcome(t) {
            Err(e) => Err(e),
            Ok((n, len)) => Ok(n + len),
        }
    } else {
        Err(Error::UnimplementedWireType)
    }
}

/// `rest` with `e` put in front.
pub open spec fn cons_entry(e: EntryModel, rest: Result<Seq<EntryModel>, Error>) -> Result<
    Seq<EntryModel>,
    Error,
> {
    match rest {
        Err(x) => Err(x),
        Ok(es) => Ok(seq![e] + es),
    }
}

/// What decoding a nested message off the front of `t` yields, once its
/// header is read: `budget` is what the parent has left. Its length prefix
/// may not exceed that budget, and its payload must be there in full.
pub open spec fn nested_outcome(t: Seq<u8>, budget: nat, fields: Seq<SchemaField>) -> Result<
    Seq<EntryModel>,
    Error,
> {
    match varint_outcome(t) {
        Err(e) => Err(e),
        Ok(None) => Err(Error::UnexpectedEof),
        Ok(Some((len, n))) => if len > budget - n {
            Err(Error::NestedTooLong)
        } else if n + len > t.len() {
            Err(Error::UnexpectedEof)
        } else {
            decode_entries(t.subrange(n as int, (n + len) as int), len as nat, fields)
        },
    }
}

/// What decoding fields off `s` until a clean end yields, under a budget of
/// `budget` bytes: the fields whose tags `fields` declares, in order, read
/// as declared; the others are skipped.
#[verifier::opaque]
pub open spec fn decode_entries(s: Seq<u8>, budget: nat, fields: Seq<SchemaField>) -> Result<
    Seq<EntryModel>,
    Error,
>
    decreases s.len(),
{
    match head_outcome(s) {
        Err(e) => Err(e),
        Ok(None) => Ok(seq![]),
        Ok(Some((tag, wire_type, h))) => {
            proof {
                lemma_head_len(s);
            }
            let t = s.skip(h as int);
            let b = (budget - h) as nat;
            match shape_of(fields, tag) {
                None => match skip_outcome(t, wire_type) {
                    Err(e) => Err(e),
                    Ok(k) => {
                        proof {
                            lemma_skip_len(t, wire_type);
                        }
                        decode_entries(t.skip(k as int), (b - k) as nat, fields)
                    },
                },
                Some(Shape::Varint) => if wire_type != WireType::Varint {
                    Err(Error::TypeMismatch)
                } else {
                    match varint_field_outcome(t) {
                        Err(e) => Err(e),
                        Ok((v, k)) => {
                            proof {
                                lemma_outcome_len(t);
                            }
                            cons_entry(
                                EntryModel { tag, value: ValueModel::Varint(v) },
                                decode_entries(t.skip(k as int), (b - k) as nat, fields),
                            )
                        },
                    }
                },
                Some(Shape::Bytes) => if wire_type != WireType::LengthDelimited {
                    Err(Error::TypeMismatch)
                } else {
                    match delimited_outcome(t) {
                        Err(e) => Err(e),
                        Ok((n, len)) => cons_entry(
                            EntryModel {
                                tag,
                                value: ValueModel::Bytes(t.subrange(n as int, (n + len) as int)),
                            },
                            decode_entries(t.skip((n + len) as int), (b - n - len) as nat, fields),
                        ),
                    }
                },
                Some(Shape::Packed) => if wire_type != WireType::LengthDelimited {
                    Err(Error::TypeMismatch)
                } else {
                    match delimited_outcome(t) {
                        Err(e) => Err(e),
                        Ok((n, len)) => match packed_outcome(
                            t.subrange(n as int, (n + len) as int),
                        ) {
                            Err(e) => Err(e),
                            Ok(vs) => cons_entry(
                                EntryModel { tag, value: ValueModel::Packed(vs) },
                                decode_entries(
                                    t.skip((n + len) as int),
                                    (b - n - len) as nat,
                                    fields,
                                ),
                            ),
                        },
                    }
                },
                // The checks of `nested_outcome`, spelled out so that the
                // recursion is seen to shrink the input.
                Some(Shape::Nested(sub)) => if wire_type != WireType::LengthDelimited {
                    Err(Error::TypeMismatch)
                } else {
                    match varint_outcome(t) {
                        Err(e) => Err(e),
                        Ok(None) => Err(Error::UnexpectedEof),
                        Ok(Some((len, n))) => if len > b - n {
                            Err(Error::NestedTooLong)
                        } else if n + len > t.len() {
                            Err(Error::UnexpectedEof)
                        } else {
                            proof {
                                lemma_outcome_len(t);
                            }
                            match decode_entries(
                                t.subrange(n as int, (n + len) as int),
                                len as nat,
                                sub.fields@,
                            ) {
                                Err(e) => Err(e),
                                Ok(inner) => cons_entry(
                                    EntryModel { tag, value: ValueModel::Nested(inner) },
                                    decode_entries(
                                        t.skip((n + len) as int),
                                        (b - n - len) as nat,
                                        fields,
                                    ),
                                ),
                            }
                        },
                    }
                },
            }
        },
    }
}

/// The bytes a nested message field takes after its header: its length
/// prefix and the length it gives.
pub open spec fn nested_extent(t: Seq<u8>) -> nat {
    match varint_outcome(t) {
        Ok(Some((len, n))) => (n + len) as nat,
        _ => 0,
    }
}

/// `o` with `front` put before its fields.
pub open spec fn prefixed_entries(front: Seq<EntryModel>, o: Result<Seq<EntryModel>, Error>) -> Result<
    Seq<EntryModel>,
    Error,
> {
    match o {
        Err(e) => Err(e),
        Ok(es) => Ok(front + es),
    }
}

/// What decoding the next field off `a` yields, under a budget of `b`
/// bytes: `Ok(None)` at a clean end, else the field's model if the schema
/// keeps it, and the bytes it spans; or the error.
pub open spec fn step_outcome(a: Seq<u8>, b: nat, fields: Seq<SchemaField>) -> Result<
    Option<(Option<EntryModel>, nat)>,
    Error,
> {
    match head_outcome(a) {
        Err(e) => Err(e),
        Ok(None) => Ok(None),
        Ok(Some((tag, wire_type, h))) => {
            let t = a.skip(h as int);
            let bb = (b - h) as nat;
            match shape_of(fields, tag) {
                None => match skip_outcome(t, wire_type) {
                    Err(e) => Err(e),
                    Ok(k) => Ok(Some((None, h + k))),
                },
                Some(Shape::Varint) => if wire_type != WireType::Varint {
                    Err(Error::TypeMismatch)
                } else {
                    match varint_field_outcome(t) {
                        Err(e) => Err(e),
                        Ok((v, k)) => Ok(
                            Some((Some(EntryModel { tag, value: ValueModel::Varint(v) }), h + k)),
                        ),
                    }
                },
                Some(Shape::Bytes) => if wire_type != WireType::LengthDelimited {
                    Err(Error::TypeMismatch)
                } else {
                    match delimited_outcome(t) {
                        Err(e) => Err(e),
                        Ok((n, len)) => Ok(
                            Some(
                                (
                                    Some(
                                        EntryModel {
                                            tag,
                                            value: ValueModel::Bytes(
                                                t.subrange(n as int, (n + len) as int),
                                            ),
                                        },
                                    ),
                                    h + n + len,
                                ),
                            ),
                        ),
                    }
                },
                Some(Shape::Packed) => if wire_type != WireType::LengthDelimited {
                    Err(Error::TypeMismatch)
                } else {
                    match delimited_outcome(t) {
                        Err(e) => Err(e),
                        Ok((n, len)) => match packed_outcome(
                            t.subrange(n as int, (n + len) as int),
                        ) {
                            Err(e) => Err(e),
                            Ok(vs) => Ok(
                                Some(
                                    (
                                        Some(EntryModel { tag, value: ValueModel::Packed(vs) }),
                                        h + n + len,
                                    ),
                                ),
                            ),
                        },
                    }
                },
                Some(Shape::Nested(sub)) => if wire_type != WireType::LengthDelimited {
                    Err(Error::TypeMismatch)
                } else {
                    match nested_outcome(t, bb, sub.fields@) {
                        Err(e) => Err(e),
                        Ok(inner) => Ok(
                            Some(
                                (
                                    Some(EntryModel { tag, value: ValueModel::Nested(inner) }),
                                    h + nested_extent(t),
                                ),
                            ),
                        ),
                    }
                },
            }
        },
    }
}

/// The model of an optional field, as a sequence of zero or one fields.
pub open spec fn opt_entries(o: Option<EntryModel>) -> Seq<EntryModel> {
    match o {
        None => seq![],
        Some(e) => seq![e],
    }
}

/// Decoding a message is decoding its first field, then the rest.
#[verifier::spinoff_prover]
#[verifier::rlimit(60)]
pub proof fn lemma_decode_unfold(a: Seq<u8>, b: nat, fields: Seq<SchemaField>)
    requires
        a.len() <= b,
    ensures
        decode_entries(a, b, fields) == match step_outcome(a, b, fields) {
            Err(e) => Err(e),
            Ok(None) => Ok(seq![]),
            Ok(Some((o, k))) => prefixed_entries(
                opt_entries(o),
                decode_entries(a.skip(k as int), (b - k) as nat, fields),
            ),
        },
{
    reveal(decode_entries);
    lemma_head_len(a);
    match head_outcome(a) {
        Ok(Some((tag, wire_type, h))) => {
            let t = a.skip(h as int);
            lemma_outcome_len(t);
            lemma_skip_len(t, wire_type);
            assert(forall|k: int| 0 <= k <= t.len() ==> #[trigger] t.skip(k) =~= a.skip(h + k));
            match step_outcome(a, b, fields) {
                Ok(Some((o, k))) => {
                    if o is None {
                        let r = decode_entries(a.skip(k as int), (b - k) as nat, fields);
                        if r is Ok {
                            assert(Seq::<EntryModel>::empty() + r->Ok_0 =~= r->Ok_0);
                        }
                    }
                },
                _ => {},
            }
        },
        _ => {},
    }
}

/// A decoded field lies within the input.
pub proof fn lemma_step_len(a: Seq<u8>, b: nat, fields: Seq<SchemaField>)
    ensures
        step_outcome(a, b, fields) matches Ok(Some((o, k))) ==> 1 <= k <= a.len(),
{
    lemma_head_len(a);
    if head_outcome(a) is Ok && head_outcome(a)->Ok_0 is Some {
        let h = head_outcome(a)->Ok_0->Some_0.2;
        let wire_type = head_outcome(a)->Ok_0->Some_0.1;
        lemma_outcome_len(a.skip(h as int));
        lemma_skip_len(a.skip(h as int), wire_type);
    }
}

/// A field header spans at least one byte and no more than the input holds.
pub proof fn lemma_head_len(s: Seq<u8>)
    ensures
        head_outcome(s) matches Ok(Some((tag, w, h))) ==> 1 <= h <= s.len(),
{
    lemma_outcome_len(s);
}

/// A skipped payload lies within the input.
pub proof fn lemma_skip_len(t: Seq<u8>, wire_type: WireType)
    ensures
        skip_outcome(t, wire_type) matches Ok(k) ==> k <= t.len(),
{
    lemma_outcome_len(t);
}

/// `o` with `front` put before its values.
pub open spec fn prefixed(front: Seq<u64>, o: Result<Seq<u64>, Error>) -> Result<Seq<u64>, Error> {
    match o {
        Err(e) => Err(e),
        Ok(vs) => Ok(front + vs),
    }
}

/// `InputStream` reads Protocol-Buffers-encoded fields off a byte source,
/// one at a time.
pub struct InputStream {
    reader: Take,
}

/// A stream over `bytes`, with an unbounded budget.
pub fn from(bytes: Vec<u8>) -> (r: InputStream)
    ensures
        r.rest() == bytes@,
        r.budget() == u64::MAX,
        r.available() == bytes@,
{
    InputStream::from(bytes)
}

impl InputStream {
    /// The bounded reader under the stream.
    pub closed spec fn source(&self) -> Take {
        self.reader
    }

    /// The bytes of the source not read yet.
    pub open spec fn rest(&self) -> Seq<u8> {
        self.source().rest()
    }

    /// The budget of the current message.
    pub open spec fn budget(&self) -> u64 {
        self.source().budget()
    }

    /// The bytes that can still be read within the budget.
    pub open spec fn available(&self) -> Seq<u8> {
        self.source().available()
    }

    /// Whether this stream is `before` with its next `n` bytes read.
    pub open spec fn advanced(&self, before: InputStream, n: nat) -> bool {
        self.rest() == before.rest().skip(n as int) && self.budget() == before.budget() - n
    }

    /// Whether this stream is `before` with some of its available bytes read:
    /// its unread bytes and its budget have both dropped by that many.
    pub open spec fn progressed(&self, before: InputStream) -> bool {
        self.source().progressed(before.source())
    }

    pub fn from(bytes: Vec<u8>) -> (r: InputStream)
        ensures
            r.rest() == bytes@,
            r.budget() == u64::MAX,
            r.available() == bytes@,
    {
        let len = bytes.len();
        assert(len <= u64::MAX);
        InputStream { reader: Take::new(bytes, u64::MAX) }
    }

    /// Reads the header of the next field and returns a `Field` through which
    /// its payload must be read or skipped; `None` at a clean end.
    pub fn read_field(&mut self) -> (r: Result<Option<Field<'_>>, Error>)
        ensures
            r is Err ==> final(self).progressed(*old(self)),
            match head_outcome(old(self).available()) {
                Err(e) => r == Err::<Option<Field>, Error>(e),
                Ok(None) => r matches Ok(None) && final(self).advanced(*old(self), 0),
                Ok(Some((tag, wire_type, n))) => r matches Ok(Some(f)) && f.tag == tag
                    && f.wire_type == wire_type && f.input.advanced(*old(self), n)
                    && *final(f.input) == *final(self),
            },
    {
        let head = match read_varint(&mut self.reader) {
            Ok(Some(h)) => h,
            Ok(None) => {
                proof {
                    assert(old(self).rest().skip(0) =~= old(self).rest());
                }
                return Ok(None);
            },
            Err(e) => return Err(e),
        };
        let wire_type = match WireType::from_u32((head % 8) as u32) {
            Some(w) => w,
            None => return Err(Error::InvalidWireType),
        };
        if head / 8 > u32::MAX as u64 {
            return Err(Error::VarintOverflow);
        }
        Ok(Some(Field { input: self, tag: (head / 8) as u32, wire_type }))
    }

    /// Reads an unsigned varint; `Ok(None)` when no byte is available.
    pub fn read_varint(&mut self) -> (r: Result<Option<u64>, Error>)
        ensures
            final(self).progressed(*old(self)),
            match varint_outcome(old(self).available()) {
                Err(e) => r == Err::<Option<u64>, Error>(e),
                Ok(None) => r == Ok::<Option<u64>, Error>(None) && final(self).advanced(
                    *old(self),
                    0,
                ),
                Ok(Some((v, n))) => r == Ok::<Option<u64>, Error>(Some(v)) && final(self).advanced(*old(self), n),
            },
    {
        let r = read_varint(&mut self.reader);
        proof {
            assert(old(self).rest().skip(0) =~= old(self).rest());
        }
        r
    }

    /// Reads a length prefix and that many bytes; `Ok(None)` when no byte is
    /// available.
    pub fn read_length_delimited(&mut self) -> (r: Result<Option<Vec<u8>>, Error>)
        ensures
            final(self).progressed(*old(self)),
            old(self).available().len() == 0 ==> (r matches Ok(None) && final(self).advanced(
                *old(self),
                0,
            )),
            old(self).available().len() > 0 ==> match delimited_outcome(old(self).available()) {
                Err(e) => r matches Err(e2) && e == e2,
                Ok((n, len)) => r matches Ok(Some(b)) && b@ == old(self).available().subrange(
                    n as int,
                    (n + len) as int,
                ) && final(self).advanced(*old(self), n + len),
            },
    {
        let ghost a0 = old(self).available();
        let len = match self.read_varint() {
            Ok(Some(len)) => len,
            Ok(None) => return Ok(None),
            Err(e) => return Err(e),
        };
        let ghost n = varint_outcome(a0)->Ok_0->Some_0.1;
        let ghost mid = *self;
        proof {
            lemma_outcome_len(a0);
            lemma_available_after(*old(self), *self, n);
        }
        let b = self.read_exact(len);
        proof {
            lemma_progress_trans(*old(self), mid, *self);
        }
        match b {
            Ok(b) => {
                proof {
                    assert(b@ =~= a0.subrange(n as int, (n + len) as int));
                    assert(self.rest() =~= old(self).rest().skip((n + len) as int));
                }
                Ok(Some(b))
            },
            Err(e) => Err(e),
        }
    }

    /// Reads a nested message: a length prefix, then fields until that many
    /// bytes are used up. The parent's budget is then what it was, less the
    /// bytes of the nested message.
    fn read_message(&mut self, schema: &Schema) -> (r: Result<Message, Error>)
        ensures
            final(self).progressed(*old(self)),
            match varint_outcome(old(self).available()) {
                Ok(Some((len, n))) => len <= old(self).budget() - n ==> old(self).rest().len()
                    - final(self).rest().len() <= n + len,
                _ => true,
            },
            match nested_outcome(old(self).available(), old(self).budget() as nat, schema.fields@) {
                Err(e) => r matches Err(e2) && e2 == e,
                Ok(inner) => r matches Ok(m) && entries_model(m.entries@) == inner
                    && final(self).advanced(*old(self), nested_extent(old(self).available())),
            },
            match varint_outcome(old(self).available()) {
                Ok(Some((len, n))) => len > old(self).budget() - n ==> final(self).advanced(
                    *old(self),
                    n,
                ),
                _ => true,
            },
        decreases old(self).available().len(), 0nat,
    {
        let ghost a0 = old(self).available();
        let len = match self.read_varint() {
            Ok(Some(len)) => len,
            Ok(None) => return Err(Error::UnexpectedEof),
            Err(e) => return Err(e),
        };
        let ghost n = varint_outcome(a0)->Ok_0->Some_0.1;
        proof {
            lemma_outcome_len(a0);
            lemma_available_after(*old(self), *self, n);
            lemma_advanced_progress(*old(self), *self, n);
        }
        let lim = self.reader.limit();
        if len > lim {
            return Err(Error::NestedTooLong);
        }
        if len > self.reader.available_len() as u64 {
            return Err(Error::UnexpectedEof);
        }
        let ghost mid = *self;
        self.reader.set_limit(len);
        let ghost child = *self;
        proof {
            assert(self.available() =~= a0.subrange(n as int, (n + len) as int));
        }
        let ret = self.read_fields(schema);
        // Whether the nested decode succeeded or not, the parent's budget is
        // what it was less what the nested decode consumed.
        let consumed = len - self.reader.limit();
        self.reader.set_limit(lim - consumed);
        proof {
            lemma_progressed_by(mid.source(), self.source(), consumed as nat);
            lemma_progress_trans(*old(self), mid, *self);
            if ret is Ok {
                assert(self.rest() =~= old(self).rest().skip((n + len) as int));
            }
        }
        ret
    }

    /// Reads fields until a clean end: those whose tags `schema` declares are
    /// read as declared and kept in order, the others are skipped.
    pub fn read_fields(&mut self, schema: &Schema) -> (r: Result<Message, Error>)
        ensures
            final(self).progressed(*old(self)),
            match decode_entries(old(self).available(), old(self).budget() as nat, schema.fields@) {
                Err(e) => r matches Err(e2) && e2 == e,
                Ok(es) => r matches Ok(m) && entries_model(m.entries@) == es && final(self).advanced(*old(self), old(self).available().len()),
            },
        decreases old(self).available().len(), 2nat,
    {
        let ghost a0 = old(self).available();
        let ghost b0 = old(self).budget() as nat;
        let ghost fs = schema.fields@;
        let mut out: Vec<Entry> = Vec::new();
        proof {
            assert(a0.skip(0) =~= a0);
            assert(old(self).rest().skip(0) =~= old(self).rest());
            assert(entries_model(out@) =~= Seq::<EntryModel>::empty());
            assert(Seq::<EntryModel>::empty() + decode_entries(a0, b0, fs)->Ok_0 =~= decode_entries(a0, b0, fs)->Ok_0);
        }
        loop
            invariant
                fs == schema.fields@,
                a0 == old(self).available(),
                b0 == old(self).budget() as nat,
                self.available().len() <= a0.len(),
                self.available() == a0.skip(a0.len() - self.available().len()),
                self.advanced(*old(self), (a0.len() - self.available().len()) as nat),
                decode_entries(a0, b0, fs) == prefixed_entries(
                    entries_model(out@),
                    decode_entries(self.available(), self.budget() as nat, fs),
                ),
            decreases self.available().len(),
        {
            let ghost before = *self;
            let ghost a = self.available();
            let ghost done = entries_model(out@);
            proof {
                lemma_decode_unfold(a, self.budget() as nat, fs);
                lemma_step_len(a, self.budget() as nat, fs);
            }
            proof {
                lemma_advanced_progress(*old(self), before, (a0.len() - a.len()) as nat);
            }
            let step = self.read_entry(schema, &mut out);
            proof {
                lemma_progress_trans(*old(self), before, *self);
            }
            match step {
                Err(e) => return Err(e),
                Ok(false) => {
                    proof {
                        assert(done + Seq::<EntryModel>::empty() =~= done);
                        assert(self.rest() =~= old(self).rest().skip(a0.len() as int));
                    }
                    return Ok(Message { entries: out });
                },
                Ok(true) => {
                    proof {
                        let (o, k) = step_outcome(a, before.budget() as nat, fs)->Ok_0->Some_0;
                        lemma_available_after(before, *self, k);
                        let later = decode_entries(self.available(), self.budget() as nat, fs);
                        if later is Ok {
                            assert(done + opt_entries(o) + later->Ok_0 =~= done + (opt_entries(o)
                                + later->Ok_0));
                        }
                        assert(self.available() =~= a0.skip(a0.len() - self.available().len()));
                        assert(self.rest() =~= old(self).rest().skip(
                            a0.len() - self.available().len(),
                        ));
                    }
                },
            }
        }
    }

    /// Reads the next field: keeps it in `out` when the schema declares its
    /// tag, skips it otherwise. Returns `false` at a clean end.
    fn read_entry(&mut self, schema: &Schema, out: &mut Vec<Entry>) -> (r: Result<bool, Error>)
        ensures
            final(self).progressed(*old(self)),
            match step_outcome(old(self).available(), old(self).budget() as nat, schema.fields@) {
                Err(e) => r == Err::<bool, Error>(e),
                Ok(None) => r == Ok::<bool, Error>(false) && final(self).advanced(*old(self), 0)
                    && final(out)@ == old(out)@,
                Ok(Some((o, k))) => r == Ok::<bool, Error>(true) && final(self).advanced(
                    *old(self),
                    k,
                ) && entries_model(final(out)@) == entries_model(old(out)@) + opt_entries(o),
            },
        decreases old(self).available().len(), 1nat,
    {
        let ghost before = *self;
        let ghost a = self.available();
        proof {
            lemma_head_len(a);
        }
        let field = match self.read_field() {
            Err(e) => return Err(e),
            Ok(None) => {
                proof {
                    lemma_progress_refl(*self);
                    assert(self.rest() =~= before.rest());
                }
                return Ok(false);
            },
            Ok(Some(f)) => f,
        };
        let tag = field.tag;
        let ghost h = head_outcome(a)->Ok_0->Some_0.2;
        let ghost t = a.skip(h as int);
        let ghost mid = *field.input;
        proof {
            lemma_advanced_progress(before, mid, h);
            lemma_available_after(before, *field.input, h);
            lemma_outcome_len(t);
            assert(entries_model(out@) + Seq::<EntryModel>::empty() =~= entries_model(out@));
        }
        let r = match schema.lookup(tag) {
            None => {
                match field.skip() {
                    Err(e) => Err(e),
                    Ok(()) => {
                        proof {
                            assert(self.rest() =~= old(self).rest().skip(
                                step_outcome(a, before.budget() as nat, schema.fields@)->Ok_0->Some_0.1 as int,
                            ));
                        }
                        Ok(true)
                    },
                }
            },
            Some(Shape::Varint) => {
                match field.read_varint() {
                    Err(e) => Err(e),
                    Ok(v) => {
                        proof {
                            lemma_entries_model_push(out@, Entry { tag, value: Value::Varint(v) });
                            assert(self.rest() =~= old(self).rest().skip(
                                step_outcome(a, before.budget() as nat, schema.fields@)->Ok_0->Some_0.1 as int,
                            ));
                        }
                        out.push(Entry { tag, value: Value::Varint(v) });
                        Ok(true)
                    },
                }
            },
            Some(Shape::Bytes) => {
                match field.read_bytes() {
                    Err(e) => Err(e),
                    Ok(bytes) => {
                        proof {
                            lemma_entries_model_push(out@, Entry { tag, value: Value::Bytes(bytes) });
                            assert(self.rest() =~= old(self).rest().skip(
                                step_outcome(a, before.budget() as nat, schema.fields@)->Ok_0->Some_0.1 as int,
                            ));
                        }
                        out.push(Entry { tag, value: Value::Bytes(bytes) });
                        Ok(true)
                    },
                }
            },
            Some(Shape::Packed) => match field.read_packed() {
                Err(e) => Err(e),
                Ok(mut values) => match values.collect_values() {
                    Err(e) => Err(e),
                    Ok(vs) => {
                        proof {
                            lemma_entries_model_push(out@, Entry { tag, value: Value::Packed(vs) });
                            assert(self.rest() =~= old(self).rest().skip(
                                step_outcome(a, before.budget() as nat, schema.fields@)->Ok_0->Some_0.1 as int,
                            ));
                        }
                        out.push(Entry { tag, value: Value::Packed(vs) });
                        Ok(true)
                    },
                }
            },
            Some(Shape::Nested(sub)) => {
                match field.read_nested(sub) {
                    Err(e) => Err(e),
                    Ok(m) => {
                        proof {
                            lemma_entries_model_push(out@, Entry { tag, value: Value::Nested(m) });
                            assert(self.rest() =~= old(self).rest().skip(
                                step_outcome(a, before.budget() as nat, schema.fields@)->Ok_0->Some_0.1 as int,
                            ));
                        }
                        out.push(Entry { tag, value: Value::Nested(m) });
                        Ok(true)
                    },
                }
            },
        };
        proof {
            lemma_progress_trans(before, mid, *self);
        }
        r
    }

    /// Reads exactly `len` bytes, or fails when fewer are available.
    fn read_exact(&mut self, len: u64) -> (r: Result<Vec<u8>, Error>)
        ensures
            final(self).progressed(*old(self)),
            len > old(self).available().len() ==> r == Err::<Vec<u8>, Error>(
                Error::UnexpectedEof,
            ),
            len <= old(self).available().len() ==> (r matches Ok(b) && b@ == old(self).available().take(len as int) && final(self).advanced(*old(self), len as nat)),
    {
        let avail = self.reader.available_len();
        if len > avail as u64 {
            proof {
                lemma_progress_refl(*self);
            }
            return Err(Error::UnexpectedEof);
        }
        let b = self.reader.read(len as usize);
        proof {
            lemma_advanced_progress(*old(self), *self, len as nat);
        }
        Ok(b)
    }

    /// Drops exactly `len` bytes, or fails when fewer are available.
    fn skip(&mut self, len: u64) -> (r: Result<(), Error>)
        ensures
            final(self).progressed(*old(self)),
            len > old(self).available().len() ==> r == Err::<(), Error>(Error::UnexpectedEof),
            len <= old(self).available().len() ==> r is Ok && final(self).advanced(
                *old(self),
                len as nat,
            ),
    {
        let avail = self.reader.available_len();
        if len > avail as u64 {
            proof {
                lemma_progress_refl(*self);
            }
            return Err(Error::UnexpectedEof);
        }
        self.reader.skip_bytes(len as usize);
        proof {
            lemma_advanced_progress(*old(self), *self, len as nat);
        }
        Ok(())
    }
}

/// Reading `n` available bytes is progress.
pub proof fn lemma_advanced_progress(before: InputStream, after: InputStream, n: nat)
    requires
        n <= before.available().len(),
        after.advanced(before, n),
    ensures
        after.progressed(before),
{
    lemma_progressed_by(before.source(), after.source(), n);
}

/// Progress adds up.
pub proof fn lemma_progress_trans(s0: InputStream, s1: InputStream, s2: InputStream)
    requires
        s1.progressed(s0),
        s2.progressed(s1),
    ensures
        s2.progressed(s0),
{
    lemma_progressed_trans(s0.source(), s1.source(), s2.source());
}

/// Reading nothing is progress.
pub proof fn lemma_progress_refl(s: InputStream)
    ensures
        s.progressed(s),
{
    lemma_progressed_refl(s.source());
}

/// After reading `n` bytes the available bytes are the old ones without
/// their first `n`.
pub proof fn lemma_available_after(before: InputStream, after: InputStream, n: nat)
    requires
        after.advanced(before, n),
        n <= before.available().len(),
    ensures
        after.available() == before.available().skip(n as int),
{
    assert(after.available() =~= before.available().skip(n as int));
}

/// One field of the stream, whose header has been read.
///
/// It holds the stream exclusively until it is consumed: read as a value,
/// read as packed varints, read as a nested message, or skipped.
#[must_use]
pub struct Field<'a> {
    pub input: &'a mut InputStream,
    pub tag: u32,
    pub wire_type: WireType,
}

impl<'a> Field<'a> {
    /// The field's tag.
    pub fn tag(&self) -> (r: u32)
        ensures
            r == self.tag,
    {
        self.tag
    }

    /// The field's wire type.
    pub fn wire_type(&self) -> (r: WireType)
        ensures
            r == self.wire_type,
    {
        self.wire_type
    }

    /// Skips the field's payload: a varint, or a length prefix and that many
    /// bytes. The fixed-width and group wire types are not supported.
    pub fn skip(self) -> (r: Result<(), Error>)
        ensures
            final(self.input).progressed(*old(self.input)),
            !self.wire_type.is_supported() ==> *final(self.input) == *old(self.input),
            self.wire_type == WireType::Varint ==> match varint_field_outcome(
                old(self.input).available(),
            ) {
                Err(e) => r == Err::<(), Error>(e),
                Ok((v, n)) => r is Ok && final(self.input).advanced(*old(self.input), n),
            },
            self.wire_type == WireType::LengthDelimited ==> match delimited_outcome(
                old(self.input).available(),
            ) {
                Err(e) => r == Err::<(), Error>(e),
                Ok((n, len)) => r is Ok && final(self.input).advanced(*old(self.input), n + len),
            },
            !self.wire_type.is_supported() ==> r == Err::<(), Error>(
                Error::UnimplementedWireType,
            ),
    {
        let ghost a0 = old(self.input).available();
        proof {
            lemma_progress_refl(*self.input);
        }
        match self.wire_type {
            WireType::Varint => {
                match self.input.read_varint() {
                    Ok(Some(_)) => Ok(()),
                    Ok(None) => Err(Error::UnexpectedEof),
                    Err(e) => Err(e),
                }
            },
            WireType::LengthDelimited => {
                let len = match self.input.read_varint() {
                    Ok(Some(len)) => len,
                    Ok(None) => return Err(Error::UnexpectedEof),
                    Err(e) => return Err(e),
                };
                let ghost n = varint_outcome(a0)->Ok_0->Some_0.1;
                let ghost mid = *self.input;
                proof {
                    lemma_outcome_len(a0);
                    lemma_available_after(*old(self.input), *self.input, n);
                }
                let r = self.input.skip(len);
                proof {
                    lemma_progress_trans(*old(self.input), mid, *self.input);
                    if r is Ok {
                        assert(self.input.rest() =~= old(self.input).rest().skip((n + len) as int));
                    }
                }
                r
            },
            _ => Err(Error::UnimplementedWireType),
        }
    }

    /// Reads the field as an unsigned varint.
    pub fn read_varint(self) -> (r: Result<u64, Error>)
        ensures
            final(self.input).progressed(*old(self.input)),
            self.wire_type != WireType::Varint ==> *final(self.input) == *old(self.input),
            self.wire_type != WireType::Varint ==> r == Err::<u64, Error>(Error::TypeMismatch),
            self.wire_type == WireType::Varint ==> match varint_field_outcome(
                old(self.input).available(),
            ) {
                Err(e) => r == Err::<u64, Error>(e),
                Ok((v, n)) => r == Ok::<u64, Error>(v) && final(self.input).advanced(
                    *old(self.input),
                    n,
                ),
            },
    {
        proof {
            lemma_progress_refl(*self.input);
        }
        match self.wire_type {
            WireType::Varint => {
                match self.input.read_varint() {
                    Ok(Some(v)) => Ok(v),
                    Ok(None) => Err(Error::UnexpectedEof),
                    Err(e) => Err(e),
                }
            },
            _ => Err(Error::TypeMismatch),
        }
    }

    /// Reads the field as an unsigned integer of type `T`; a value that does
    /// not fit `T` is an overflow.
    pub fn read<T: Varint>(self) -> (r: Result<T, Error>)
        ensures
            final(self.input).progressed(*old(self.input)),
            self.wire_type != WireType::Varint ==> *final(self.input) == *old(self.input),
            self.wire_type != WireType::Varint ==> (r matches Err(e) && e == Error::TypeMismatch),
            self.wire_type == WireType::Varint ==> match varint_field_outcome(
                old(self.input).available(),
            ) {
                Err(e) => r matches Err(e2) && e2 == e,
                Ok((v, n)) => if v as nat <= T::max_wire_value() {
                    r matches Ok(x) && x.wire_value() == v as nat && final(self.input).advanced(
                        *old(self.input),
                        n,
                    )
                } else {
                    r matches Err(e) && e == Error::VarintOverflow
                },
            },
    {
        proof {
            lemma_progress_refl(*self.input);
        }
        match self.read_varint() {
            Ok(v) => match T::from_wire(v) {
                Some(x) => Ok(x),
                None => Err(Error::VarintOverflow),
            },
            Err(e) => Err(e),
        }
    }

    /// Reads the field as a length-delimited run of bytes.
    pub fn read_bytes(self) -> (r: Result<Vec<u8>, Error>)
        ensures
            final(self.input).progressed(*old(self.input)),
            self.wire_type != WireType::LengthDelimited ==> *final(self.input) == *old(
                self.input,
            ),
            self.wire_type != WireType::LengthDelimited ==> r == Err::<Vec<u8>, Error>(
                Error::TypeMismatch,
            ),
            self.wire_type == WireType::LengthDelimited ==> match delimited_outcome(
                old(self.input).available(),
            ) {
                Err(e) => r matches Err(e2) && e == e2,
                Ok((n, len)) => r matches Ok(b) && b@ == old(self.input).available().subrange(
                    n as int,
                    (n + len) as int,
                ) && final(self.input).advanced(*old(self.input), n + len),
            },
    {
        proof {
            lemma_progress_refl(*self.input);
        }
        match self.wire_type {
            WireType::LengthDelimited => {
                match self.input.read_length_delimited() {
                    Ok(Some(b)) => Ok(b),
                    Ok(None) => Err(Error::UnexpectedEof),
                    Err(e) => Err(e),
                }
            },
            _ => Err(Error::TypeMismatch),
        }
    }

    /// Reads the field as length-delimited UTF-8 text.
    pub fn read_string(self) -> (r: Result<String, Error>)
        ensures
            final(self.input).progressed(*old(self.input)),
            self.wire_type != WireType::LengthDelimited ==> *final(self.input) == *old(
                self.input,
            ),
            self.wire_type != WireType::LengthDelimited ==> (r matches Err(e) && e
                == Error::TypeMismatch),
            self.wire_type == WireType::LengthDelimited ==> match delimited_outcome(
                old(self.input).available(),
            ) {
                Err(e) => r matches Err(e2) && e == e2,
                Ok((n, len)) => {
                    let payload = old(self.input).available().subrange(n as int, (n + len) as int);
                    &&& valid_utf8(payload) ==> (r matches Ok(text) && text@ == decode_utf8(payload))
                    &&& !valid_utf8(payload) ==> (r matches Err(e) && e == Error::InvalidEncoding)
                    &&& final(self.input).advanced(*old(self.input), n + len)
                },
            },
    {
        proof {
            lemma_progress_refl(*self.input);
        }
        match self.read_bytes() {
            Ok(b) => match string_from_utf8(b) {
                Some(text) => Ok(text),
                None => Err(Error::InvalidEncoding),
            },
            Err(e) => Err(e),
        }
    }

    /// Reads the field as a nested message, decoded with `schema`. A length
    /// prefix beyond what the enclosing message has left is refused before
    /// any of the payload is read.
    pub fn read_nested(self, schema: &Schema) -> (r: Result<Message, Error>)
        ensures
            final(self.input).progressed(*old(self.input)),
            self.wire_type != WireType::LengthDelimited ==> *final(self.input) == *old(
                self.input,
            ),
            self.wire_type != WireType::LengthDelimited ==> (r matches Err(e) && e
                == Error::TypeMismatch),
            self.wire_type == WireType::LengthDelimited ==> match nested_outcome(
                old(self.input).available(),
                old(self.input).budget() as nat,
                schema.fields@,
            ) {
                Err(e) => r matches Err(e2) && e2 == e,
                Ok(inner) => r matches Ok(m) && entries_model(m.entries@) == inner && final(self.input).advanced(*old(self.input), nested_extent(old(self.input).available())),
            },
            self.wire_type == WireType::LengthDelimited ==> match varint_outcome(
                old(self.input).available(),
            ) {
                Ok(Some((len, n))) => len > old(self.input).budget() - n ==> final(self.input).advanced(*old(self.input), n),
                _ => true,
            },
        decreases old(self.input).available().len(), 1nat,
    {
        proof {
            lemma_progress_refl(*self.input);
        }
        match self.wire_type {
            WireType::LengthDelimited => self.input.read_message(schema),
            _ => Err(Error::TypeMismatch),
        }
    }

    /// Reads the field as a length-delimited run of packed varints, which
    /// are then decoded one by one.
    pub fn read_packed(self) -> (r: Result<Varints, Error>)
        ensures
            final(self.input).progressed(*old(self.input)),
            self.wire_type != WireType::LengthDelimited ==> *final(self.input) == *old(
                self.input,
            ),
            self.wire_type != WireType::LengthDelimited ==> (r matches Err(e) && e
                == Error::TypeMismatch),
            self.wire_type == WireType::LengthDelimited ==> match delimited_outcome(
                old(self.input).available(),
            ) {
                Err(e) => r matches Err(e2) && e == e2,
                Ok((n, len)) => r matches Ok(vs) && vs.remaining() == old(self.input).available().subrange(n as int, (n + len) as int) && final(self.input).advanced(
                    *old(self.input),
                    n + len,
                ),
            },
    {
        proof {
            lemma_progress_refl(*self.input);
        }
        match self.read_bytes() {
            Ok(b) => Ok(Varints::new(b)),
            Err(e) => Err(e),
        }
    }
}

/// Relies on `String::from_utf8`: it accepts exactly the byte sequences that
/// are valid UTF-8, and the string then holds the characters they encode.
#[verifier::external_body]
fn string_from_utf8(bytes: Vec<u8>) -> (r: Option<String>)
    ensures
        r is Some <==> valid_utf8(bytes@),
        r matches Some(text) ==> text@ == decode_utf8(bytes@),
{
    String::from_utf8(bytes).ok()
}

/// The values of a packed field, decoded one at a time from its payload.
pub struct Varints {
    input: InputStream,
}

impl Varints {
    /// The payload bytes not decoded yet.
    pub closed spec fn remaining(&self) -> Seq<u8> {
        self.input.available()
    }

    fn new(payload: Vec<u8>) -> (r: Varints)
        ensures
            r.remaining() == payload@,
    {
        Varints { input: InputStream::from(payload) }
    }

    /// The next value; `None` once the payload is used up.
    pub fn next(&mut self) -> (r: Option<Result<u64, Error>>)
        ensures
            match varint_outcome(old(self).remaining()) {
                Err(e) => r == Some(Err::<u64, Error>(e)),
                Ok(None) => r is None && final(self).remaining() == old(self).remaining(),
                Ok(Some((v, n))) => r == Some(Ok::<u64, Error>(v)) && final(self).remaining()
                    == old(self).remaining().skip(n as int),
            },
    {
        let ghost before = self.input;
        let r = self.input.read_varint();
        proof {
            lemma_outcome_len(before.available());
            if r matches Ok(Some(_)) {
                lemma_available_after(before, self.input, varint_outcome(before.available())->Ok_0->Some_0.1);
            } else if r matches Ok(None) {
                lemma_available_after(before, self.input, 0);
                assert(before.available().skip(0) =~= before.available());
            }
        }
        match r {
            Ok(Some(v)) => Some(Ok(v)),
            Ok(None) => None,
            Err(e) => Some(Err(e)),
        }
    }

    /// Decodes every remaining value, in order.
    pub fn collect_values(&mut self) -> (r: Result<Vec<u64>, Error>)
        ensures
            match packed_outcome(old(self).remaining()) {
                Err(e) => r == Err::<Vec<u64>, Error>(e),
                Ok(vs) => r matches Ok(out) && out@ == vs,
            },
    {
        let mut out: Vec<u64> = Vec::new();
        loop
            invariant
                packed_outcome(old(self).remaining()) == prefixed(
                    out@,
                    packed_outcome(self.remaining()),
                ),
            decreases self.remaining().len(),
        {
            let ghost before = self.remaining();
            proof {
                lemma_outcome_len(before);
            }
            match self.next() {
                None => {
                    proof {
                        assert(out@ + Seq::<u64>::empty() =~= out@);
                    }
                    return Ok(out);
                },
                Some(Err(e)) => {
                    return Err(e);
                },
                Some(Ok(v)) => {
                    proof {
                        let later = packed_outcome(self.remaining());
                        assert(packed_outcome(before) == prefixed(seq![v], later));
                        if later is Ok {
                            assert(out@.push(v) + later->Ok_0 =~= out@ + (seq![v] + later->Ok_0));
                        }
                    }
                    out.push(v);
                },
            }
        }
    }
}

} // verus!
