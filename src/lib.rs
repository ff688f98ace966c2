//! A minimal Protocol-Buffers-style wire codec.
//!
//! Messages are value graphs ([`Message`]) of tagged fields: varints, byte
//! runs, packed varints and nested messages. Encoding takes two passes over
//! one traversal ([`output_stream::write_message`]): a sizing pass
//! ([`Serializer`]) that counts the bytes and records the length of every
//! length-delimited block, then a writing pass ([`OutputWriter`]) that
//! replays those lengths. Decoding reads fields off a budgeted byte source
//! ([`InputStream`]), one [`Field`] at a time, and [`deserialize`] assembles
//! a message with a [`Schema`] that tells how each known tag is read.
//!
//! The laws that tie encoding and decoding together are proved in [`laws`].

mod error;
pub mod input_stream;
pub mod laws;
pub mod message;
pub mod output_stream;
mod output_writer;
pub mod schema;
mod serializer;
pub mod take;
pub mod varint;
mod wire_type;

pub use error::Error;
pub use input_stream::{Field, InputStream, Varints};
pub use message::{Entry, Message, Value};
pub use output_stream::OutputStream;
pub use output_writer::OutputWriter;
pub use schema::{Schema, SchemaField, Shape};
pub use serializer::Serializer;
pub use varint::Varint;
pub use wire_type::WireType;

use vstd::prelude::*;

verus! {

/// Decodes the message in `input`: reads fields until the input ends,
/// keeping, in order, those whose tags `schema` declares and skipping the
/// others.
pub fn deserialize(input: Vec<u8>, schema: &Schema) -> (r: Result<Message, Error>)
    ensures
        match input_stream::decode_entries(input@, u64::MAX as nat, schema.fields@) {
            Err(e) => r matches Err(e2) && e2 == e,
            Ok(es) => r matches Ok(m) && message::entries_model(m.entries@) == es,
        },
{
    let mut stream = input_stream::from(input);
    stream.read_fields(schema)
}

/// Runs the sizing pass over `msg`: the returned serializer holds the total
/// size and the payload length of every packed field and nested message.
pub fn serializer_for(msg: &Message) -> (r: Serializer)
    requires
        message::message_size(*msg) <= usize::MAX,
    ensures
        r.spec_size() == message::message_size(*msg),
        r.lengths() == message::message_table(*msg),
{
    let mut serializer = Serializer::new();
    proof {
        message::lemma_size_is_length(*msg);
    }
    let _ = output_stream::write_message(&mut serializer, msg);
    proof {
        assert(serializer.lengths() =~= message::message_table(*msg));
    }
    serializer
}

/// Encodes `msg`: a sizing pass, then a writing pass into a buffer of exactly
/// the counted size.
pub fn serialize(msg: &Message) -> (r: Vec<u8>)
    requires
        message::message_size(*msg) <= usize::MAX,
    ensures
        r@ == message::message_bytes(*msg),
        r@.len() == message::message_size(*msg),
{
    let serializer = serializer_for(msg);
    let mut bytes: Vec<u8> = Vec::with_capacity(serializer.size());
    serializer.serialize(msg, &mut bytes);
    proof {
        assert(bytes@ =~= message::message_bytes(*msg));
        message::lemma_size_is_length(*msg);
    }
    bytes
}

} // verus!
