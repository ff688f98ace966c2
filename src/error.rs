use vstd::prelude::*;

verus! {

/// Everything that can go wrong while encoding or decoding.
///
/// Every error is terminal for the call that raised it.
#[derive(Clone, Copy, Debug, PartialEq, Eq, Structural)]
pub enum Error {
    /// A field header carries a wire-type code outside `0..=5`.
    InvalidWireType,
    /// The input ended inside a varint or inside a length-delimited payload.
    UnexpectedEof,
    /// A typed read was attempted against a field of an incompatible wire type.
    TypeMismatch,
    /// A nested message declares more bytes than its parent has left.
    NestedTooLong,
    /// Text bytes are not valid UTF-8.
    InvalidEncoding,
    /// The caller's output buffer is smaller than the encoded message.
    DestinationTooSmall,
    /// A fixed-width or group wire type was met; those are not supported.
    UnimplementedWireType,
    /// A varint is longer than ten bytes or does not fit the target integer.
    VarintOverflow,
    /// The writing pass ran out of recorded lengths: it was given a table
    /// that the sizing pass did not record for this message.
    InvalidSerializer,
}

} // verus!
