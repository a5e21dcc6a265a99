use vstd::prelude::*;

verus! {

/// Why a decode failed.
#[derive(Debug, Clone, Copy, PartialEq, Eq, Structural)]
pub enum DecodeError {
    /// The input ended inside a value.
    UnexpectedEof,
    /// A varint, a flag or a string was not well formed.
    MalformedPrimitive,
    /// A tag byte names no variant of the union being decoded.
    UnknownDiscriminant(u8),
    /// A length-delimited payload did not use up all of its bytes.
    TrailingBytes,
}

} // verus!
