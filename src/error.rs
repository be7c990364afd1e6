//! Why a bundle failed to decode.
use vstd::prelude::*;

verus! {

/// The first failure met while decoding; decoding stops there.
#[derive(Copy, Clone, Debug, PartialEq, Eq, Structural)]
pub enum DecodeError {
    /// The header does not start with the magic tag.
    BadMagic,
    /// A count or size field exceeds the 24-bit ceiling.
    ValueOutOfRange,
    /// A fixed-width or declared-length field runs past the end of input.
    UnexpectedEof,
    /// A name has no terminating zero byte before the end of input.
    UnterminatedString,
    /// A symbol-type byte outside `0..=3`; carries the byte.
    InvalidSymbolType(u8),
    /// The symbol table was declared with zero entries.
    EmptySymbolTable,
    /// Bytes remain after the function table.
    TrailingBytes,
}

} // verus!
