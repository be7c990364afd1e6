//! The link kind of a symbol and its one-byte tag.
use vstd::prelude::*;
use crate::error::DecodeError;

verus! {

/// How a symbol is linked.
#[derive(Copy, Clone, Debug, PartialEq, Eq, Structural)]
pub enum SymbolType {
    NoLink,
    Function,
    External,
    Deferred,
}

/// The tag of each link kind.
pub open spec fn tag_of(t: SymbolType) -> u8 {
    match t {
        SymbolType::NoLink => 0,
        SymbolType::Function => 1,
        SymbolType::External => 2,
        SymbolType::Deferred => 3,
    }
}

/// The link kind a byte names, or the error for a byte that names none.
pub open spec fn symbol_type_of(x: u8) -> Result<SymbolType, DecodeError> {
    if x == 0 {
        Ok(SymbolType::NoLink)
    } else if x == 1 {
        Ok(SymbolType::Function)
    } else if x == 2 {
        Ok(SymbolType::External)
    } else if x == 3 {
        Ok(SymbolType::Deferred)
    } else {
        Err(DecodeError::InvalidSymbolType(x))
    }
}

/// Reads a link-kind tag; any byte outside `0..=3` is refused.
pub fn decode_symbol_type(x: u8) -> (r: Result<SymbolType, DecodeError>)
    ensures
        r == symbol_type_of(x),
        r is Ok <==> x <= 3,
        r matches Ok(t) ==> tag_of(t) == x,
        r is Err ==> r == Err::<SymbolType, DecodeError>(DecodeError::InvalidSymbolType(x)),
{
    match x {
        0 => Ok(SymbolType::NoLink),
        1 => Ok(SymbolType::Function),
        2 => Ok(SymbolType::External),
        3 => Ok(SymbolType::Deferred),
        _ => Err(DecodeError::InvalidSymbolType(x)),
    }
}

/// The tag of a link kind. Total.
pub fn encode_symbol_type(t: SymbolType) -> (r: u8)
    ensures
        r == tag_of(t),
        symbol_type_of(r) == Ok::<SymbolType, DecodeError>(t),
{
    match t {
        SymbolType::NoLink => 0,
        SymbolType::Function => 1,
        SymbolType::External => 2,
        SymbolType::Deferred => 3,
    }
}

/// Every tag in `0..=3` decodes to the link kind that encodes back to it, every
/// other byte is refused, and every link kind survives encoding and decoding.
pub proof fn lemma_symbol_type_round_trip(x: u8, t: SymbolType)
    ensures
        x <= 3 ==> (symbol_type_of(x) matches Ok(k) && tag_of(k) == x),
        x > 3 ==> symbol_type_of(x) == Err::<SymbolType, DecodeError>(DecodeError::InvalidSymbolType(x)),
        symbol_type_of(tag_of(t)) == Ok::<SymbolType, DecodeError>(t),
{
}

} // verus!
