//! Primitive field readers over a byte buffer and a position in it.
//!
//! Each reader has a spec function that says what it reads at a position of a
//! byte sequence, and where the next field starts. The executable readers are
//! proved to return exactly that, and never to read past the end.
use vstd::prelude::*;
use crate::error::DecodeError;

verus! {

/// The largest value a count or size field may hold.
pub const MAX_VALUE: u32 = 0x00FF_FFFF;

/// An executable outcome seen through the views of its value and position.
pub open spec fn outcome<T: View>(r: Result<(T, usize), DecodeError>) -> Result<(T::V, nat), DecodeError> {
    match r {
        Ok((v, p)) => Ok((v@, p as nat)),
        Err(e) => Err(e),
    }
}

/// The little-endian unsigned value of the four bytes at `pos`.
pub open spec fn le_u32_at(s: Seq<u8>, pos: nat) -> nat {
    s[pos as int] as nat + 0x100 * (s[pos + 1int] as nat) + 0x1_0000 * (s[pos + 2int] as nat) + 0x100_0000
        * (s[pos + 3int] as nat)
}

/// One byte at `pos`.
pub open spec fn spec_read_u8(s: Seq<u8>, pos: nat) -> Result<(u8, nat), DecodeError> {
    if pos < s.len() {
        Ok((s[pos as int], pos + 1))
    } else {
        Err(DecodeError::UnexpectedEof)
    }
}

/// The `n` bytes at `pos`.
pub open spec fn spec_read_exact(s: Seq<u8>, pos: nat, n: nat) -> Result<(Seq<u8>, nat), DecodeError> {
    if pos + n <= s.len() {
        Ok((s.subrange(pos as int, (pos + n) as int), pos + n))
    } else {
        Err(DecodeError::UnexpectedEof)
    }
}

/// A four-byte little-endian count or size at `pos`, at most `MAX_VALUE`.
pub open spec fn spec_read_u32_bounded(s: Seq<u8>, pos: nat) -> Result<(nat, nat), DecodeError> {
    if pos + 4 > s.len() {
        Err(DecodeError::UnexpectedEof)
    } else if le_u32_at(s, pos) > MAX_VALUE as nat {
        Err(DecodeError::ValueOutOfRange)
    } else {
        Ok((le_u32_at(s, pos), pos + 4))
    }
}

/// The index of the first zero byte at or after `pos`, if there is one.
pub open spec fn first_zero(s: Seq<u8>, pos: nat) -> Option<nat>
    decreases s.len() - pos,
{
    if pos >= s.len() {
        None
    } else if s[pos as int] == 0 {
        Some(pos)
    } else {
        first_zero(s, pos + 1)
    }
}

/// The bytes from `pos` up to the first zero byte, which is consumed and dropped.
pub open spec fn spec_read_cstring(s: Seq<u8>, pos: nat) -> Result<(Seq<u8>, nat), DecodeError> {
    match first_zero(s, pos) {
        Some(z) => Ok((s.subrange(pos as int, z as int), z + 1)),
        None => Err(DecodeError::UnterminatedString),
    }
}

/// `first_zero` finds the first zero byte from `pos` on, and finds none only
/// where there is none.
pub proof fn lemma_first_zero(s: Seq<u8>, pos: nat)
    ensures
        first_zero(s, pos) matches Some(z) ==> pos <= z < s.len() && s[z as int] == 0 && forall|
            i: int,
        |
            pos <= i < z ==> s[i] != 0,
        first_zero(s, pos) is None ==> forall|i: int| pos <= i < s.len() ==> s[i] != 0,
    decreases s.len() - pos,
{
    if pos < s.len() && s[pos as int] != 0 {
        lemma_first_zero(s, pos + 1);
    }
}

/// Reads one byte.
pub fn read_u8(input: &[u8], pos: usize) -> (r: Result<(u8, usize), DecodeError>)
    requires
        pos <= input@.len(),
    ensures
        outcome(r) == spec_read_u8(input@, pos as nat),
        r matches Ok((_, p)) ==> pos <= p <= input@.len(),
{
    if pos < input.len() {
        Ok((input[pos], pos + 1))
    } else {
        Err(DecodeError::UnexpectedEof)
    }
}

/// Reads the next `n` bytes as a view into `input`, without copying them.
pub fn read_exact<'a>(input: &'a [u8], pos: usize, n: usize) -> (r: Result<(&'a [u8], usize), DecodeError>)
    requires
        pos <= input@.len(),
    ensures
        outcome(r) == spec_read_exact(input@, pos as nat, n as nat),
        r matches Ok((_, p)) ==> pos <= p <= input@.len(),
{
    if n <= input.len() - pos {
        Ok((vstd::slice::slice_subrange(input, pos, pos + n), pos + n))
    } else {
        Err(DecodeError::UnexpectedEof)
    }
}

/// Reads a four-byte little-endian count or size, refusing one above `MAX_VALUE`.
pub fn read_u32_bounded(input: &[u8], pos: usize) -> (r: Result<(usize, usize), DecodeError>)
    requires
        pos <= input@.len(),
    ensures
        match r {
            Ok((v, p)) => spec_read_u32_bounded(input@, pos as nat) == Ok::<(nat, nat), DecodeError>(
                (v as nat, p as nat),
            ),
            Err(e) => spec_read_u32_bounded(input@, pos as nat) == Err::<(nat, nat), DecodeError>(e),
        },
        r matches Ok((v, p)) ==> v <= MAX_VALUE && pos <= p <= input@.len(),
{
    if input.len() - pos < 4 {
        return Err(DecodeError::UnexpectedEof);
    }
    let v: u32 = input[pos] as u32 + 0x100 * (input[pos + 1] as u32) + 0x1_0000 * (input[pos + 2] as u32)
        + 0x100_0000 * (input[pos + 3] as u32);
    if v > MAX_VALUE {
        Err(DecodeError::ValueOutOfRange)
    } else {
        Ok((v as usize, pos + 4))
    }
}

/// Reads a zero-terminated name as a view into `input`, terminator excluded.
pub fn read_cstring<'a>(input: &'a [u8], pos: usize) -> (r: Result<(&'a [u8], usize), DecodeError>)
    requires
        pos <= input@.len(),
    ensures
        outcome(r) == spec_read_cstring(input@, pos as nat),
        r matches Ok((_, p)) ==> pos < p <= input@.len(),
{
    let mut i: usize = pos;
    while i < input.len()
        invariant
            pos <= i <= input@.len(),
            first_zero(input@, pos as nat) == first_zero(input@, i as nat),
        decreases input@.len() - i,
    {
        if input[i] == 0 {
            return Ok((vstd::slice::slice_subrange(input, pos, i), i + 1));
        }
        i = i + 1;
    }
    Err(DecodeError::UnterminatedString)
}

} // verus!
