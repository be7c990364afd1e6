//! The symbol attribute byte and its seven named flags.
use vstd::prelude::*;

verus! {

/// Attribute flags of a symbol, packed on the wire into a single byte.
#[derive(Copy, Clone, Debug, Default, PartialEq, Eq, Structural)]
pub struct FunctionScope {
    pub public: bool,
    pub is_static: bool,
    pub first: bool,
    pub init: bool,
    pub exit: bool,
    pub message: bool,
    pub memvar: bool,
}

/// Bit carrying `public`.
pub const SCOPE_PUBLIC: u8 = 0x01;
/// Bit carrying `static`.
pub const SCOPE_STATIC: u8 = 0x02;
/// Bit carrying `first`.
pub const SCOPE_FIRST: u8 = 0x04;
/// Bit carrying `init`.
pub const SCOPE_INIT: u8 = 0x08;
/// Bit carrying `exit`.
pub const SCOPE_EXIT: u8 = 0x10;
/// Bit carrying `message`.
pub const SCOPE_MESSAGE: u8 = 0x20;
/// Bit carrying `memvar`.
pub const SCOPE_MEMVAR: u8 = 0x80;
/// Every bit that carries a flag: all but the reserved `0x40`.
pub const SCOPE_MASK: u8 = 0xBF;

/// The flags that a byte carries, each bit tested on its own.
pub open spec fn scope_of_byte(x: u8) -> FunctionScope {
    FunctionScope {
        public: x & 0x01 != 0,
        is_static: x & 0x02 != 0,
        first: x & 0x04 != 0,
        init: x & 0x08 != 0,
        exit: x & 0x10 != 0,
        message: x & 0x20 != 0,
        memvar: x & 0x80 != 0,
    }
}

/// The byte that carries the given flags; the reserved bit stays clear.
pub open spec fn byte_of_scope(s: FunctionScope) -> u8 {
    (if s.public { 0x01u8 } else { 0u8 }) | (if s.is_static { 0x02u8 } else { 0u8 }) | (if s.first {
        0x04u8
    } else {
        0u8
    }) | (if s.init { 0x08u8 } else { 0u8 }) | (if s.exit { 0x10u8 } else { 0u8 }) | (if s.message {
        0x20u8
    } else {
        0u8
    }) | (if s.memvar { 0x80u8 } else { 0u8 })
}

impl FunctionScope {
    /// Both `init` and `exit` are set.
    pub open spec fn spec_is_initexit(&self) -> bool {
        self.init && self.exit
    }

    /// The scope of a program's entry point: `first`, `init` and `exit` all set.
    pub open spec fn spec_is_startup(&self) -> bool {
        self.first && self.spec_is_initexit()
    }

    /// Whether both `init` and `exit` are set.
    pub fn is_initexit(&self) -> (r: bool)
        ensures
            r == self.spec_is_initexit(),
    {
        self.init && self.exit
    }

    /// Whether this scope marks the program's entry point.
    pub fn is_startup(&self) -> (r: bool)
        ensures
            r == self.spec_is_startup(),
    {
        self.first && self.is_initexit()
    }
}

/// Unpacks an attribute byte into its flags. Total: every byte decodes.
pub fn decode_scope(x: u8) -> (r: FunctionScope)
    ensures
        r == scope_of_byte(x),
{
    FunctionScope {
        public: x & SCOPE_PUBLIC != 0,
        is_static: x & SCOPE_STATIC != 0,
        first: x & SCOPE_FIRST != 0,
        init: x & SCOPE_INIT != 0,
        exit: x & SCOPE_EXIT != 0,
        message: x & SCOPE_MESSAGE != 0,
        memvar: x & SCOPE_MEMVAR != 0,
    }
}

/// Packs flags into an attribute byte. Total: every scope encodes.
pub fn encode_scope(s: FunctionScope) -> (r: u8)
    ensures
        r == byte_of_scope(s),
{
    let public: u8 = if s.public { SCOPE_PUBLIC } else { 0 };
    let is_static: u8 = if s.is_static { SCOPE_STATIC } else { 0 };
    let first: u8 = if s.first { SCOPE_FIRST } else { 0 };
    let init: u8 = if s.init { SCOPE_INIT } else { 0 };
    let exit: u8 = if s.exit { SCOPE_EXIT } else { 0 };
    let message: u8 = if s.message { SCOPE_MESSAGE } else { 0 };
    let memvar: u8 = if s.memvar { SCOPE_MEMVAR } else { 0 };
    public | is_static | first | init | exit | message | memvar
}

/// Decoding any byte and encoding the flags again gives back the byte with the
/// reserved bit `0x40` cleared.
pub proof fn lemma_scope_byte_round_trip(x: u8)
    ensures
        byte_of_scope(scope_of_byte(x)) == x & 0xBF,
{
    assert((if x & 0x01 != 0 { 0x01u8 } else { 0u8 }) | (if x & 0x02 != 0 { 0x02u8 } else { 0u8 }) | (
    if x & 0x04 != 0 {
        0x04u8
    } else {
        0u8
    }) | (if x & 0x08 != 0 { 0x08u8 } else { 0u8 }) | (if x & 0x10 != 0 { 0x10u8 } else { 0u8 }) | (
    if x & 0x20 != 0 {
        0x20u8
    } else {
        0u8
    }) | (if x & 0x80 != 0 { 0x80u8 } else { 0u8 }) == x & 0xBF) by (bit_vector);
}

/// Encoding any set of flags and decoding the byte gives back the same flags.
pub proof fn lemma_scope_flags_round_trip(s: FunctionScope)
    ensures
        scope_of_byte(byte_of_scope(s)) == s,
{
    let (a, b, c, d, e, f, g) = (s.public, s.is_static, s.first, s.init, s.exit, s.message, s.memvar);
    let x = byte_of_scope(s);
    assert(x == (if a { 0x01u8 } else { 0u8 }) | (if b { 0x02u8 } else { 0u8 }) | (if c {
        0x04u8
    } else {
        0u8
    }) | (if d { 0x08u8 } else { 0u8 }) | (if e { 0x10u8 } else { 0u8 }) | (if f {
        0x20u8
    } else {
        0u8
    }) | (if g { 0x80u8 } else { 0u8 }) ==> (x & 0x01 != 0) == a && (x & 0x02 != 0) == b && (x
        & 0x04 != 0) == c && (x & 0x08 != 0) == d && (x & 0x10 != 0) == e && (x & 0x20 != 0)
        == f && (x & 0x80 != 0) == g) by (bit_vector);
}

impl From<u8> for FunctionScope {
    fn from(x: u8) -> (r: FunctionScope) {
        decode_scope(x)
    }
}

impl vstd::std_specs::convert::FromSpecImpl<u8> for FunctionScope {
    open spec fn obeys_from_spec() -> bool {
        true
    }

    open spec fn from_spec(x: u8) -> FunctionScope {
        scope_of_byte(x)
    }
}

} // verus!
