//! Decoder for compiled HRB application bundles.
//!
//! A bundle is a magic tag, a two-byte version, a table of symbols and a table
//! of functions. Decoding checks every field against the end of the input and
//! borrows names and pcode from the input instead of copying them.
use vstd::prelude::*;

pub mod bundle;
pub mod error;
pub mod laws;
pub mod reader;
pub mod scope;
pub mod symbol_type;

pub use bundle::{parse_hrb, Function, HrbBody, Symbol};
pub use error::DecodeError;
pub use scope::{decode_scope, encode_scope, FunctionScope};
pub use symbol_type::{decode_symbol_type, encode_symbol_type, SymbolType};

verus! {

use crate::bundle::{lemma_first_startup, spec_decode, BundleModel};

/// Decodes a bundle from `body`. This is where resolving external and deferred
/// symbols against other modules would go; the decoded records are returned
/// as they stand.
pub fn load<'a>(body: &'a [u8]) -> (r: Result<HrbBody<'a>, DecodeError>)
    ensures
        match r {
            Ok(b) => spec_decode(body@) == Ok::<BundleModel, DecodeError>(b@),
            Err(e) => spec_decode(body@) == Err::<BundleModel, DecodeError>(e),
        },
        r matches Ok(b) ==> (b.startup_symbol matches Some(i) ==> i < b.symbols@.len()
            && b.symbols@[i as int].scope.spec_is_startup() && forall|j: int|
            0 <= j < i ==> !b.symbols@[j].scope.spec_is_startup()),
        r matches Ok(b) ==> (b.startup_symbol is None ==> forall|j: int|
            0 <= j < b.symbols@.len() ==> !b.symbols@[j].scope.spec_is_startup()),
{
    let r = parse_hrb(body);
    proof {
        if r is Ok {
            let b = r->Ok_0;
            lemma_first_startup(b@.symbols);
            assert forall|j: int| 0 <= j < b.symbols@.len() implies b@.symbols[j].scope
                == b.symbols@[j].scope by {}
        }
    }
    r
}

} // verus!
