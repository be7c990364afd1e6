//! Symbol and function records, and the whole bundle: what each is in the
//! abstract, what the bytes of a bundle decode to, and the decoder itself.
use vstd::prelude::*;
use crate::error::DecodeError;
use crate::reader::{
    outcome, read_cstring, read_exact, read_u32_bounded, read_u8, spec_read_cstring,
    spec_read_exact, spec_read_u32_bounded, spec_read_u8,
};
use crate::scope::{decode_scope, scope_of_byte, FunctionScope};
use crate::symbol_type::{decode_symbol_type, symbol_type_of, SymbolType};

verus! {

/// A decoded symbol in the abstract: its name without the terminator.
pub struct SymbolModel {
    pub name: Seq<u8>,
    pub scope: FunctionScope,
    pub symbol_type: SymbolType,
}

/// A decoded function in the abstract.
pub struct FunctionModel {
    pub name: Seq<u8>,
    pub pcode: Seq<u8>,
}

/// A decoded bundle in the abstract.
pub struct BundleModel {
    pub symbols: Seq<SymbolModel>,
    pub functions: Seq<FunctionModel>,
    pub startup_symbol: Option<nat>,
}

/// A symbol whose name borrows from the input buffer.
pub struct Symbol<'a> {
    pub name: &'a [u8],
    pub scope: FunctionScope,
    pub symbol_type: SymbolType,
}

/// A function whose name and pcode borrow from the input buffer.
pub struct Function<'a> {
    pub name: &'a [u8],
    pub pcode: &'a [u8],
}

/// A decoded bundle; every name and pcode body borrows from the input buffer.
pub struct HrbBody<'a> {
    pub symbols: Vec<Symbol<'a>>,
    pub functions: Vec<Function<'a>>,
    pub startup_symbol: Option<usize>,
}

impl<'a> View for Symbol<'a> {
    type V = SymbolModel;

    open spec fn view(&self) -> SymbolModel {
        SymbolModel { name: self.name@, scope: self.scope, symbol_type: self.symbol_type }
    }
}

impl<'a> View for Function<'a> {
    type V = FunctionModel;

    open spec fn view(&self) -> FunctionModel {
        FunctionModel { name: self.name@, pcode: self.pcode@ }
    }
}

/// The abstract symbols of a sequence of decoded ones.
pub open spec fn symbols_view<'a>(v: Seq<Symbol<'a>>) -> Seq<SymbolModel> {
    v.map_values(|x: Symbol<'a>| x@)
}

/// The abstract functions of a sequence of decoded ones.
pub open spec fn functions_view<'a>(v: Seq<Function<'a>>) -> Seq<FunctionModel> {
    v.map_values(|x: Function<'a>| x@)
}

/// The optional index as a natural number.
pub open spec fn index_view(i: Option<usize>) -> Option<nat> {
    match i {
        Some(k) => Some(k as nat),
        None => None,
    }
}

impl<'a> View for HrbBody<'a> {
    type V = BundleModel;

    open spec fn view(&self) -> BundleModel {
        BundleModel {
            symbols: symbols_view(self.symbols@),
            functions: functions_view(self.functions@),
            startup_symbol: index_view(self.startup_symbol),
        }
    }
}

/// The magic tag that opens every bundle.
pub open spec fn magic() -> Seq<u8> {
    seq![0xC0u8, 0x48u8, 0x52u8, 0x42u8]
}

/// One symbol record at `pos`: name, attribute byte, link-kind byte.
pub open spec fn spec_symbol(s: Seq<u8>, pos: nat) -> Result<(SymbolModel, nat), DecodeError> {
    match spec_read_cstring(s, pos) {
        Err(e) => Err(e),
        Ok((name, p1)) => match spec_read_u8(s, p1) {
            Err(e) => Err(e),
            Ok((attr, p2)) => match spec_read_u8(s, p2) {
                Err(e) => Err(e),
                Ok((tag, p3)) => match symbol_type_of(tag) {
                    Err(e) => Err(e),
                    Ok(t) => Ok((SymbolModel { name, scope: scope_of_byte(attr), symbol_type: t }, p3)),
                },
            },
        },
    }
}

/// `n` symbol records in a row from `pos`.
pub open spec fn spec_symbols(s: Seq<u8>, pos: nat, n: nat) -> Result<(Seq<SymbolModel>, nat), DecodeError>
    decreases n,
{
    if n == 0 {
        Ok((Seq::empty(), pos))
    } else {
        match spec_symbols(s, pos, (n - 1) as nat) {
            Err(e) => Err(e),
            Ok((syms, p)) => match spec_symbol(s, p) {
                Err(e) => Err(e),
                Ok((sym, q)) => Ok((syms.push(sym), q)),
            },
        }
    }
}

/// One function record at `pos`: name, pcode size, pcode.
pub open spec fn spec_function(s: Seq<u8>, pos: nat) -> Result<(FunctionModel, nat), DecodeError> {
    match spec_read_cstring(s, pos) {
        Err(e) => Err(e),
        Ok((name, p1)) => match spec_read_u32_bounded(s, p1) {
            Err(e) => Err(e),
            Ok((size, p2)) => match spec_read_exact(s, p2, size) {
                Err(e) => Err(e),
                Ok((pcode, p3)) => Ok((FunctionModel { name, pcode }, p3)),
            },
        },
    }
}

/// `n` function records in a row from `pos`.
pub open spec fn spec_functions(s: Seq<u8>, pos: nat, n: nat) -> Result<(Seq<FunctionModel>, nat), DecodeError>
    decreases n,
{
    if n == 0 {
        Ok((Seq::empty(), pos))
    } else {
        match spec_functions(s, pos, (n - 1) as nat) {
            Err(e) => Err(e),
            Ok((fns, p)) => match spec_function(s, p) {
                Err(e) => Err(e),
                Ok((f, q)) => Ok((fns.push(f), q)),
            },
        }
    }
}

/// The index of the first symbol whose scope marks the entry point.
pub open spec fn first_startup(syms: Seq<SymbolModel>) -> Option<nat>
    decreases syms.len(),
{
    if syms.len() == 0 {
        None
    } else {
        match first_startup(syms.drop_last()) {
            Some(i) => Some(i),
            None => if syms.last().scope.spec_is_startup() {
                Some((syms.len() - 1) as nat)
            } else {
                None
            },
        }
    }
}

/// `first_startup` is the least index whose scope marks the entry point, and
/// is absent only where no scope does.
pub proof fn lemma_first_startup(syms: Seq<SymbolModel>)
    ensures
        first_startup(syms) matches Some(i) ==> i < syms.len() && syms[i as int].scope.spec_is_startup()
            && forall|j: int| 0 <= j < i ==> !syms[j].scope.spec_is_startup(),
        first_startup(syms) is None ==> forall|j: int|
            0 <= j < syms.len() ==> !syms[j].scope.spec_is_startup(),
    decreases syms.len(),
{
    if syms.len() > 0 {
        let init = syms.drop_last();
        lemma_first_startup(init);
        assert forall|j: int| 0 <= j < init.len() implies init[j] == syms[j] by {}
    }
}

/// Header, symbol table and function table from the start of `s`, and where
/// they end.
pub open spec fn spec_body(s: Seq<u8>) -> Result<(BundleModel, nat), DecodeError> {
    match spec_read_exact(s, 0, 4) {
        Err(e) => Err(e),
        Ok((tag, p0)) => if tag != magic() {
            Err(DecodeError::BadMagic)
        } else {
            match spec_read_exact(s, p0, 2) {
                Err(e) => Err(e),
                Ok((_, p1)) => match spec_read_u32_bounded(s, p1) {
                    Err(e) => Err(e),
                    Ok((n, p2)) => if n == 0 {
                        Err(DecodeError::EmptySymbolTable)
                    } else {
                        match spec_symbols(s, p2, n) {
                            Err(e) => Err(e),
                            Ok((syms, p3)) => match spec_read_u32_bounded(s, p3) {
                                Err(e) => Err(e),
                                Ok((m, p4)) => match spec_functions(s, p4, m) {
                                    Err(e) => Err(e),
                                    Ok((fns, p5)) => Ok(
                                        (
                                            BundleModel {
                                                symbols: syms,
                                                functions: fns,
                                                startup_symbol: first_startup(syms),
                                            },
                                            p5,
                                        ),
                                    ),
                                },
                            },
                        }
                    },
                },
            }
        },
    }
}

/// What the bytes `s` decode to: a bundle that spans them exactly, or the first
/// failure.
pub open spec fn spec_decode(s: Seq<u8>) -> Result<BundleModel, DecodeError> {
    match spec_body(s) {
        Err(e) => Err(e),
        Ok((b, p)) => if p == s.len() {
            Ok(b)
        } else {
            Err(DecodeError::TrailingBytes)
        },
    }
}

/// Decodes one symbol record; on failure nothing of the record is kept.
pub fn decode_symbol<'a>(input: &'a [u8], pos: usize) -> (r: Result<(Symbol<'a>, usize), DecodeError>)
    requires
        pos <= input@.len(),
    ensures
        outcome(r) == spec_symbol(input@, pos as nat),
        r matches Ok((_, p)) ==> pos < p <= input@.len(),
{
    let (name, p1) = read_cstring(input, pos)?;
    let (attr, p2) = read_u8(input, p1)?;
    let (tag, p3) = read_u8(input, p2)?;
    let symbol_type = decode_symbol_type(tag)?;
    Ok((Symbol { name, scope: decode_scope(attr), symbol_type }, p3))
}

/// Decodes one function record; a declared size beyond the input fails.
pub fn decode_function<'a>(input: &'a [u8], pos: usize) -> (r: Result<(Function<'a>, usize), DecodeError>)
    requires
        pos <= input@.len(),
    ensures
        outcome(r) == spec_function(input@, pos as nat),
        r matches Ok((_, p)) ==> pos < p <= input@.len(),
{
    let (name, p1) = read_cstring(input, pos)?;
    let (size, p2) = read_u32_bounded(input, p1)?;
    let (pcode, p3) = read_exact(input, p2, size)?;
    Ok((Function { name, pcode }, p3))
}

/// Once a symbol table fails, a longer one fails with the same error.
proof fn lemma_symbols_err_persists(s: Seq<u8>, pos: nat, i: nat, n: nat, e: DecodeError)
    requires
        i <= n,
        spec_symbols(s, pos, i) == Err::<(Seq<SymbolModel>, nat), DecodeError>(e),
    ensures
        spec_symbols(s, pos, n) == Err::<(Seq<SymbolModel>, nat), DecodeError>(e),
    decreases n - i,
{
    if i < n {
        lemma_symbols_err_persists(s, pos, i, (n - 1) as nat, e);
    }
}

/// Once a function table fails, a longer one fails with the same error.
proof fn lemma_functions_err_persists(s: Seq<u8>, pos: nat, i: nat, n: nat, e: DecodeError)
    requires
        i <= n,
        spec_functions(s, pos, i) == Err::<(Seq<FunctionModel>, nat), DecodeError>(e),
    ensures
        spec_functions(s, pos, n) == Err::<(Seq<FunctionModel>, nat), DecodeError>(e),
    decreases n - i,
{
    if i < n {
        lemma_functions_err_persists(s, pos, i, (n - 1) as nat, e);
    }
}

/// Decodes `n` symbol records in a row, keeping their order.
pub fn decode_symbols<'a>(input: &'a [u8], pos: usize, n: usize) -> (r: Result<(Vec<Symbol<'a>>, usize), DecodeError>)
    requires
        pos <= input@.len(),
    ensures
        match r {
            Ok((v, p)) => spec_symbols(input@, pos as nat, n as nat) == Ok::<(Seq<SymbolModel>, nat), DecodeError>(
                (symbols_view(v@), p as nat),
            ),
            Err(e) => spec_symbols(input@, pos as nat, n as nat) == Err::<(Seq<SymbolModel>, nat), DecodeError>(e),
        },
        r matches Ok((_, p)) ==> pos <= p <= input@.len(),
{
    let mut symbols: Vec<Symbol<'a>> = Vec::new();
    let mut p: usize = pos;
    let mut i: usize = 0;
    assert(symbols_view(symbols@) =~= Seq::<SymbolModel>::empty());
    while i < n
        invariant
            pos <= p <= input@.len(),
            i <= n,
            spec_symbols(input@, pos as nat, i as nat) == Ok::<(Seq<SymbolModel>, nat), DecodeError>(
                (symbols_view(symbols@), p as nat),
            ),
        decreases n - i,
    {
        match decode_symbol(input, p) {
            Ok((sym, q)) => {
                proof {
                    assert(symbols_view(symbols@.push(sym)) =~= symbols_view(symbols@).push(sym@));
                }
                symbols.push(sym);
                p = q;
            },
            Err(e) => {
                proof {
                    lemma_symbols_err_persists(input@, pos as nat, (i + 1) as nat, n as nat, e);
                }
                return Err(e);
            },
        }
        i = i + 1;
    }
    Ok((symbols, p))
}

/// Decodes `n` function records in a row, keeping their order.
pub fn decode_functions<'a>(input: &'a [u8], pos: usize, n: usize) -> (r: Result<(Vec<Function<'a>>, usize), DecodeError>)
    requires
        pos <= input@.len(),
    ensures
        match r {
            Ok((v, p)) => spec_functions(input@, pos as nat, n as nat) == Ok::<(Seq<FunctionModel>, nat), DecodeError>(
                (functions_view(v@), p as nat),
            ),
            Err(e) => spec_functions(input@, pos as nat, n as nat) == Err::<(Seq<FunctionModel>, nat), DecodeError>(e),
        },
        r matches Ok((_, p)) ==> pos <= p <= input@.len(),
{
    let mut functions: Vec<Function<'a>> = Vec::new();
    let mut p: usize = pos;
    let mut i: usize = 0;
    assert(functions_view(functions@) =~= Seq::<FunctionModel>::empty());
    while i < n
        invariant
            pos <= p <= input@.len(),
            i <= n,
            spec_functions(input@, pos as nat, i as nat) == Ok::<(Seq<FunctionModel>, nat), DecodeError>(
                (functions_view(functions@), p as nat),
            ),
        decreases n - i,
    {
        match decode_function(input, p) {
            Ok((f, q)) => {
                proof {
                    assert(functions_view(functions@.push(f)) =~= functions_view(functions@).push(f@));
                }
                functions.push(f);
                p = q;
            },
            Err(e) => {
                proof {
                    lemma_functions_err_persists(input@, pos as nat, (i + 1) as nat, n as nat, e);
                }
                return Err(e);
            },
        }
        i = i + 1;
    }
    Ok((functions, p))
}

/// The index of the first symbol whose scope marks the program's entry point.
pub fn find_startup(symbols: &Vec<Symbol>) -> (r: Option<usize>)
    ensures
        index_view(r) == first_startup(symbols_view(symbols@)),
{
    let mut i: usize = 0;
    while i < symbols.len()
        invariant
            i <= symbols@.len(),
            first_startup(symbols_view(symbols@).take(i as int)) is None,
        decreases symbols@.len() - i,
    {
        proof {
            assert(symbols_view(symbols@).take(i + 1int).drop_last() =~= symbols_view(symbols@).take(i as int));
        }
        if symbols[i].scope.is_startup() {
            proof {
                assert(symbols_view(symbols@).take(i + 1int).last() == symbols@[i as int]@);
                lemma_first_startup_prefix(symbols_view(symbols@), (i + 1) as nat);
            }
            return Some(i);
        }
        i = i + 1;
    }
    proof {
        assert(symbols_view(symbols@).take(i as int) =~= symbols_view(symbols@));
    }
    None
}

/// A prefix that already holds an entry point decides the whole sequence.
proof fn lemma_first_startup_prefix(syms: Seq<SymbolModel>, k: nat)
    requires
        k <= syms.len(),
        first_startup(syms.take(k as int)) is Some,
    ensures
        first_startup(syms) == first_startup(syms.take(k as int)),
    decreases syms.len() - k,
{
    if k < syms.len() {
        assert(syms.take(k + 1int).drop_last() =~= syms.take(k as int));
        lemma_first_startup_prefix(syms, k + 1);
    } else {
        assert(syms.take(k as int) =~= syms);
    }
}

/// Decodes the header, the symbol table and the function table from the start
/// of `input`, and says where they end.
pub fn decode_body<'a>(input: &'a [u8]) -> (r: Result<(HrbBody<'a>, usize), DecodeError>)
    ensures
        outcome(r) == spec_body(input@),
        r matches Ok((_, p)) ==> p <= input@.len(),
{
    let (tag, p0) = read_exact(input, 0, 4)?;
    if !(tag[0] == 0xC0 && tag[1] == 0x48 && tag[2] == 0x52 && tag[3] == 0x42) {
        proof {
            if tag@ == magic() {
                assert(tag@[0] == 0xC0 && tag@[1] == 0x48 && tag@[2] == 0x52 && tag@[3] == 0x42);
            }
        }
        return Err(DecodeError::BadMagic);
    }
    assert(tag@ =~= magic());
    let (_version, p1) = read_exact(input, p0, 2)?;
    let (n, p2) = read_u32_bounded(input, p1)?;
    if n == 0 {
        return Err(DecodeError::EmptySymbolTable);
    }
    let (symbols, p3) = decode_symbols(input, p2, n)?;
    let startup_symbol = find_startup(&symbols);
    let (m, p4) = read_u32_bounded(input, p3)?;
    let (functions, p5) = decode_functions(input, p4, m)?;
    Ok((HrbBody { symbols, functions, startup_symbol }, p5))
}

/// Decodes a whole bundle: the input must be consumed exactly.
pub fn parse_hrb<'a>(input: &'a [u8]) -> (r: Result<HrbBody<'a>, DecodeError>)
    ensures
        match r {
            Ok(b) => spec_decode(input@) == Ok::<BundleModel, DecodeError>(b@),
            Err(e) => spec_decode(input@) == Err::<BundleModel, DecodeError>(e),
        },
{
    let (body, p) = decode_body(input)?;
    if p == input.len() {
        Ok(body)
    } else {
        Err(DecodeError::TrailingBytes)
    }
}

} // verus!
