//! Properties of the bundle format as a whole, stated over `spec_decode`,
//! which `load` computes exactly.
use vstd::prelude::*;
use crate::bundle::{
    magic, spec_body, spec_decode, spec_function, spec_functions, spec_symbol, spec_symbols,
    BundleModel, FunctionModel, SymbolModel,
};
use crate::bundle::first_startup;
use crate::error::DecodeError;
use crate::scope::{byte_of_scope, lemma_scope_flags_round_trip};
use crate::symbol_type::{symbol_type_of, tag_of};
use crate::reader::{
    first_zero, lemma_first_zero, spec_read_cstring, spec_read_exact, spec_read_u32_bounded,
    spec_read_u8, MAX_VALUE,
};

verus! {

/// The failures that a cut-short input can give.
pub open spec fn truncation_error(e: DecodeError) -> bool {
    e == DecodeError::UnexpectedEof || e == DecodeError::UnterminatedString
}

/// `t` holds the same bytes as `s` below `q`, as far as `t` reaches.
pub open spec fn agree_upto(s: Seq<u8>, t: Seq<u8>, q: nat) -> bool {
    forall|i: int| 0 <= i < q && i < t.len() ==> s[i] == t[i]
}

/// How a reader that succeeded on `s` fares on `t`: the same where `t` reaches
/// the field's end, a truncation failure where it stops short.
pub open spec fn local_outcome<V>(
    rs: Result<(V, nat), DecodeError>,
    rt: Result<(V, nat), DecodeError>,
    t_len: nat,
) -> bool {
    match rs {
        Ok((_, q)) => if t_len >= q {
            rt == rs
        } else {
            rt matches Err(e) && truncation_error(e)
        },
        Err(_) => true,
    }
}

proof fn lemma_u8_local(s: Seq<u8>, t: Seq<u8>, pos: nat)
    requires
        spec_read_u8(s, pos) matches Ok((_, q)) && agree_upto(s, t, q),
    ensures
        spec_read_u8(s, pos) matches Ok((_, q)) && pos < q <= s.len(),
        local_outcome(spec_read_u8(s, pos), spec_read_u8(t, pos), t.len()),
{
    if t.len() > pos {
        assert(s[pos as int] == t[pos as int]);
    }
}

proof fn lemma_exact_local(s: Seq<u8>, t: Seq<u8>, pos: nat, n: nat)
    requires
        spec_read_exact(s, pos, n) matches Ok((_, q)) && agree_upto(s, t, q),
    ensures
        spec_read_exact(s, pos, n) matches Ok((_, q)) && pos <= q <= s.len() && q == pos + n,
        local_outcome(spec_read_exact(s, pos, n), spec_read_exact(t, pos, n), t.len()),
{
    if t.len() >= pos + n {
        assert(t.subrange(pos as int, (pos + n) as int) =~= s.subrange(pos as int, (pos + n) as int));
    }
}

proof fn lemma_u32_local(s: Seq<u8>, t: Seq<u8>, pos: nat)
    requires
        spec_read_u32_bounded(s, pos) matches Ok((_, q)) && agree_upto(s, t, q),
    ensures
        spec_read_u32_bounded(s, pos) matches Ok((_, q)) && pos < q <= s.len(),
        local_outcome(spec_read_u32_bounded(s, pos), spec_read_u32_bounded(t, pos), t.len()),
{
    if t.len() >= pos + 4 {
        assert(s[pos as int] == t[pos as int]);
        assert(s[pos + 1int] == t[pos + 1int]);
        assert(s[pos + 2int] == t[pos + 2int]);
        assert(s[pos + 3int] == t[pos + 3int]);
    }
}

proof fn lemma_cstring_local(s: Seq<u8>, t: Seq<u8>, pos: nat)
    requires
        spec_read_cstring(s, pos) matches Ok((_, q)) && agree_upto(s, t, q),
    ensures
        spec_read_cstring(s, pos) matches Ok((_, q)) && pos < q <= s.len(),
        local_outcome(spec_read_cstring(s, pos), spec_read_cstring(t, pos), t.len()),
{
    lemma_first_zero(s, pos);
    lemma_first_zero(t, pos);
    let z = first_zero(s, pos)->Some_0;
    assert forall|i: int| pos <= i < z && i < t.len() implies t[i] != 0 by {
        assert(s[i] == t[i]);
    }
    if t.len() > z {
        assert(s[z as int] == t[z as int]);
        assert(t.subrange(pos as int, z as int) =~= s.subrange(pos as int, z as int));
    }
}

proof fn lemma_symbol_local(s: Seq<u8>, t: Seq<u8>, pos: nat)
    requires
        spec_symbol(s, pos) matches Ok((_, q)) && agree_upto(s, t, q),
    ensures
        spec_symbol(s, pos) matches Ok((_, q)) && pos < q <= s.len(),
        local_outcome(spec_symbol(s, pos), spec_symbol(t, pos), t.len()),
{
    let q1 = spec_read_cstring(s, pos)->Ok_0.1;
    let q2 = spec_read_u8(s, q1)->Ok_0.1;
    lemma_cstring_local(s, t, pos);
    lemma_u8_local(s, t, q1);
    lemma_u8_local(s, t, q2);
}

proof fn lemma_function_local(s: Seq<u8>, t: Seq<u8>, pos: nat)
    requires
        spec_function(s, pos) matches Ok((_, q)) && agree_upto(s, t, q),
    ensures
        spec_function(s, pos) matches Ok((_, q)) && pos < q <= s.len(),
        local_outcome(spec_function(s, pos), spec_function(t, pos), t.len()),
{
    let q1 = spec_read_cstring(s, pos)->Ok_0.1;
    let (size, q2) = spec_read_u32_bounded(s, q1)->Ok_0;
    lemma_cstring_local(s, t, pos);
    lemma_u32_local(s, t, q1);
    lemma_exact_local(s, t, q2, size);
}

proof fn lemma_symbols_local(s: Seq<u8>, t: Seq<u8>, pos: nat, n: nat)
    requires
        pos <= s.len(),
        pos <= t.len(),
        spec_symbols(s, pos, n) matches Ok((_, q)) && agree_upto(s, t, q),
    ensures
        spec_symbols(s, pos, n) matches Ok((_, q)) && pos <= q <= s.len(),
        local_outcome(spec_symbols(s, pos, n), spec_symbols(t, pos, n), t.len()),
    decreases n,
{
    if n > 0 {
        let p = spec_symbols(s, pos, (n - 1) as nat)->Ok_0.1;
        lemma_symbol_local(s, t, p);
        lemma_symbols_local(s, t, pos, (n - 1) as nat);
    }
}

proof fn lemma_functions_local(s: Seq<u8>, t: Seq<u8>, pos: nat, n: nat)
    requires
        pos <= s.len(),
        pos <= t.len(),
        spec_functions(s, pos, n) matches Ok((_, q)) && agree_upto(s, t, q),
    ensures
        spec_functions(s, pos, n) matches Ok((_, q)) && pos <= q <= s.len(),
        local_outcome(spec_functions(s, pos, n), spec_functions(t, pos, n), t.len()),
    decreases n,
{
    if n > 0 {
        let p = spec_functions(s, pos, (n - 1) as nat)->Ok_0.1;
        lemma_function_local(s, t, p);
        lemma_functions_local(s, t, pos, (n - 1) as nat);
    }
}

proof fn lemma_body_local(s: Seq<u8>, t: Seq<u8>)
    requires
        spec_body(s) matches Ok((_, q)) && agree_upto(s, t, q),
    ensures
        spec_body(s) matches Ok((_, q)) && q <= s.len(),
        local_outcome(spec_body(s), spec_body(t), t.len()),
{
    let (n, p2) = spec_read_u32_bounded(s, 6)->Ok_0;
    let p3 = spec_symbols(s, p2, n)->Ok_0.1;
    let (m, p4) = spec_read_u32_bounded(s, p3)->Ok_0;
    // The positions grow from field to field; `s` agrees with itself.
    lemma_u32_local(s, s, 6);
    lemma_symbols_local(s, s, p2, n);
    lemma_u32_local(s, s, p3);
    lemma_functions_local(s, s, p4, m);
    lemma_exact_local(s, t, 0, 4);
    lemma_exact_local(s, t, 4, 2);
    lemma_u32_local(s, t, 6);
    if t.len() >= p2 {
        lemma_symbols_local(s, t, p2, n);
        lemma_u32_local(s, t, p3);
        if t.len() >= p4 {
            lemma_functions_local(s, t, p4, m);
        }
    }
}

/// Cutting a well-formed bundle short at any point before its end fails with
/// `UnexpectedEof` or `UnterminatedString`, never with success.
pub proof fn lemma_truncated_bundle_fails(s: Seq<u8>, k: nat)
    requires
        spec_decode(s) is Ok,
        k < s.len(),
    ensures
        spec_decode(s.take(k as int)) matches Err(e) && truncation_error(e),
{
    lemma_body_local(s, s.take(k as int));
}

/// One more byte after a well-formed bundle makes it fail with `TrailingBytes`.
pub proof fn lemma_extra_byte_fails(s: Seq<u8>, x: u8)
    requires
        spec_decode(s) is Ok,
    ensures
        spec_decode(s.push(x)) == Err::<BundleModel, DecodeError>(DecodeError::TrailingBytes),
{
    lemma_body_local(s, s.push(x));
}

/// A symbol table declared with zero entries fails with `EmptySymbolTable`,
/// whatever the version bytes and whatever follows.
pub proof fn lemma_empty_symbol_table(v0: u8, v1: u8, rest: Seq<u8>)
    ensures
        spec_decode(magic() + seq![v0, v1, 0u8, 0u8, 0u8, 0u8] + rest)
            == Err::<BundleModel, DecodeError>(DecodeError::EmptySymbolTable),
{
    let s = magic() + seq![v0, v1, 0u8, 0u8, 0u8, 0u8] + rest;
    assert(s.subrange(0, 4) =~= magic());
}

/// A function record whose declared pcode size runs past the end of the
/// input fails with `UnexpectedEof`.
pub proof fn lemma_oversized_pcode(s: Seq<u8>, pos: nat)
    requires
        spec_read_cstring(s, pos) matches Ok((_, p1)) && spec_read_u32_bounded(s, p1) matches Ok(
            (size, p2),
        ) && p2 + size > s.len(),
    ensures
        spec_function(s, pos) == Err::<(FunctionModel, nat), DecodeError>(DecodeError::UnexpectedEof),
{
}

/// The four little-endian bytes of a value below 2^32.
pub open spec fn le_bytes(v: nat) -> Seq<u8> {
    seq![
        (v % 0x100) as u8,
        (v / 0x100 % 0x100) as u8,
        (v / 0x1_0000 % 0x100) as u8,
        (v / 0x100_0000 % 0x100) as u8,
    ]
}

/// The bytes of one symbol record.
pub open spec fn encode_symbol_record(sym: SymbolModel) -> Seq<u8> {
    sym.name + seq![0u8, byte_of_scope(sym.scope), tag_of(sym.symbol_type)]
}

/// The bytes of a run of symbol records.
pub open spec fn encode_symbol_records(syms: Seq<SymbolModel>) -> Seq<u8>
    decreases syms.len(),
{
    if syms.len() == 0 {
        Seq::empty()
    } else {
        encode_symbol_records(syms.drop_last()) + encode_symbol_record(syms.last())
    }
}

/// The bytes of one function record.
pub open spec fn encode_function_record(f: FunctionModel) -> Seq<u8> {
    f.name + seq![0u8] + le_bytes(f.pcode.len()) + f.pcode
}

/// The bytes of a run of function records.
pub open spec fn encode_function_records(fns: Seq<FunctionModel>) -> Seq<u8>
    decreases fns.len(),
{
    if fns.len() == 0 {
        Seq::empty()
    } else {
        encode_function_records(fns.drop_last()) + encode_function_record(fns.last())
    }
}

/// The bytes of a whole bundle, with the given version bytes.
pub open spec fn encode_bundle(b: BundleModel, v0: u8, v1: u8) -> Seq<u8> {
    magic() + seq![v0, v1] + le_bytes(b.symbols.len()) + encode_symbol_records(b.symbols) + le_bytes(
        b.functions.len(),
    ) + encode_function_records(b.functions)
}

/// A name that can be written: it holds no zero byte.
pub open spec fn valid_name(name: Seq<u8>) -> bool {
    forall|i: int| 0 <= i < name.len() ==> name[i] != 0
}

/// A bundle that the format can carry: at least one symbol, counts and sizes
/// within `MAX_VALUE`, names free of zero bytes, and the entry point the first
/// symbol that marks it.
pub open spec fn well_formed(b: BundleModel) -> bool {
    &&& 0 < b.symbols.len() <= MAX_VALUE
    &&& b.functions.len() <= MAX_VALUE
    &&& forall|i: int| 0 <= i < b.symbols.len() ==> valid_name(#[trigger] b.symbols[i].name)
    &&& forall|i: int|
        0 <= i < b.functions.len() ==> valid_name(#[trigger] b.functions[i].name)
            && b.functions[i].pcode.len() <= MAX_VALUE
    &&& b.startup_symbol == first_startup(b.symbols)
}

/// `c` stands in `s` from `pos` on.
pub open spec fn holds_at(s: Seq<u8>, pos: nat, c: Seq<u8>) -> bool {
    pos + c.len() <= s.len() && s.subrange(pos as int, (pos + c.len()) as int) == c
}

proof fn lemma_holds_split(s: Seq<u8>, pos: nat, a: Seq<u8>, b: Seq<u8>)
    requires
        holds_at(s, pos, a + b),
    ensures
        holds_at(s, pos, a),
        holds_at(s, pos + a.len(), b),
{
    let ab = a + b;
    assert(s.subrange(pos as int, (pos + a.len()) as int) =~= ab.subrange(0, a.len() as int));
    assert(ab.subrange(0, a.len() as int) =~= a);
    assert(s.subrange((pos + a.len()) as int, (pos + a.len() + b.len()) as int) =~= ab.subrange(
        a.len() as int,
        ab.len() as int,
    ));
    assert(ab.subrange(a.len() as int, ab.len() as int) =~= b);
}

proof fn lemma_le_bytes(s: Seq<u8>, pos: nat, v: nat)
    requires
        v <= MAX_VALUE,
        holds_at(s, pos, le_bytes(v)),
    ensures
        spec_read_u32_bounded(s, pos) == Ok::<(nat, nat), DecodeError>((v, pos + 4)),
{
    let c = le_bytes(v);
    assert(s[pos as int] == c[0]);
    assert(s[pos + 1int] == c[1]);
    assert(s[pos + 2int] == c[2]);
    assert(s[pos + 3int] == c[3]);
    assert(v == v % 0x100 + 0x100 * (v / 0x100 % 0x100) + 0x1_0000 * (v / 0x1_0000 % 0x100) + 0x100_0000 * (v
        / 0x100_0000 % 0x100)) by (nonlinear_arith)
        requires
            v <= MAX_VALUE,
    ;
}

proof fn lemma_name_at(s: Seq<u8>, pos: nat, name: Seq<u8>, rest: Seq<u8>)
    requires
        valid_name(name),
        holds_at(s, pos, name + seq![0u8] + rest),
    ensures
        spec_read_cstring(s, pos) == Ok::<(Seq<u8>, nat), DecodeError>((name, pos + name.len() + 1)),
{
    lemma_holds_split(s, pos, name + seq![0u8], rest);
    lemma_holds_split(s, pos, name, seq![0u8]);
    lemma_first_zero(s, pos);
    let z = pos + name.len();
    assert(s[z as int] == 0) by {
        assert(s.subrange(z as int, z + 1int)[0] == s[z as int]);
    }
    assert forall|i: int| pos <= i < z implies s[i] != 0 by {
        assert(s[i] == s.subrange(pos as int, z as int)[i - pos]);
    }
}

proof fn lemma_symbol_at(s: Seq<u8>, pos: nat, sym: SymbolModel)
    requires
        valid_name(sym.name),
        holds_at(s, pos, encode_symbol_record(sym)),
    ensures
        spec_symbol(s, pos) == Ok::<(SymbolModel, nat), DecodeError>(
            (sym, pos + encode_symbol_record(sym).len()),
        ),
{
    let tail = seq![byte_of_scope(sym.scope), tag_of(sym.symbol_type)];
    assert(encode_symbol_record(sym) =~= sym.name + seq![0u8] + tail);
    lemma_name_at(s, pos, sym.name, tail);
    lemma_holds_split(s, pos, sym.name + seq![0u8], tail);
    let p1 = pos + sym.name.len() + 1;
    assert(s[p1 as int] == tail[0]);
    assert(s[p1 + 1int] == tail[1]);
    lemma_scope_flags_round_trip(sym.scope);
    assert(symbol_type_of(tag_of(sym.symbol_type)) == Ok::<_, DecodeError>(sym.symbol_type));
}

proof fn lemma_symbols_at(s: Seq<u8>, pos: nat, syms: Seq<SymbolModel>)
    requires
        forall|i: int| 0 <= i < syms.len() ==> valid_name(#[trigger] syms[i].name),
        holds_at(s, pos, encode_symbol_records(syms)),
    ensures
        spec_symbols(s, pos, syms.len()) == Ok::<(Seq<SymbolModel>, nat), DecodeError>(
            (syms, pos + encode_symbol_records(syms).len()),
        ),
    decreases syms.len(),
{
    if syms.len() > 0 {
        let init = syms.drop_last();
        lemma_holds_split(s, pos, encode_symbol_records(init), encode_symbol_record(syms.last()));
        assert forall|i: int| 0 <= i < init.len() implies valid_name(#[trigger] init[i].name) by {
            assert(init[i] == syms[i]);
        }
        lemma_symbols_at(s, pos, init);
        lemma_symbol_at(s, pos + encode_symbol_records(init).len(), syms.last());
        assert(init.push(syms.last()) =~= syms);
    } else {
        assert(syms =~= Seq::<SymbolModel>::empty());
    }
}

proof fn lemma_function_at(s: Seq<u8>, pos: nat, f: FunctionModel)
    requires
        valid_name(f.name),
        f.pcode.len() <= MAX_VALUE,
        holds_at(s, pos, encode_function_record(f)),
    ensures
        spec_function(s, pos) == Ok::<(FunctionModel, nat), DecodeError>(
            (f, pos + encode_function_record(f).len()),
        ),
{
    let tail = le_bytes(f.pcode.len()) + f.pcode;
    assert(encode_function_record(f) =~= f.name + seq![0u8] + tail);
    lemma_name_at(s, pos, f.name, tail);
    lemma_holds_split(s, pos, f.name + seq![0u8], tail);
    let p1 = pos + f.name.len() + 1;
    lemma_holds_split(s, p1, le_bytes(f.pcode.len()), f.pcode);
    lemma_le_bytes(s, p1, f.pcode.len());
}

proof fn lemma_functions_at(s: Seq<u8>, pos: nat, fns: Seq<FunctionModel>)
    requires
        forall|i: int|
            0 <= i < fns.len() ==> valid_name(#[trigger] fns[i].name) && fns[i].pcode.len() <= MAX_VALUE,
        holds_at(s, pos, encode_function_records(fns)),
    ensures
        spec_functions(s, pos, fns.len()) == Ok::<(Seq<FunctionModel>, nat), DecodeError>(
            (fns, pos + encode_function_records(fns).len()),
        ),
    decreases fns.len(),
{
    if fns.len() > 0 {
        let init = fns.drop_last();
        lemma_holds_split(s, pos, encode_function_records(init), encode_function_record(fns.last()));
        assert forall|i: int| 0 <= i < init.len() implies valid_name(#[trigger] init[i].name)
            && init[i].pcode.len() <= MAX_VALUE by {
            assert(init[i] == fns[i]);
        }
        lemma_functions_at(s, pos, init);
        lemma_function_at(s, pos + encode_function_records(init).len(), fns.last());
        assert(init.push(fns.last()) =~= fns);
    } else {
        assert(fns =~= Seq::<FunctionModel>::empty());
    }
}

/// Decoding the bytes of a well-formed bundle, whatever its version bytes,
/// gives back that bundle.
#[verifier::rlimit(50)]
pub proof fn lemma_decode_encode(b: BundleModel, v0: u8, v1: u8)
    requires
        well_formed(b),
    ensures
        spec_decode(encode_bundle(b, v0, v1)) == Ok::<BundleModel, DecodeError>(b),
{
    let s = encode_bundle(b, v0, v1);
    let h = magic() + seq![v0, v1];
    let n_bytes = le_bytes(b.symbols.len());
    let syms = encode_symbol_records(b.symbols);
    let m_bytes = le_bytes(b.functions.len());
    let fns = encode_function_records(b.functions);
    assert(s.subrange(0, s.len() as int) =~= s);
    lemma_holds_split(s, 0, h + n_bytes + syms + m_bytes, fns);
    lemma_holds_split(s, 0, h + n_bytes + syms, m_bytes);
    lemma_holds_split(s, 0, h + n_bytes, syms);
    lemma_holds_split(s, 0, h, n_bytes);
    lemma_holds_split(s, 0, magic(), seq![v0, v1]);
    assert(s.subrange(0, 4) =~= magic());
    assert(spec_read_exact(s, 0, 4) == Ok::<(Seq<u8>, nat), DecodeError>((magic(), 4)));
    assert(spec_read_exact(s, 4, 2) is Ok);
    lemma_le_bytes(s, 6, b.symbols.len());
    lemma_symbols_at(s, 10, b.symbols);
    let p3 = 10 + syms.len();
    lemma_le_bytes(s, p3, b.functions.len());
    lemma_functions_at(s, p3 + 4, b.functions);
    assert(p3 + 4 + fns.len() == s.len());
}

} // verus!
