use hrb::{
    decode_scope, decode_symbol_type, encode_scope, encode_symbol_type, load, parse_hrb, DecodeError,
    FunctionScope, HrbBody, SymbolType,
};

const MAGIC: [u8; 4] = [0xC0, b'H', b'R', b'B'];

fn le(v: u32) -> [u8; 4] {
    v.to_le_bytes()
}

/// Header with the given version bytes and symbol count.
fn header(version: [u8; 2], count: u32) -> Vec<u8> {
    let mut v = MAGIC.to_vec();
    v.extend_from_slice(&version);
    v.extend_from_slice(&le(count));
    v
}

fn symbol(v: &mut Vec<u8>, name: &[u8], scope: u8, tag: u8) {
    v.extend_from_slice(name);
    v.push(0);
    v.push(scope);
    v.push(tag);
}

fn function(v: &mut Vec<u8>, name: &[u8], pcode: &[u8]) {
    v.extend_from_slice(name);
    v.push(0);
    v.extend_from_slice(&le(pcode.len() as u32));
    v.extend_from_slice(pcode);
}

/// One symbol `Main` with the given scope and tag, and no functions.
fn single_symbol(scope: u8, tag: u8) -> Vec<u8> {
    let mut v = header([0x02, 0x00], 1);
    symbol(&mut v, b"Main", scope, tag);
    v.extend_from_slice(&le(0));
    v
}

/// Three symbols and two functions; the entry point is the second symbol.
fn sample() -> Vec<u8> {
    let mut v = header([0x02, 0x00], 3);
    symbol(&mut v, b"HELPER", 0x01, 1);
    symbol(&mut v, b"MAIN", 0x1D, 1);
    symbol(&mut v, b"QOUT", 0x00, 2);
    v.extend_from_slice(&le(2));
    function(&mut v, b"HELPER", &[0x01, 0x02, 0x03]);
    function(&mut v, b"MAIN", &[0x07, 0x00, 0x09, 0x00]);
    v
}

fn err(bytes: &[u8]) -> DecodeError {
    match load(bytes) {
        Ok(_) => panic!("decoded unexpectedly"),
        Err(e) => e,
    }
}

#[test]
fn init_exit_without_first_is_not_startup() {
    let bytes = single_symbol(0x0C, 0);
    let body = load(&bytes).unwrap();
    assert_eq!(body.symbols.len(), 1);
    assert_eq!(body.symbols[0].name, b"Main");
    assert_eq!(body.symbols[0].symbol_type, SymbolType::NoLink);
    // 0x0C carries `first` and `init`, but not `exit`.
    assert!(body.symbols[0].scope.first);
    assert!(body.symbols[0].scope.init);
    assert!(!body.symbols[0].scope.exit);
    assert!(body.functions.is_empty());
    assert_eq!(body.startup_symbol, None);
}

#[test]
fn init_and_exit_set_but_not_first() {
    let bytes = single_symbol(0x18, 0);
    let body = load(&bytes).unwrap();
    assert!(body.symbols[0].scope.is_initexit());
    assert!(!body.symbols[0].scope.first);
    assert_eq!(body.startup_symbol, None);
}

#[test]
fn first_init_exit_is_startup() {
    let bytes = single_symbol(0x1C, 0);
    let body = load(&bytes).unwrap();
    assert_eq!(body.symbols.len(), 1);
    assert_eq!(body.startup_symbol, Some(0));
}

#[test]
fn sample_bundle_decodes() {
    let bytes = sample();
    let body: HrbBody = load(&bytes).unwrap();
    let names: Vec<&[u8]> = body.symbols.iter().map(|s| s.name).collect();
    assert_eq!(names, vec![&b"HELPER"[..], &b"MAIN"[..], &b"QOUT"[..]]);
    assert_eq!(body.symbols[0].symbol_type, SymbolType::Function);
    assert_eq!(body.symbols[2].symbol_type, SymbolType::External);
    assert!(body.symbols[0].scope.public);
    assert_eq!(body.startup_symbol, Some(1));
    assert_eq!(body.functions.len(), 2);
    assert_eq!(body.functions[0].name, b"HELPER");
    assert_eq!(body.functions[0].pcode, &[0x01, 0x02, 0x03]);
    assert_eq!(body.functions[1].name, b"MAIN");
    assert_eq!(body.functions[1].pcode, &[0x07, 0x00, 0x09, 0x00]);
}

#[test]
fn decoded_views_borrow_the_input() {
    let bytes = sample();
    let body = load(&bytes).unwrap();
    let range = bytes.as_ptr_range();
    assert!(range.contains(&body.symbols[1].name.as_ptr()));
    assert!(range.contains(&body.functions[1].pcode.as_ptr()));
}

#[test]
fn first_of_several_startup_symbols_wins() {
    let mut v = header([0, 0], 3);
    symbol(&mut v, b"A", 0x00, 0);
    symbol(&mut v, b"B", 0x1C, 1);
    symbol(&mut v, b"C", 0xFF, 1);
    v.extend_from_slice(&le(0));
    assert_eq!(load(&v).unwrap().startup_symbol, Some(1));
}

#[test]
fn parse_hrb_agrees_with_load() {
    let bytes = sample();
    let a = parse_hrb(&bytes).unwrap();
    let b = load(&bytes).unwrap();
    assert_eq!(a.startup_symbol, b.startup_symbol);
    assert_eq!(a.symbols.len(), b.symbols.len());
    let mut bad = bytes.clone();
    bad.push(0);
    assert!(matches!(parse_hrb(&bad), Err(DecodeError::TrailingBytes)));
}

#[test]
fn version_bytes_are_not_checked() {
    let mut bytes = sample();
    bytes[4] = 0xFF;
    bytes[5] = 0xEE;
    assert_eq!(load(&bytes).unwrap().startup_symbol, Some(1));
}

#[test]
fn every_truncation_fails_with_eof_or_unterminated() {
    let bytes = sample();
    for k in 0..bytes.len() {
        let e = err(&bytes[..k]);
        assert!(
            e == DecodeError::UnexpectedEof || e == DecodeError::UnterminatedString,
            "prefix of {} bytes gave {:?}",
            k,
            e
        );
    }
}

#[test]
fn truncation_inside_a_name_is_unterminated() {
    let bytes = single_symbol(0x1C, 0);
    assert_eq!(err(&bytes[..12]), DecodeError::UnterminatedString);
    assert_eq!(err(&bytes[..8]), DecodeError::UnexpectedEof);
}

#[test]
fn trailing_byte_is_refused() {
    for x in [0u8, 1, 0xFF] {
        let mut bytes = sample();
        bytes.push(x);
        assert_eq!(err(&bytes), DecodeError::TrailingBytes);
    }
}

#[test]
fn empty_symbol_table_is_refused() {
    let mut bytes = header([1, 2], 0);
    assert_eq!(err(&bytes), DecodeError::EmptySymbolTable);
    bytes.extend_from_slice(&[0xAB; 17]);
    assert_eq!(err(&bytes), DecodeError::EmptySymbolTable);
}

#[test]
fn oversized_pcode_is_eof() {
    let mut v = header([0, 0], 1);
    symbol(&mut v, b"Main", 0x1C, 1);
    v.extend_from_slice(&le(1));
    v.extend_from_slice(b"Main\0");
    v.extend_from_slice(&le(10));
    v.extend_from_slice(&[1, 2, 3]);
    assert_eq!(err(&v), DecodeError::UnexpectedEof);
}

#[test]
fn bad_magic_is_refused() {
    let mut bytes = sample();
    bytes[0] = 0xC1;
    assert_eq!(err(&bytes), DecodeError::BadMagic);
    assert_eq!(err(b"HRB!\x00\x00"), DecodeError::BadMagic);
}

#[test]
fn count_above_ceiling_is_out_of_range() {
    let bytes = header([0, 0], 0x0100_0000);
    assert_eq!(err(&bytes), DecodeError::ValueOutOfRange);
    let mut v = header([0, 0], 1);
    symbol(&mut v, b"Main", 0, 0);
    v.extend_from_slice(&le(0xFFFF_FFFF));
    assert_eq!(err(&v), DecodeError::ValueOutOfRange);
    let mut w = header([0, 0], 1);
    symbol(&mut w, b"Main", 0, 0);
    w.extend_from_slice(&le(1));
    w.extend_from_slice(b"F\0");
    w.extend_from_slice(&le(0x0100_0000));
    assert_eq!(err(&w), DecodeError::ValueOutOfRange);
}

#[test]
fn ceiling_itself_is_accepted_as_a_size() {
    let mut v = header([0, 0], 1);
    symbol(&mut v, b"Main", 0, 0);
    v.extend_from_slice(&le(1));
    v.extend_from_slice(b"F\0");
    v.extend_from_slice(&le(0x00FF_FFFF));
    // The size passes the ceiling check and then runs past the input.
    assert_eq!(err(&v), DecodeError::UnexpectedEof);
}

#[test]
fn invalid_symbol_type_is_refused() {
    let bytes = single_symbol(0x1C, 4);
    assert_eq!(err(&bytes), DecodeError::InvalidSymbolType(4));
    let bytes = single_symbol(0x00, 0xFF);
    assert_eq!(err(&bytes), DecodeError::InvalidSymbolType(0xFF));
}

#[test]
fn empty_input_is_eof() {
    assert_eq!(err(&[]), DecodeError::UnexpectedEof);
    assert_eq!(err(&MAGIC), DecodeError::UnexpectedEof);
}

#[test]
fn empty_names_are_allowed() {
    let mut v = header([0, 0], 1);
    symbol(&mut v, b"", 0x04, 3);
    v.extend_from_slice(&le(1));
    function(&mut v, b"", &[]);
    let body = load(&v).unwrap();
    assert!(body.symbols[0].name.is_empty());
    assert_eq!(body.symbols[0].symbol_type, SymbolType::Deferred);
    assert!(body.functions[0].pcode.is_empty());
}

#[test]
fn scope_round_trip_over_every_byte() {
    for x in 0..=255u8 {
        assert_eq!(encode_scope(decode_scope(x)), x & 0xBF);
        let s = decode_scope(x);
        assert_eq!(decode_scope(encode_scope(s)), s);
        assert_eq!(FunctionScope::from(x), s);
    }
}

#[test]
fn scope_bits_map_to_flags() {
    let s = decode_scope(0x01);
    assert!(s.public && !s.is_static && !s.first);
    assert!(decode_scope(0x02).is_static);
    assert!(decode_scope(0x04).first);
    assert!(decode_scope(0x08).init);
    assert!(decode_scope(0x10).exit);
    assert!(decode_scope(0x20).message);
    assert!(decode_scope(0x80).memvar);
    assert_eq!(decode_scope(0x40), FunctionScope::default());
    let all = FunctionScope {
        public: true,
        is_static: true,
        first: true,
        init: true,
        exit: true,
        message: true,
        memvar: true,
    };
    assert_eq!(encode_scope(all), 0xBF);
    assert!(all.is_initexit());
    assert!(all.is_startup());
    assert!(!decode_scope(0x0C).is_startup());
    assert!(decode_scope(0x1C).is_startup());
}

#[test]
fn symbol_type_tags() {
    let kinds = [SymbolType::NoLink, SymbolType::Function, SymbolType::External, SymbolType::Deferred];
    for x in 0..=3u8 {
        let t = decode_symbol_type(x).unwrap();
        assert_eq!(t, kinds[x as usize]);
        assert_eq!(encode_symbol_type(t), x);
    }
    for x in 4..=255u8 {
        assert_eq!(decode_symbol_type(x), Err(DecodeError::InvalidSymbolType(x)));
    }
}
