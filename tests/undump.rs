use yellowmoon::format::DecodeError;
use yellowmoon::undump::{undump, Constant, Function, LocVar};

const RETURN42HELLO: &[u8] = b"\
\x1b\x4c\x75\x61\x51\x00\x01\x04\x08\x04\x08\x00\x09\x00\x00\x00\
\x00\x00\x00\x00\x40\x77\x61\x74\x2e\x6c\x75\x61\x00\x00\x00\x00\
\x00\x00\x00\x00\x00\x00\x00\x02\x02\x04\x00\x00\x00\x01\x00\x00\
\x00\x41\x40\x00\x00\x1e\x00\x80\x01\x1e\x00\x80\x00\x02\x00\x00\
\x00\x03\x00\x00\x00\x00\x00\x00\x45\x40\x04\x06\x00\x00\x00\x00\
\x00\x00\x00\x68\x65\x6c\x6c\x6f\x00\x00\x00\x00\x00\x04\x00\x00\
\x00\x01\x00\x00\x00\x01\x00\x00\x00\x01\x00\x00\x00\x01\x00\x00\
\x00\x00\x00\x00\x00\x00\x00\x00\x00";

/// Offsets of the two constants' tag bytes in the chunk above.
const TAGS: [usize; 2] = [65, 74];

fn expected() -> Function {
    Function {
        source: "@wat.lua".to_owned(),
        line_defined: 0,
        last_line_defined: 0,
        nups: 0,
        num_params: 0,
        is_vararg: 2,
        maxstacksize: 2,
        code: vec![1, 16449, 25165854, 8388638],
        constants: vec![
            Constant::Number(42.0f64.to_bits()),
            Constant::String("hello".to_owned()),
        ],
        funs: vec![],
        lineinfo: vec![1, 1, 1, 1],
        locvars: vec![],
        upvalues: vec![],
    }
}

fn is_truncation(e: DecodeError) -> bool {
    matches!(
        e,
        DecodeError::TruncatedHeader
            | DecodeError::TruncatedStringLength
            | DecodeError::TruncatedStringContents
            | DecodeError::TruncatedFunctionHeader
            | DecodeError::TruncatedCode
            | DecodeError::TruncatedConstants
            | DecodeError::TruncatedBoolean
            | DecodeError::TruncatedNumber
            | DecodeError::TruncatedFunctions
            | DecodeError::TruncatedLineinfoSize
            | DecodeError::TruncatedLineinfo
            | DecodeError::TruncatedLocvarsSize
            | DecodeError::TruncatedLocvars
            | DecodeError::TruncatedUpvaluesSize
    )
}

fn push_u32(b: &mut Vec<u8>, x: u32) {
    b.extend_from_slice(&x.to_le_bytes());
}

fn push_str(b: &mut Vec<u8>, s: &[u8]) {
    if s.is_empty() {
        b.extend_from_slice(&0u64.to_le_bytes());
    } else {
        b.extend_from_slice(&(s.len() as u64 + 1).to_le_bytes());
        b.extend_from_slice(s);
        b.push(0);
    }
}

/// A chunk whose top-level prototype holds one nested prototype, a local
/// variable, an upvalue name, and constants of every kind.
fn nested_chunk() -> Vec<u8> {
    let mut b = RETURN42HELLO[..12].to_vec();
    push_str(&mut b, b"@main.lua");
    push_u32(&mut b, 0);
    push_u32(&mut b, 0);
    b.extend_from_slice(&[0, 0, 2, 3]);
    push_u32(&mut b, 1);
    push_u32(&mut b, 0x0080001e);
    push_u32(&mut b, 3);
    b.push(0);
    b.push(1);
    b.push(1);
    b.push(4);
    push_str(&mut b, b"");
    push_u32(&mut b, 1);
    // the nested prototype
    push_str(&mut b, b"");
    push_u32(&mut b, 2);
    push_u32(&mut b, 4);
    b.extend_from_slice(&[1, 1, 0, 2]);
    push_u32(&mut b, 0);
    push_u32(&mut b, 0);
    push_u32(&mut b, 0);
    push_u32(&mut b, 0);
    push_u32(&mut b, 1);
    push_str(&mut b, b"x");
    push_u32(&mut b, 0);
    push_u32(&mut b, 3);
    push_u32(&mut b, 1);
    push_str(&mut b, b"up");
    // back in the top-level prototype
    push_u32(&mut b, 1);
    push_u32(&mut b, 7);
    push_u32(&mut b, 0);
    push_u32(&mut b, 0);
    b
}

#[test]
fn test() {
    assert_eq!(undump(RETURN42HELLO).unwrap(), expected())
}

#[test]
fn reference_chunk_is_consumed_whole() {
    let f = undump(RETURN42HELLO).unwrap();
    assert_eq!(f.code.len(), 4);
    assert_eq!(f.constants[0], Constant::Number(42.0f64.to_bits()));
}

#[test]
fn decoding_twice_gives_equal_trees() {
    assert_eq!(undump(RETURN42HELLO), undump(RETURN42HELLO));
    let b = nested_chunk();
    assert_eq!(undump(&b), undump(&b));
}

#[test]
fn one_trailing_byte_is_extraneous() {
    let mut b = RETURN42HELLO.to_vec();
    b.push(0);
    assert_eq!(undump(&b), Err(DecodeError::ExtraneousBytes(1)));
    let mut b = nested_chunk();
    b.extend_from_slice(&[9, 9, 9]);
    assert_eq!(undump(&b), Err(DecodeError::ExtraneousBytes(3)));
}

#[test]
fn every_strict_prefix_is_truncated() {
    for chunk in [RETURN42HELLO.to_vec(), nested_chunk()] {
        for k in 0..chunk.len() {
            let r = undump(&chunk[..k]);
            assert!(matches!(r, Err(e) if is_truncation(e)), "prefix {}: {:?}", k, r);
        }
    }
}

#[test]
fn short_header_is_truncated() {
    assert_eq!(undump(b""), Err(DecodeError::TruncatedHeader));
    assert_eq!(undump(&RETURN42HELLO[..11]), Err(DecodeError::TruncatedHeader));
}

#[test]
fn invalid_constant_tags_are_named() {
    for at in TAGS {
        for tag in [2u8, 5, 9, 0x80, 0xff] {
            let mut b = RETURN42HELLO.to_vec();
            b[at] = tag;
            assert_eq!(undump(&b), Err(DecodeError::InvalidConstantType(tag)));
        }
    }
}

#[test]
fn each_header_byte_is_checked() {
    let want = [
        DecodeError::BadSignature,
        DecodeError::BadSignature,
        DecodeError::BadSignature,
        DecodeError::BadSignature,
        DecodeError::BadVersion,
        DecodeError::BadFormat,
        DecodeError::BadEndianness,
        DecodeError::BadSizeofInt,
        DecodeError::BadSizeofSize,
        DecodeError::BadSizeofInstruction,
        DecodeError::BadSizeofNumber,
        DecodeError::NumberNotFloat,
    ];
    for (i, e) in want.iter().enumerate() {
        let mut b = RETURN42HELLO.to_vec();
        b[i] ^= 0x20;
        assert_eq!(undump(&b), Err(*e));
    }
}

#[test]
fn empty_string_decodes_to_empty_text() {
    let f = undump(&nested_chunk()).unwrap();
    assert_eq!(f.constants[2], Constant::String(String::new()));
    assert_eq!(f.funs[0].source, "");
}

#[test]
fn nested_prototypes_and_debug_records() {
    let f = undump(&nested_chunk()).unwrap();
    assert_eq!(f.source, "@main.lua");
    assert_eq!(f.constants[0], Constant::Nil);
    assert_eq!(f.constants[1], Constant::Boolean(true));
    assert_eq!(f.constants[2], Constant::String(String::new()));
    assert_eq!(f.funs.len(), 1);
    let g = &f.funs[0];
    assert_eq!((g.line_defined, g.last_line_defined), (2, 4));
    assert_eq!((g.nups, g.num_params, g.is_vararg, g.maxstacksize), (1, 1, 0, 2));
    assert_eq!(
        g.locvars,
        vec![LocVar { varname: "x".to_owned(), startpc: 0, endpc: 3 }]
    );
    assert_eq!(g.upvalues, vec!["up".to_owned()]);
    assert_eq!(f.lineinfo, vec![7]);
}

#[test]
fn invalid_utf8_is_replaced() {
    let mut b = RETURN42HELLO.to_vec();
    // first byte of "hello"
    b[83] = 0xff;
    let f = undump(&b).unwrap();
    assert_eq!(f.constants[1], Constant::String("\u{fffd}ello".to_owned()));
}

#[test]
fn huge_code_count_is_truncated() {
    let mut b = RETURN42HELLO.to_vec();
    b[41..45].copy_from_slice(&u32::MAX.to_le_bytes());
    assert_eq!(undump(&b), Err(DecodeError::TruncatedCode));
}

#[test]
fn huge_string_length_is_truncated() {
    let mut b = RETURN42HELLO.to_vec();
    b[12..20].copy_from_slice(&u64::MAX.to_le_bytes());
    let r = undump(&b);
    assert!(
        r == Err(DecodeError::TruncatedStringContents) || r == Err(DecodeError::SizeOverflow)
    );
}
