//! The chunk format as a grammar over byte sequences.
//!
//! Every reader here takes the whole buffer `s` and a position `p`, and yields
//! either an error or a value together with the number of bytes it consumed.
use vstd::prelude::*;

verus! {

/// Why a chunk was rejected.
#[derive(Debug, Clone, Copy, PartialEq, Eq, Structural)]
pub enum DecodeError {
    TruncatedHeader,
    BadSignature,
    BadVersion,
    BadFormat,
    BadEndianness,
    BadSizeofInt,
    BadSizeofSize,
    BadSizeofInstruction,
    BadSizeofNumber,
    NumberNotFloat,
    TruncatedStringLength,
    TruncatedStringContents,
    TruncatedFunctionHeader,
    TruncatedCode,
    TruncatedConstants,
    TruncatedBoolean,
    TruncatedNumber,
    InvalidConstantType(u8),
    TruncatedFunctions,
    TruncatedLineinfoSize,
    TruncatedLineinfo,
    TruncatedLocvarsSize,
    TruncatedLocvars,
    TruncatedUpvaluesSize,
    SizeOverflow,
    ExtraneousBytes(usize),
}

/// The abstract value of a constant; a number is kept as its IEEE-754 bits.
pub ghost enum ConstantModel {
    Nil,
    Boolean(bool),
    Number(u64),
    Str(Seq<char>),
}

pub ghost struct LocVarModel {
    pub varname: Seq<char>,
    pub startpc: u32,
    pub endpc: u32,
}

pub ghost struct FunctionModel {
    pub source: Seq<char>,
    pub line_defined: u32,
    pub last_line_defined: u32,
    pub nups: u8,
    pub num_params: u8,
    pub is_vararg: u8,
    pub maxstacksize: u8,
    pub code: Seq<u32>,
    pub constants: Seq<ConstantModel>,
    pub funs: Seq<FunctionModel>,
    pub lineinfo: Seq<u32>,
    pub locvars: Seq<LocVarModel>,
    pub upvalues: Seq<Seq<char>>,
}

/// The text that `String::from_utf8_lossy` makes of a byte sequence.
pub uninterp spec fn utf8_lossy(b: Seq<u8>) -> Seq<char>;

/// The header that every accepted chunk starts with.
pub open spec fn header() -> Seq<u8> {
    seq![0x1bu8, 0x4cu8, 0x75u8, 0x61u8, 0x51u8, 0x00u8, 0x01u8, 0x04u8, 0x08u8, 0x04u8, 0x08u8, 0x00u8]
}

/// Bytes left in `s` from position `p` on.
pub open spec fn remaining(s: Seq<u8>, p: int) -> nat {
    if p <= s.len() {
        (s.len() - p) as nat
    } else {
        0
    }
}

pub open spec fn le_u32(s: Seq<u8>, p: int) -> u32 {
    (s[p] as int + s[p + 1] as int * 0x100 + s[p + 2] as int * 0x1_0000 + s[p + 3] as int
        * 0x100_0000) as u32
}

pub open spec fn le_u64(s: Seq<u8>, p: int) -> u64 {
    (s[p] as int + s[p + 1] as int * 0x100 + s[p + 2] as int * 0x1_0000 + s[p + 3] as int
        * 0x100_0000 + s[p + 4] as int * 0x1_0000_0000 + s[p + 5] as int * 0x100_0000_0000
        + s[p + 6] as int * 0x1_0000_0000_0000 + s[p + 7] as int * 0x100_0000_0000_0000) as u64
}

/// `n` consecutive little-endian 32-bit words starting at `p`.
pub open spec fn u32_words(s: Seq<u8>, p: int, n: nat) -> Seq<u32> {
    Seq::new(n, |i: int| le_u32(s, p + 4 * i))
}

/// A string: a 64-bit length `n`, then `n` bytes of which the last is a terminator.
pub open spec fn parse_string(s: Seq<u8>, p: int) -> Result<(Seq<char>, nat), DecodeError> {
    if remaining(s, p) < 8 {
        Err(DecodeError::TruncatedStringLength)
    } else {
        let n = le_u64(s, p);
        if n > usize::MAX {
            Err(DecodeError::SizeOverflow)
        } else if remaining(s, p + 8) < n {
            Err(DecodeError::TruncatedStringContents)
        } else if n == 0 {
            Ok((Seq::empty(), 8))
        } else {
            Ok((utf8_lossy(s.subrange(p + 8, p + 8 + n - 1)), (8 + n) as nat))
        }
    }
}

/// One tagged constant.
pub open spec fn parse_constant(s: Seq<u8>, p: int) -> Result<(ConstantModel, nat), DecodeError> {
    if remaining(s, p) < 1 {
        Err(DecodeError::TruncatedConstants)
    } else {
        let tag = s[p];
        if tag == 0 {
            Ok((ConstantModel::Nil, 1))
        } else if tag == 1 {
            if remaining(s, p + 1) < 1 {
                Err(DecodeError::TruncatedBoolean)
            } else {
                Ok((ConstantModel::Boolean(s[p + 1] != 0), 2))
            }
        } else if tag == 3 {
            if remaining(s, p + 1) < 8 {
                Err(DecodeError::TruncatedNumber)
            } else {
                Ok((ConstantModel::Number(le_u64(s, p + 1)), 9))
            }
        } else if tag == 4 {
            match parse_string(s, p + 1) {
                Ok((t, c)) => Ok((ConstantModel::Str(t), c + 1)),
                Err(e) => Err(e),
            }
        } else {
            Err(DecodeError::InvalidConstantType(tag))
        }
    }
}

/// `n` constants in a row.
pub open spec fn parse_constants(s: Seq<u8>, p: int, n: nat) -> Result<
    (Seq<ConstantModel>, nat),
    DecodeError,
>
    decreases n,
{
    if n == 0 {
        Ok((Seq::empty(), 0))
    } else {
        match parse_constants(s, p, (n - 1) as nat) {
            Ok((cs, c)) => match parse_constant(s, p + c) {
                Ok((k, d)) => Ok((cs.push(k), c + d)),
                Err(e) => Err(e),
            },
            Err(e) => Err(e),
        }
    }
}

/// One local variable record.
pub open spec fn parse_locvar(s: Seq<u8>, p: int) -> Result<(LocVarModel, nat), DecodeError> {
    match parse_string(s, p) {
        Ok((name, c)) => if remaining(s, p + c) < 8 {
            Err(DecodeError::TruncatedLocvars)
        } else {
            Ok(
                (
                    LocVarModel {
                        varname: name,
                        startpc: le_u32(s, p + c),
                        endpc: le_u32(s, p + c + 4),
                    },
                    c + 8,
                ),
            )
        },
        Err(e) => Err(e),
    }
}

/// `n` local variable records in a row.
pub open spec fn parse_locvars(s: Seq<u8>, p: int, n: nat) -> Result<
    (Seq<LocVarModel>, nat),
    DecodeError,
>
    decreases n,
{
    if n == 0 {
        Ok((Seq::empty(), 0))
    } else {
        match parse_locvars(s, p, (n - 1) as nat) {
            Ok((vs, c)) => match parse_locvar(s, p + c) {
                Ok((v, d)) => Ok((vs.push(v), c + d)),
                Err(e) => Err(e),
            },
            Err(e) => Err(e),
        }
    }
}

/// `n` strings in a row.
pub open spec fn parse_strings(s: Seq<u8>, p: int, n: nat) -> Result<
    (Seq<Seq<char>>, nat),
    DecodeError,
>
    decreases n,
{
    if n == 0 {
        Ok((Seq::empty(), 0))
    } else {
        match parse_strings(s, p, (n - 1) as nat) {
            Ok((ts, c)) => match parse_string(s, p + c) {
                Ok((t, d)) => Ok((ts.push(t), c + d)),
                Err(e) => Err(e),
            },
            Err(e) => Err(e),
        }
    }
}

/// The debug tail of a prototype: line info, local variables, upvalue names.
pub open spec fn parse_debug(s: Seq<u8>, p: int) -> Result<
    (Seq<u32>, Seq<LocVarModel>, Seq<Seq<char>>, nat),
    DecodeError,
> {
    if remaining(s, p) < 4 {
        Err(DecodeError::TruncatedLineinfoSize)
    } else {
        let n = le_u32(s, p) as nat;
        if remaining(s, p + 4) < 4 * n {
            Err(DecodeError::TruncatedLineinfo)
        } else {
            let q = p + 4 + 4 * n;
            if remaining(s, q) < 4 {
                Err(DecodeError::TruncatedLocvarsSize)
            } else {
                match parse_locvars(s, q + 4, le_u32(s, q) as nat) {
                    Ok((locvars, c)) => {
                        let r = q + 4 + c;
                        if remaining(s, r) < 4 {
                            Err(DecodeError::TruncatedUpvaluesSize)
                        } else {
                            match parse_strings(s, r + 4, le_u32(s, r) as nat) {
                                Ok((upvalues, d)) => Ok(
                                    (
                                        u32_words(s, p + 4, n),
                                        locvars,
                                        upvalues,
                                        (4 + 4 * n + 4 + c + 4 + d) as nat,
                                    ),
                                ),
                                Err(e) => Err(e),
                            }
                        }
                    },
                    Err(e) => Err(e),
                }
            }
        }
    }
}

/// One function prototype, nested prototypes included.
pub open spec fn parse_function(s: Seq<u8>, p: int) -> Result<(FunctionModel, nat), DecodeError>
    decreases remaining(s, p), 0nat,
{
    match parse_string(s, p) {
        Ok((source, c0)) => {
            let q = p + c0;
            if remaining(s, q) < 16 {
                Err(DecodeError::TruncatedFunctionHeader)
            } else {
                let ncode = le_u32(s, q + 12) as nat;
                if remaining(s, q + 16) < 4 * ncode + 4 {
                    Err(DecodeError::TruncatedCode)
                } else {
                    let q1 = q + 16 + 4 * ncode;
                    match parse_constants(s, q1 + 4, le_u32(s, q1) as nat) {
                        Ok((constants, c1)) => {
                            let q2 = q1 + 4 + c1;
                            if remaining(s, q2) < 4 {
                                Err(DecodeError::TruncatedFunctions)
                            } else {
                                match parse_funs(s, q2 + 4, le_u32(s, q2) as nat) {
                                    Ok((funs, c2)) => match parse_debug(s, q2 + 4 + c2) {
                                        Ok((lineinfo, locvars, upvalues, c3)) => Ok(
                                            (
                                                FunctionModel {
                                                    source,
                                                    line_defined: le_u32(s, q),
                                                    last_line_defined: le_u32(s, q + 4),
                                                    nups: s[q + 8],
                                                    num_params: s[q + 9],
                                                    is_vararg: s[q + 10],
                                                    maxstacksize: s[q + 11],
                                                    code: u32_words(s, q + 16, ncode),
                                                    constants,
                                                    funs,
                                                    lineinfo,
                                                    locvars,
                                                    upvalues,
                                                },
                                                (c0 + 16 + 4 * ncode + 4 + c1 + 4 + c2 + c3) as nat,
                                            ),
                                        ),
                                        Err(e) => Err(e),
                                    },
                                    Err(e) => Err(e),
                                }
                            }
                        },
                        Err(e) => Err(e),
                    }
                }
            }
        },
        Err(e) => Err(e),
    }
}

/// `n` function prototypes in a row.
pub open spec fn parse_funs(s: Seq<u8>, p: int, n: nat) -> Result<
    (Seq<FunctionModel>, nat),
    DecodeError,
>
    decreases remaining(s, p), n,
{
    if n == 0 {
        Ok((Seq::empty(), 0))
    } else {
        match parse_funs(s, p, (n - 1) as nat) {
            Ok((fs, c)) => match parse_function(s, p + c) {
                Ok((f, d)) => Ok((fs.push(f), c + d)),
                Err(e) => Err(e),
            },
            Err(e) => Err(e),
        }
    }
}

/// The header check, in the order in which its fields are read.
pub open spec fn check_header(s: Seq<u8>) -> Option<DecodeError> {
    if s.len() < 12 {
        Some(DecodeError::TruncatedHeader)
    } else if s[0] != 0x1b || s[1] != 0x4c || s[2] != 0x75 || s[3] != 0x61 {
        Some(DecodeError::BadSignature)
    } else if s[4] != 0x51 {
        Some(DecodeError::BadVersion)
    } else if s[5] != 0 {
        Some(DecodeError::BadFormat)
    } else if s[6] != 1 {
        Some(DecodeError::BadEndianness)
    } else if s[7] != 4 {
        Some(DecodeError::BadSizeofInt)
    } else if s[8] != 8 {
        Some(DecodeError::BadSizeofSize)
    } else if s[9] != 4 {
        Some(DecodeError::BadSizeofInstruction)
    } else if s[10] != 8 {
        Some(DecodeError::BadSizeofNumber)
    } else if s[11] != 0 {
        Some(DecodeError::NumberNotFloat)
    } else {
        None
    }
}

/// A whole chunk: the header, one prototype, and nothing after it.
pub open spec fn parse_chunk(s: Seq<u8>) -> Result<FunctionModel, DecodeError> {
    match check_header(s) {
        Some(e) => Err(e),
        None => match parse_function(s, 12) {
            Ok((f, c)) => if 12 + c == s.len() {
                Ok(f)
            } else {
                Err(DecodeError::ExtraneousBytes((s.len() - 12 - c) as usize))
            },
            Err(e) => Err(e),
        },
    }
}

/// Once `m` constants fail to decode, so do any `n >= m`, with the same error.
pub proof fn lemma_constants_err(s: Seq<u8>, p: int, m: nat, n: nat)
    requires
        m <= n,
        parse_constants(s, p, m) is Err,
    ensures
        parse_constants(s, p, n) == parse_constants(s, p, m),
    decreases n,
{
    if n > m {
        lemma_constants_err(s, p, m, (n - 1) as nat);
    }
}

/// Once `m` local variable records fail to decode, so do any `n >= m`.
pub proof fn lemma_locvars_err(s: Seq<u8>, p: int, m: nat, n: nat)
    requires
        m <= n,
        parse_locvars(s, p, m) is Err,
    ensures
        parse_locvars(s, p, n) == parse_locvars(s, p, m),
    decreases n,
{
    if n > m {
        lemma_locvars_err(s, p, m, (n - 1) as nat);
    }
}

/// Once `m` strings fail to decode, so do any `n >= m`.
pub proof fn lemma_strings_err(s: Seq<u8>, p: int, m: nat, n: nat)
    requires
        m <= n,
        parse_strings(s, p, m) is Err,
    ensures
        parse_strings(s, p, n) == parse_strings(s, p, m),
    decreases n,
{
    if n > m {
        lemma_strings_err(s, p, m, (n - 1) as nat);
    }
}

/// Once `m` prototypes fail to decode, so do any `n >= m`.
pub proof fn lemma_funs_err(s: Seq<u8>, p: int, m: nat, n: nat)
    requires
        m <= n,
        parse_funs(s, p, m) is Err,
    ensures
        parse_funs(s, p, n) == parse_funs(s, p, m),
    decreases n,
{
    if n > m {
        lemma_funs_err(s, p, m, (n - 1) as nat);
    }
}

} // verus!
