//! The decoder: executable types and readers, each proved against the grammar
//! in `format`.
use vstd::prelude::*;
use crate::format::{
    ConstantModel, DecodeError, FunctionModel, LocVarModel, le_u32, le_u64, lemma_constants_err,
    lemma_funs_err, lemma_locvars_err, lemma_strings_err, parse_constant, parse_constants,
    parse_chunk, parse_debug, parse_function, parse_funs, parse_locvar, parse_locvars, parse_string,
    parse_strings, u32_words, utf8_lossy,
};

verus! {

/// Relies on `String::from_utf8_lossy`: the text it makes depends on the bytes
/// alone (invalid sequences become U+FFFD, which is not stated here).
#[verifier::external_body]
fn lossy_text(b: &[u8]) -> (r: String)
    ensures
        r@ == utf8_lossy(b@),
{
    String::from_utf8_lossy(b).into_owned()
}

/// A constant of a prototype's pool; a number is held as its IEEE-754 bits.
#[derive(Debug, PartialEq)]
pub enum Constant {
    Nil,
    Boolean(bool),
    Number(u64),
    String(String),
}

impl View for Constant {
    type V = ConstantModel;

    open spec fn view(&self) -> ConstantModel {
        match self {
            Constant::Nil => ConstantModel::Nil,
            Constant::Boolean(b) => ConstantModel::Boolean(*b),
            Constant::Number(x) => ConstantModel::Number(*x),
            Constant::String(t) => ConstantModel::Str(t@),
        }
    }
}

/// Debug record of a local variable and its live range.
#[derive(Debug, PartialEq)]
pub struct LocVar {
    pub varname: String,
    pub startpc: u32,
    pub endpc: u32,
}

impl View for LocVar {
    type V = LocVarModel;

    open spec fn view(&self) -> LocVarModel {
        LocVarModel { varname: self.varname@, startpc: self.startpc, endpc: self.endpc }
    }
}

/// A compiled function prototype and the prototypes nested in it.
#[derive(Debug, PartialEq)]
pub struct Function {
    pub source: String,
    pub line_defined: u32,
    pub last_line_defined: u32,
    pub nups: u8,
    pub num_params: u8,
    pub is_vararg: u8,
    pub maxstacksize: u8,
    pub code: Vec<u32>,
    pub constants: Vec<Constant>,
    pub funs: Vec<Function>,
    pub lineinfo: Vec<u32>,
    pub locvars: Vec<LocVar>,
    pub upvalues: Vec<String>,
}

pub open spec fn function_view(f: Function) -> FunctionModel
    decreases f,
{
    FunctionModel {
        source: f.source@,
        line_defined: f.line_defined,
        last_line_defined: f.last_line_defined,
        nups: f.nups,
        num_params: f.num_params,
        is_vararg: f.is_vararg,
        maxstacksize: f.maxstacksize,
        code: f.code@,
        constants: f.constants@.map_values(|k: Constant| k@),
        funs: Seq::new(f.funs.len() as nat, |i: int| if 0 <= i < f.funs.len() { function_view(f.funs[i]) } else { arbitrary() }),
        lineinfo: f.lineinfo@,
        locvars: f.locvars@.map_values(|v: LocVar| v@),
        upvalues: f.upvalues@.map_values(|t: String| t@),
    }
}

impl View for Function {
    type V = FunctionModel;

    open spec fn view(&self) -> FunctionModel {
        function_view(*self)
    }
}

fn read_u32(data: &[u8], pos: usize) -> (r: u32)
    requires
        pos + 4 <= data@.len(),
    ensures
        r == le_u32(data@, pos as int),
{
    data[pos] as u32 + data[pos + 1] as u32 * 0x100 + data[pos + 2] as u32 * 0x1_0000
        + data[pos + 3] as u32 * 0x100_0000
}

fn read_u64(data: &[u8], pos: usize) -> (r: u64)
    requires
        pos + 8 <= data@.len(),
    ensures
        r == le_u64(data@, pos as int),
{
    data[pos] as u64 + data[pos + 1] as u64 * 0x100 + data[pos + 2] as u64 * 0x1_0000
        + data[pos + 3] as u64 * 0x100_0000 + data[pos + 4] as u64 * 0x1_0000_0000
        + data[pos + 5] as u64 * 0x100_0000_0000 + data[pos + 6] as u64 * 0x1_0000_0000_0000
        + data[pos + 7] as u64 * 0x100_0000_0000_0000
}

/// Reads a length-prefixed string at `pos`; yields it and the position after it.
fn get_string(data: &[u8], pos: usize) -> (r: Result<(String, usize), DecodeError>)
    requires
        pos <= data@.len(),
    ensures
        match parse_string(data@, pos as int) {
            Ok((t, c)) => r is Ok && r->Ok_0.0@ == t && r->Ok_0.1 == pos + c,
            Err(e) => r == Err::<(String, usize), DecodeError>(e),
        },
        r is Ok ==> r->Ok_0.1 <= data@.len(),
{
    if data.len() - pos < 8 {
        return Err(DecodeError::TruncatedStringLength);
    }
    let n = read_u64(data, pos);
    if n > usize::MAX as u64 {
        return Err(DecodeError::SizeOverflow);
    }
    let len = n as usize;
    let start = pos + 8;
    if data.len() - start < len {
        return Err(DecodeError::TruncatedStringContents);
    }
    if len == 0 {
        Ok((String::new(), start))
    } else {
        let text = lossy_text(&data[start..start + len - 1]);
        Ok((text, start + len))
    }
}

/// Reads one tagged constant at `pos`.
fn get_constant(data: &[u8], pos: usize) -> (r: Result<(Constant, usize), DecodeError>)
    requires
        pos <= data@.len(),
    ensures
        match parse_constant(data@, pos as int) {
            Ok((k, c)) => r is Ok && r->Ok_0.0@ == k && r->Ok_0.1 == pos + c,
            Err(e) => r == Err::<(Constant, usize), DecodeError>(e),
        },
        r is Ok ==> r->Ok_0.1 <= data@.len(),
{
    if data.len() - pos < 1 {
        return Err(DecodeError::TruncatedConstants);
    }
    let tag = data[pos];
    let at = pos + 1;
    if tag == 0 {
        Ok((Constant::Nil, at))
    } else if tag == 1 {
        if data.len() - at < 1 {
            return Err(DecodeError::TruncatedBoolean);
        }
        Ok((Constant::Boolean(data[at] != 0), at + 1))
    } else if tag == 3 {
        if data.len() - at < 8 {
            return Err(DecodeError::TruncatedNumber);
        }
        Ok((Constant::Number(read_u64(data, at)), at + 8))
    } else if tag == 4 {
        let (t, q) = get_string(data, at)?;
        Ok((Constant::String(t), q))
    } else {
        Err(DecodeError::InvalidConstantType(tag))
    }
}

/// Reads `n` constants starting at `pos`.
fn get_constants(data: &[u8], pos: usize, n: u32) -> (r: Result<(Vec<Constant>, usize), DecodeError>)
    requires
        pos <= data@.len(),
    ensures
        match parse_constants(data@, pos as int, n as nat) {
            Ok((ks, c)) => r is Ok && r->Ok_0.0@.map_values(|k: Constant| k@) == ks && r->Ok_0.1
                == pos + c,
            Err(e) => r == Err::<(Vec<Constant>, usize), DecodeError>(e),
        },
        r is Ok ==> r->Ok_0.1 <= data@.len(),
{
    let mut constants: Vec<Constant> = Vec::new();
    let mut cur = pos;
    let mut i: u32 = 0;
    assert(constants@.map_values(|k: Constant| k@) =~= Seq::empty());
    while i < n
        invariant
            pos <= cur <= data@.len(),
            i <= n,
            parse_constants(data@, pos as int, i as nat) == Ok::<_, DecodeError>(
                (constants@.map_values(|k: Constant| k@), (cur - pos) as nat),
            ),
        decreases n - i,
    {
        match get_constant(data, cur) {
            Ok((k, next)) => {
                let ghost before = constants@;
                constants.push(k);
                assert(constants@.map_values(|k: Constant| k@) =~= before.map_values(
                    |k: Constant| k@,
                ).push(k@));
                cur = next;
            },
            Err(e) => {
                proof {
                    lemma_constants_err(data@, pos as int, (i + 1) as nat, n as nat);
                }
                return Err(e);
            },
        }
        i += 1;
    }
    Ok((constants, cur))
}

/// Reads one local variable record at `pos`.
fn get_locvar(data: &[u8], pos: usize) -> (r: Result<(LocVar, usize), DecodeError>)
    requires
        pos <= data@.len(),
    ensures
        match parse_locvar(data@, pos as int) {
            Ok((v, c)) => r is Ok && r->Ok_0.0@ == v && r->Ok_0.1 == pos + c,
            Err(e) => r == Err::<(LocVar, usize), DecodeError>(e),
        },
        r is Ok ==> r->Ok_0.1 <= data@.len(),
{
    let (varname, q) = get_string(data, pos)?;
    if data.len() - q < 8 {
        return Err(DecodeError::TruncatedLocvars);
    }
    let startpc = read_u32(data, q);
    let endpc = read_u32(data, q + 4);
    Ok((LocVar { varname, startpc, endpc }, q + 8))
}

/// Reads `n` local variable records starting at `pos`.
fn get_locvars(data: &[u8], pos: usize, n: u32) -> (r: Result<(Vec<LocVar>, usize), DecodeError>)
    requires
        pos <= data@.len(),
    ensures
        match parse_locvars(data@, pos as int, n as nat) {
            Ok((vs, c)) => r is Ok && r->Ok_0.0@.map_values(|v: LocVar| v@) == vs && r->Ok_0.1
                == pos + c,
            Err(e) => r == Err::<(Vec<LocVar>, usize), DecodeError>(e),
        },
        r is Ok ==> r->Ok_0.1 <= data@.len(),
{
    let mut locvars: Vec<LocVar> = Vec::new();
    let mut cur = pos;
    let mut i: u32 = 0;
    assert(locvars@.map_values(|v: LocVar| v@) =~= Seq::empty());
    while i < n
        invariant
            pos <= cur <= data@.len(),
            i <= n,
            parse_locvars(data@, pos as int, i as nat) == Ok::<_, DecodeError>(
                (locvars@.map_values(|v: LocVar| v@), (cur - pos) as nat),
            ),
        decreases n - i,
    {
        match get_locvar(data, cur) {
            Ok((v, next)) => {
                let ghost before = locvars@;
                locvars.push(v);
                assert(locvars@.map_values(|v: LocVar| v@) =~= before.map_values(|v: LocVar| v@).push(
                    v@,
                ));
                cur = next;
            },
            Err(e) => {
                proof {
                    lemma_locvars_err(data@, pos as int, (i + 1) as nat, n as nat);
                }
                return Err(e);
            },
        }
        i += 1;
    }
    Ok((locvars, cur))
}

/// Reads `n` strings starting at `pos`.
fn get_strings(data: &[u8], pos: usize, n: u32) -> (r: Result<(Vec<String>, usize), DecodeError>)
    requires
        pos <= data@.len(),
    ensures
        match parse_strings(data@, pos as int, n as nat) {
            Ok((ts, c)) => r is Ok && r->Ok_0.0@.map_values(|t: String| t@) == ts && r->Ok_0.1
                == pos + c,
            Err(e) => r == Err::<(Vec<String>, usize), DecodeError>(e),
        },
        r is Ok ==> r->Ok_0.1 <= data@.len(),
{
    let mut texts: Vec<String> = Vec::new();
    let mut cur = pos;
    let mut i: u32 = 0;
    assert(texts@.map_values(|t: String| t@) =~= Seq::empty());
    while i < n
        invariant
            pos <= cur <= data@.len(),
            i <= n,
            parse_strings(data@, pos as int, i as nat) == Ok::<_, DecodeError>(
                (texts@.map_values(|t: String| t@), (cur - pos) as nat),
            ),
        decreases n - i,
    {
        match get_string(data, cur) {
            Ok((t, next)) => {
                let ghost before = texts@;
                texts.push(t);
                assert(texts@.map_values(|t: String| t@) =~= before.map_values(|t: String| t@).push(
                    t@,
                ));
                cur = next;
            },
            Err(e) => {
                proof {
                    lemma_strings_err(data@, pos as int, (i + 1) as nat, n as nat);
                }
                return Err(e);
            },
        }
        i += 1;
    }
    Ok((texts, cur))
}

/// Reads `n` little-endian words starting at `pos`.
fn get_words(data: &[u8], pos: usize, n: usize) -> (r: Vec<u32>)
    requires
        pos + 4 * n <= data@.len(),
    ensures
        r@ == u32_words(data@, pos as int, n as nat),
{
    let mut words: Vec<u32> = Vec::with_capacity(n);
    let total = data.len();
    let mut i: usize = 0;
    while i < n
        invariant
            total == data@.len(),
            pos + 4 * n <= data@.len(),
            i <= n,
            words@.len() == i,
            forall|j: int| 0 <= j < i ==> words@[j] == le_u32(data@, pos + 4 * j),
        decreases n - i,
    {
        words.push(read_u32(data, pos + 4 * i));
        i += 1;
    }
    assert(words@ =~= u32_words(data@, pos as int, n as nat));
    words
}

/// Reads the debug tail of a prototype at `pos`.
fn get_debug(data: &[u8], pos: usize) -> (r: Result<
    (Vec<u32>, Vec<LocVar>, Vec<String>, usize),
    DecodeError,
>)
    requires
        pos <= data@.len(),
    ensures
        match parse_debug(data@, pos as int) {
            Ok((li, lv, up, c)) => r is Ok && r->Ok_0.0@ == li && r->Ok_0.1@.map_values(
                |v: LocVar| v@,
            ) == lv && r->Ok_0.2@.map_values(|t: String| t@) == up && r->Ok_0.3 == pos + c,
            Err(e) => r == Err::<(Vec<u32>, Vec<LocVar>, Vec<String>, usize), DecodeError>(e),
        },
        r is Ok ==> r->Ok_0.3 <= data@.len(),
{
    if data.len() - pos < 4 {
        return Err(DecodeError::TruncatedLineinfoSize);
    }
    let nline = read_u32(data, pos) as usize;
    let start = pos + 4;
    if ((data.len() - start) as u64) < 4 * (nline as u64) {
        return Err(DecodeError::TruncatedLineinfo);
    }
    let lineinfo = get_words(data, start, nline);
    let q = start + 4 * nline;
    if data.len() - q < 4 {
        return Err(DecodeError::TruncatedLocvarsSize);
    }
    let nlocvars = read_u32(data, q);
    let (locvars, r) = get_locvars(data, q + 4, nlocvars)?;
    if data.len() - r < 4 {
        return Err(DecodeError::TruncatedUpvaluesSize);
    }
    let nupvalues = read_u32(data, r);
    let (upvalues, end) = get_strings(data, r + 4, nupvalues)?;
    Ok((lineinfo, locvars, upvalues, end))
}

/// Reads `n` function prototypes starting at `pos`.
fn get_funs(data: &[u8], pos: usize, n: u32) -> (r: Result<(Vec<Function>, usize), DecodeError>)
    requires
        pos <= data@.len(),
    ensures
        match parse_funs(data@, pos as int, n as nat) {
            Ok((fs, c)) => r is Ok && r->Ok_0.0@.map_values(|g: Function| g@) == fs && r->Ok_0.1
                == pos + c,
            Err(e) => r == Err::<(Vec<Function>, usize), DecodeError>(e),
        },
        r is Ok ==> r->Ok_0.1 <= data@.len(),
    decreases data@.len() - pos, 1nat,
{
    let mut funs: Vec<Function> = Vec::new();
    let mut cur = pos;
    let mut i: u32 = 0;
    assert(funs@.map_values(|g: Function| g@) =~= Seq::empty());
    while i < n
        invariant
            pos <= cur <= data@.len(),
            i <= n,
            parse_funs(data@, pos as int, i as nat) == Ok::<_, DecodeError>(
                (funs@.map_values(|g: Function| g@), (cur - pos) as nat),
            ),
        decreases n - i,
    {
        match get_function(data, cur) {
            Ok((g, next)) => {
                let ghost before = funs@;
                funs.push(g);
                assert(funs@.map_values(|g: Function| g@) =~= before.map_values(|g: Function| g@).push(
                    g@,
                ));
                cur = next;
            },
            Err(e) => {
                proof {
                    lemma_funs_err(data@, pos as int, (i + 1) as nat, n as nat);
                }
                return Err(e);
            },
        }
        i += 1;
    }
    Ok((funs, cur))
}

/// Reads one function prototype at `pos`, its nested prototypes included.
fn get_function(data: &[u8], pos: usize) -> (r: Result<(Function, usize), DecodeError>)
    requires
        pos <= data@.len(),
    ensures
        match parse_function(data@, pos as int) {
            Ok((f, c)) => r is Ok && r->Ok_0.0@ == f && r->Ok_0.1 == pos + c,
            Err(e) => r == Err::<(Function, usize), DecodeError>(e),
        },
        r is Ok ==> r->Ok_0.1 <= data@.len(),
    decreases data@.len() - pos, 0nat,
{
    let (source, q) = get_string(data, pos)?;
    if data.len() - q < 16 {
        return Err(DecodeError::TruncatedFunctionHeader);
    }
    let line_defined = read_u32(data, q);
    let last_line_defined = read_u32(data, q + 4);
    let nups = data[q + 8];
    let num_params = data[q + 9];
    let is_vararg = data[q + 10];
    let maxstacksize = data[q + 11];
    let ncode = read_u32(data, q + 12) as usize;
    let code_start = q + 16;
    if ((data.len() - code_start) as u64) < 4 * (ncode as u64) + 4 {
        return Err(DecodeError::TruncatedCode);
    }
    let code = get_words(data, code_start, ncode);
    let q1 = code_start + 4 * ncode;
    let nconstants = read_u32(data, q1);
    let (constants, q2) = get_constants(data, q1 + 4, nconstants)?;
    if data.len() - q2 < 4 {
        return Err(DecodeError::TruncatedFunctions);
    }
    let nfuns = read_u32(data, q2);
    let (funs, cur) = get_funs(data, q2 + 4, nfuns)?;
    let (lineinfo, locvars, upvalues, end) = get_debug(data, cur)?;
    let fun = Function {
        source,
        line_defined,
        last_line_defined,
        nups,
        num_params,
        is_vararg,
        maxstacksize,
        code,
        constants,
        funs,
        lineinfo,
        locvars,
        upvalues,
    };
    assert(fun@.funs =~= fun.funs@.map_values(|g: Function| g@));
    Ok((fun, end))
}

/// Whether `r` is what decoding the bytes `s` gives: the prototype tree when
/// the grammar accepts `s`, else the very error the grammar names.
pub open spec fn decodes_to(s: Seq<u8>, r: Result<Function, DecodeError>) -> bool {
    match parse_chunk(s) {
        Ok(f) => r is Ok && r->Ok_0@ == f,
        Err(e) => r == Err::<Function, DecodeError>(e),
    }
}

/// Decodes a whole chunk: the fixed header, one top-level prototype, and no
/// bytes after it.
pub fn undump(data: &[u8]) -> (r: Result<Function, DecodeError>)
    ensures
        decodes_to(data@, r),
{
    if data.len() < 12 {
        return Err(DecodeError::TruncatedHeader);
    }
    if data[0] != 0x1b || data[1] != 0x4c || data[2] != 0x75 || data[3] != 0x61 {
        return Err(DecodeError::BadSignature);
    }
    if data[4] != 0x51 {
        return Err(DecodeError::BadVersion);
    }
    if data[5] != 0 {
        return Err(DecodeError::BadFormat);
    }
    if data[6] != 1 {
        return Err(DecodeError::BadEndianness);
    }
    if data[7] != 4 {
        return Err(DecodeError::BadSizeofInt);
    }
    if data[8] != 8 {
        return Err(DecodeError::BadSizeofSize);
    }
    if data[9] != 4 {
        return Err(DecodeError::BadSizeofInstruction);
    }
    if data[10] != 8 {
        return Err(DecodeError::BadSizeofNumber);
    }
    if data[11] != 0 {
        return Err(DecodeError::NumberNotFloat);
    }
    let (fun, end) = get_function(data, 12)?;
    if end != data.len() {
        return Err(DecodeError::ExtraneousBytes(data.len() - end));
    }
    Ok(fun)
}

} // verus!
