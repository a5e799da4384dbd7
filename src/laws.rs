//! Properties of decoding that hold of every input.
use vstd::prelude::*;
use crate::format::{
    lemma_constants_err,
    ConstantModel, DecodeError, FunctionModel, check_header, header, le_u32, le_u64, parse_chunk, parse_constant,
    parse_constants, parse_debug, parse_function, parse_funs, parse_locvar, parse_locvars,
    parse_string, parse_strings, remaining, u32_words,
};
use crate::undump::{decodes_to, Function};

verus! {

/// Whether `e` says that the input ended before a field it needed.
pub open spec fn is_truncation(e: DecodeError) -> bool {
    match e {
        DecodeError::TruncatedHeader
        | DecodeError::TruncatedStringLength
        | DecodeError::TruncatedStringContents
        | DecodeError::TruncatedFunctionHeader
        | DecodeError::TruncatedCode
        | DecodeError::TruncatedConstants
        | DecodeError::TruncatedBoolean
        | DecodeError::TruncatedNumber
        | DecodeError::TruncatedFunctions
        | DecodeError::TruncatedLineinfoSize
        | DecodeError::TruncatedLineinfo
        | DecodeError::TruncatedLocvarsSize
        | DecodeError::TruncatedLocvars
        | DecodeError::TruncatedUpvaluesSize => true,
        _ => false,
    }
}

/// The error that a wrong byte at offset `i` of the header brings.
pub open spec fn header_field_error(i: int) -> DecodeError {
    if i < 4 {
        DecodeError::BadSignature
    } else if i == 4 {
        DecodeError::BadVersion
    } else if i == 5 {
        DecodeError::BadFormat
    } else if i == 6 {
        DecodeError::BadEndianness
    } else if i == 7 {
        DecodeError::BadSizeofInt
    } else if i == 8 {
        DecodeError::BadSizeofSize
    } else if i == 9 {
        DecodeError::BadSizeofInstruction
    } else if i == 10 {
        DecodeError::BadSizeofNumber
    } else {
        DecodeError::NumberNotFloat
    }
}

/// `s` and `t` hold the same bytes at every offset in `[lo, hi)` that both have.
pub open spec fn agree(s: Seq<u8>, t: Seq<u8>, lo: int, hi: int) -> bool {
    forall|i: int| lo <= i < hi && i < s.len() && i < t.len() ==> s[i] == t[i]
}

/// Where `r` read a value of `c` bytes at `p` in one buffer, `u` is what the
/// same reader gives at `p` in a buffer of length `len` that agrees on those
/// bytes it has: the same value if all `c` bytes are there, else a truncation.
pub open spec fn same_or_truncated<A>(
    r: Result<(A, nat), DecodeError>,
    u: Result<(A, nat), DecodeError>,
    p: int,
    len: int,
) -> bool {
    r is Ok ==> if p + r->Ok_0.1 <= len {
        u == r
    } else {
        u is Err && is_truncation(u->Err_0)
    }
}

proof fn lemma_string_prefix(s: Seq<u8>, t: Seq<u8>, p: int)
    requires
        parse_string(s, p) is Ok,
        0 <= p <= t.len(),
        agree(s, t, p, p + parse_string(s, p)->Ok_0.1),
    ensures
        p + parse_string(s, p)->Ok_0.1 <= s.len(),
        same_or_truncated(parse_string(s, p), parse_string(t, p), p, t.len() as int),
{
    if t.len() >= p + 8 {
        assert(le_u64(t, p) == le_u64(s, p));
        let n = le_u64(s, p);
        if n > 0 && t.len() >= p + 8 + n {
            assert(t.subrange(p + 8, p + 8 + n - 1) =~= s.subrange(p + 8, p + 8 + n - 1));
        }
    }
}

proof fn lemma_constant_prefix(s: Seq<u8>, t: Seq<u8>, p: int)
    requires
        parse_constant(s, p) is Ok,
        0 <= p <= t.len(),
        agree(s, t, p, p + parse_constant(s, p)->Ok_0.1),
    ensures
        p + parse_constant(s, p)->Ok_0.1 <= s.len(),
        same_or_truncated(parse_constant(s, p), parse_constant(t, p), p, t.len() as int),
{
    if t.len() >= p + 1 {
        assert(t[p] == s[p]);
        if s[p] == 3 && t.len() >= p + 9 {
            assert(le_u64(t, p + 1) == le_u64(s, p + 1));
        }
        if s[p] == 4 {
            lemma_string_prefix(s, t, p + 1);
        }
    }
}

proof fn lemma_constants_prefix(s: Seq<u8>, t: Seq<u8>, p: int, n: nat)
    requires
        parse_constants(s, p, n) is Ok,
        0 <= p <= t.len(),
        p <= s.len(),
        agree(s, t, p, p + parse_constants(s, p, n)->Ok_0.1),
    ensures
        p + parse_constants(s, p, n)->Ok_0.1 <= s.len(),
        same_or_truncated(parse_constants(s, p, n), parse_constants(t, p, n), p, t.len() as int),
    decreases n,
{
    if n > 0 {
        let m = (n - 1) as nat;
        lemma_constants_prefix(s, t, p, m);
        let c = parse_constants(s, p, m)->Ok_0.1;
        lemma_constant_prefix(s, s, p + c);
        if p + c <= t.len() {
            lemma_constant_prefix(s, t, p + c);
        }
    }
}

proof fn lemma_locvar_prefix(s: Seq<u8>, t: Seq<u8>, p: int)
    requires
        parse_locvar(s, p) is Ok,
        0 <= p <= t.len(),
        agree(s, t, p, p + parse_locvar(s, p)->Ok_0.1),
    ensures
        p + parse_locvar(s, p)->Ok_0.1 <= s.len(),
        same_or_truncated(parse_locvar(s, p), parse_locvar(t, p), p, t.len() as int),
{
    lemma_string_prefix(s, t, p);
    let c = parse_string(s, p)->Ok_0.1;
    if t.len() >= p + c + 8 {
        assert(le_u32(t, p + c) == le_u32(s, p + c));
        assert(le_u32(t, p + c + 4) == le_u32(s, p + c + 4));
    }
}

proof fn lemma_locvars_prefix(s: Seq<u8>, t: Seq<u8>, p: int, n: nat)
    requires
        parse_locvars(s, p, n) is Ok,
        0 <= p <= t.len(),
        p <= s.len(),
        agree(s, t, p, p + parse_locvars(s, p, n)->Ok_0.1),
    ensures
        p + parse_locvars(s, p, n)->Ok_0.1 <= s.len(),
        same_or_truncated(parse_locvars(s, p, n), parse_locvars(t, p, n), p, t.len() as int),
    decreases n,
{
    if n > 0 {
        let m = (n - 1) as nat;
        lemma_locvars_prefix(s, t, p, m);
        let c = parse_locvars(s, p, m)->Ok_0.1;
        lemma_locvar_prefix(s, s, p + c);
        if p + c <= t.len() {
            lemma_locvar_prefix(s, t, p + c);
        }
    }
}

proof fn lemma_strings_prefix(s: Seq<u8>, t: Seq<u8>, p: int, n: nat)
    requires
        parse_strings(s, p, n) is Ok,
        0 <= p <= t.len(),
        p <= s.len(),
        agree(s, t, p, p + parse_strings(s, p, n)->Ok_0.1),
    ensures
        p + parse_strings(s, p, n)->Ok_0.1 <= s.len(),
        same_or_truncated(parse_strings(s, p, n), parse_strings(t, p, n), p, t.len() as int),
    decreases n,
{
    if n > 0 {
        let m = (n - 1) as nat;
        lemma_strings_prefix(s, t, p, m);
        let c = parse_strings(s, p, m)->Ok_0.1;
        lemma_string_prefix(s, s, p + c);
        if p + c <= t.len() {
            lemma_string_prefix(s, t, p + c);
        }
    }
}

proof fn lemma_debug_prefix(s: Seq<u8>, t: Seq<u8>, p: int)
    requires
        parse_debug(s, p) is Ok,
        0 <= p <= t.len(),
        agree(s, t, p, p + parse_debug(s, p)->Ok_0.3),
    ensures
        p + parse_debug(s, p)->Ok_0.3 <= s.len(),
        p + parse_debug(s, p)->Ok_0.3 <= t.len() ==> parse_debug(t, p) == parse_debug(s, p),
        p + parse_debug(s, p)->Ok_0.3 > t.len() ==> parse_debug(t, p) is Err && is_truncation(
            parse_debug(t, p)->Err_0,
        ),
{
    let n = le_u32(s, p) as nat;
    let q = p + 4 + 4 * n;
    let nl = le_u32(s, q) as nat;
    lemma_locvars_prefix(s, s, q + 4, nl);
    let r = q + 4 + parse_locvars(s, q + 4, nl)->Ok_0.1;
    let nu = le_u32(s, r) as nat;
    lemma_strings_prefix(s, s, r + 4, nu);
    if t.len() >= p + 4 {
        assert(le_u32(t, p) == le_u32(s, p));
        if t.len() >= q {
            assert(u32_words(t, p + 4, n) =~= u32_words(s, p + 4, n));
            if t.len() >= q + 4 {
                assert(le_u32(t, q) == le_u32(s, q));
                lemma_locvars_prefix(s, t, q + 4, nl);
                if t.len() >= r + 4 {
                    assert(le_u32(t, r) == le_u32(s, r));
                    lemma_strings_prefix(s, t, r + 4, nu);
                }
            }
        }
    }
}

proof fn lemma_function_prefix(s: Seq<u8>, t: Seq<u8>, p: int)
    requires
        parse_function(s, p) is Ok,
        0 <= p <= t.len(),
        agree(s, t, p, p + parse_function(s, p)->Ok_0.1),
    ensures
        p + parse_function(s, p)->Ok_0.1 <= s.len(),
        same_or_truncated(parse_function(s, p), parse_function(t, p), p, t.len() as int),
    decreases remaining(s, p), 0nat,
{
    lemma_string_prefix(s, s, p);
    let q = p + parse_string(s, p)->Ok_0.1;
    let ncode = le_u32(s, q + 12) as nat;
    let q1 = q + 16 + 4 * ncode;
    let nk = le_u32(s, q1) as nat;
    lemma_constants_prefix(s, s, q1 + 4, nk);
    let q2 = q1 + 4 + parse_constants(s, q1 + 4, nk)->Ok_0.1;
    let nf = le_u32(s, q2) as nat;
    lemma_funs_prefix(s, s, q2 + 4, nf);
    let q3 = q2 + 4 + parse_funs(s, q2 + 4, nf)->Ok_0.1;
    lemma_debug_prefix(s, s, q3);
    lemma_string_prefix(s, t, p);
    if t.len() >= q + 16 {
        assert(le_u32(t, q) == le_u32(s, q));
        assert(le_u32(t, q + 4) == le_u32(s, q + 4));
        assert(le_u32(t, q + 12) == le_u32(s, q + 12));
        assert(t[q + 8] == s[q + 8] && t[q + 9] == s[q + 9] && t[q + 10] == s[q + 10] && t[q
            + 11] == s[q + 11]);
        if t.len() >= q1 + 4 {
            assert(u32_words(t, q + 16, ncode) =~= u32_words(s, q + 16, ncode));
            assert(le_u32(t, q1) == le_u32(s, q1));
            lemma_constants_prefix(s, t, q1 + 4, nk);
            if t.len() >= q2 + 4 {
                assert(le_u32(t, q2) == le_u32(s, q2));
                lemma_funs_prefix(s, t, q2 + 4, nf);
                if t.len() >= q3 {
                    lemma_debug_prefix(s, t, q3);
                }
            }
        }
    }
}

proof fn lemma_funs_prefix(s: Seq<u8>, t: Seq<u8>, p: int, n: nat)
    requires
        parse_funs(s, p, n) is Ok,
        0 <= p <= t.len(),
        p <= s.len(),
        agree(s, t, p, p + parse_funs(s, p, n)->Ok_0.1),
    ensures
        p + parse_funs(s, p, n)->Ok_0.1 <= s.len(),
        same_or_truncated(parse_funs(s, p, n), parse_funs(t, p, n), p, t.len() as int),
    decreases remaining(s, p), n,
{
    if n > 0 {
        let m = (n - 1) as nat;
        lemma_funs_prefix(s, t, p, m);
        let c = parse_funs(s, p, m)->Ok_0.1;
        lemma_function_prefix(s, s, p + c);
        if p + c <= t.len() {
            lemma_function_prefix(s, t, p + c);
        }
    }
}

/// Decoding is deterministic: two results that the decoder may give for the
/// same bytes are the same error, or trees with the same value.
pub proof fn decode_is_deterministic(
    s: Seq<u8>,
    r1: Result<Function, DecodeError>,
    r2: Result<Function, DecodeError>,
)
    requires
        decodes_to(s, r1),
        decodes_to(s, r2),
    ensures
        r1 is Ok <==> r2 is Ok,
        r1 is Ok ==> r1->Ok_0@ == r2->Ok_0@,
        r1 is Err ==> r1 == r2,
{
}

/// An accepted chunk is consumed exactly: its prototype ends at its last byte,
/// and one more byte after it is rejected as one extraneous byte.
pub proof fn accepted_chunk_is_exact(s: Seq<u8>, b: u8)
    requires
        parse_chunk(s) is Ok,
    ensures
        parse_function(s, 12) is Ok,
        12 + parse_function(s, 12)->Ok_0.1 == s.len(),
        parse_chunk(s.push(b)) == Err::<FunctionModel, DecodeError>(
            DecodeError::ExtraneousBytes(1),
        ),
{
    let t = s.push(b);
    assert(check_header(t) == check_header(s));
    lemma_function_prefix(s, t, 12);
}

/// Every strict prefix of an accepted chunk is rejected as truncated.
pub proof fn strict_prefix_is_truncated(s: Seq<u8>, k: int)
    requires
        parse_chunk(s) is Ok,
        0 <= k < s.len(),
    ensures
        parse_chunk(s.subrange(0, k)) is Err,
        is_truncation(parse_chunk(s.subrange(0, k))->Err_0),
{
    let t = s.subrange(0, k);
    if k >= 12 {
        assert(check_header(t) == check_header(s));
        lemma_function_prefix(s, t, 12);
    }
}

/// A tag byte outside {0, 1, 3, 4} where a constant of a pool starts makes
/// the whole pool fail with an error that names that byte.
pub proof fn invalid_tag_is_rejected(s: Seq<u8>, p: int, i: nat, n: nat)
    requires
        i < n,
        parse_constants(s, p, i) is Ok,
        0 <= p + parse_constants(s, p, i)->Ok_0.1 < s.len(),
        ({
            let tag = s[p + parse_constants(s, p, i)->Ok_0.1];
            tag != 0 && tag != 1 && tag != 3 && tag != 4
        }),
    ensures
        parse_constants(s, p, n) == Err::<(Seq<ConstantModel>, nat), DecodeError>(
            DecodeError::InvalidConstantType(s[p + parse_constants(s, p, i)->Ok_0.1]),
        ),
{
    crate::format::lemma_constants_err(s, p, i + 1, n);
}

/// A header equal to the fixed one passes the header check; one that differs
/// from it in a single byte fails with the error of that byte's field.
pub proof fn header_bytes_are_checked(s: Seq<u8>, i: int)
    requires
        s.len() >= 12,
        0 <= i < 12,
    ensures
        s.subrange(0, 12) == header() ==> check_header(s) is None,
        s[i] != header()[i] && (forall|j: int| 0 <= j < 12 && j != i ==> s[j] == header()[j])
            ==> parse_chunk(s) == Err::<FunctionModel, DecodeError>(
            header_field_error(i),
        ),
{
    if s.subrange(0, 12) == header() {
        assert(forall|j: int| 0 <= j < 12 ==> s[j] == s.subrange(0, 12)[j]);
    }
}

/// A string whose length field is zero decodes to the empty text and takes
/// up the length field alone.
pub proof fn empty_string_decodes_empty(s: Seq<u8>, p: int)
    requires
        0 <= p,
        p + 8 <= s.len(),
        le_u64(s, p) == 0,
    ensures
        parse_string(s, p) == Ok::<(Seq<char>, nat), DecodeError>((Seq::empty(), 8)),
{
}

proof fn lemma_constants_len(s: Seq<u8>, p: int, n: nat)
    requires
        parse_constants(s, p, n) is Ok,
    ensures
        parse_constants(s, p, n)->Ok_0.0.len() == n,
    decreases n,
{
    if n > 0 {
        lemma_constants_len(s, p, (n - 1) as nat);
    }
}

/// Offset of the tag byte of the `i`-th constant of the top-level prototype.
pub open spec fn top_constant_tag_offset(s: Seq<u8>, i: nat) -> int {
    let q = 12 + parse_string(s, 12)->Ok_0.1 as int;
    let start = q + 16 + 4 * le_u32(s, q + 12) + 4;
    start + parse_constants(s, start, i)->Ok_0.1
}

/// In an accepted chunk, writing a byte outside {0, 1, 3, 4} over the tag of
/// any constant of the top-level prototype makes decoding fail with an error
/// that names that byte.
#[verifier::rlimit(40)]
pub proof fn replaced_tag_is_rejected(s: Seq<u8>, i: nat, v: u8)
    requires
        parse_chunk(s) is Ok,
        i < parse_chunk(s)->Ok_0.constants.len(),
        v != 0 && v != 1 && v != 3 && v != 4,
    ensures
        parse_chunk(s.update(top_constant_tag_offset(s, i), v)) == Err::<FunctionModel, DecodeError>(
            DecodeError::InvalidConstantType(v),
        ),
{
    let q = 12 + parse_string(s, 12)->Ok_0.1 as int;
    let q1 = q + 16 + 4 * le_u32(s, q + 12);
    let start = q1 + 4;
    let nk = le_u32(s, q1) as nat;
    assert(parse_constants(s, start, nk) is Ok);
    lemma_constants_len(s, start, nk);
    assert(i < nk);
    if parse_constants(s, start, i) is Err {
        lemma_constants_err(s, start, i, nk);
    }
    if parse_constants(s, start, i + 1) is Err {
        lemma_constants_err(s, start, i + 1, nk);
    }
    lemma_constants_prefix(s, s, start, i + 1);
    let k = start + parse_constants(s, start, i)->Ok_0.1;
    lemma_constant_prefix(s, s, k);
    assert(0 <= k < s.len());
    let t = s.update(k, v);
    assert(agree(s, t, 12, k));
    lemma_string_prefix(s, t, 12);
    assert(parse_string(t, 12) == parse_string(s, 12));
    assert(le_u32(t, q) == le_u32(s, q));
    assert(le_u32(t, q + 4) == le_u32(s, q + 4));
    assert(le_u32(t, q + 12) == le_u32(s, q + 12));
    assert(u32_words(t, q + 16, le_u32(s, q + 12) as nat) =~= u32_words(
        s,
        q + 16,
        le_u32(s, q + 12) as nat,
    ));
    assert(le_u32(t, q1) == le_u32(s, q1));
    lemma_constants_prefix(s, t, start, i);
    assert(parse_constant(t, k) == Err::<(ConstantModel, nat), DecodeError>(
        DecodeError::InvalidConstantType(v),
    ));
    lemma_constants_err(t, start, i + 1, nk);
    assert(parse_function(t, 12) == Err::<(FunctionModel, nat), DecodeError>(
        DecodeError::InvalidConstantType(v),
    ));
    assert(check_header(t) == check_header(s));
}

} // verus!
