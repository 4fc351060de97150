//! The JSON grammar, as spec functions.
//!
//! [`spec_parse_value`] is the meaning of parsing: it maps input bytes to a
//! model value and the unconsumed suffix, or to the error the grammar
//! prescribes. [`ser_value`] is the canonical serialization. The executable
//! parser and serializer are proved equal to these functions, and the
//! round-trip laws are stated over them.

use vstd::prelude::*;
use vstd::utf8::{decode_first_scalar, encode_scalar, pop_first_scalar, valid_first_scalar};

use crate::error::Error;
use crate::model::{
    combine_surrogates, is_high_surrogate, is_low_surrogate, is_surrogate, obj_insert,
    utf16_units_of_scalar, Jv,
};
use crate::number::{spec_canonical_number, spec_force_float};

verus! {

/// A parse outcome: the parsed item and the unconsumed suffix, or an error.
pub type Pres<T> = Result<(T, Seq<u8>), Error>;

/// The four JSON whitespace bytes: tab, newline, carriage return, space.
pub open spec fn is_ws(b: u8) -> bool {
    b == 0x09 || b == 0x0a || b == 0x0d || b == 0x20
}

/// How many whitespace bytes the input starts with.
pub open spec fn ws_count(s: Seq<u8>) -> int
    decreases s.len(),
{
    if s.len() == 0 || !is_ws(s[0]) {
        0
    } else {
        1 + ws_count(s.drop_first())
    }
}

/// The input with its leading whitespace removed.
pub open spec fn skip_ws(s: Seq<u8>) -> Seq<u8> {
    let n = ws_count(s);
    if 0 <= n <= s.len() {
        s.skip(n)
    } else {
        s
    }
}

/// The count of leading whitespace is within bounds, the bytes below it are
/// whitespace, and the byte at it (if any) is not.
pub proof fn lemma_ws_count(s: Seq<u8>)
    ensures
        0 <= ws_count(s) <= s.len(),
        forall|i: int| 0 <= i < ws_count(s) ==> is_ws(#[trigger] s[i]),
        ws_count(s) < s.len() ==> !is_ws(s[ws_count(s)]),
        skip_ws(s) == s.skip(ws_count(s)),
    decreases s.len(),
{
    if s.len() > 0 && is_ws(s[0]) {
        lemma_ws_count(s.drop_first());
        assert forall|i: int| 0 <= i < ws_count(s) implies is_ws(#[trigger] s[i]) by {
            if i > 0 {
                assert(s.drop_first()[i - 1] == s[i]);
            }
        }
        if ws_count(s) < s.len() {
            assert(s.drop_first()[ws_count(s) - 1] == s[ws_count(s)]);
        }
    }
}

/// Skipping whitespace never lengthens the input and is idempotent.
pub proof fn lemma_skip_ws(s: Seq<u8>)
    ensures
        skip_ws(s).len() <= s.len(),
        skip_ws(s).len() > 0 ==> !is_ws(skip_ws(s)[0]),
        skip_ws(skip_ws(s)) == skip_ws(s),
{
    lemma_ws_count(s);
    let r = skip_ws(s);
    if r.len() > 0 {
        assert(r[0] == s[ws_count(s)]);
    }
    assert(ws_count(r) == 0);
    assert(r.skip(0) =~= r);
}

/// A byte that can stand first in the input of [`skip_ws`]'s result when the
/// input started without whitespace keeps the input unchanged.
pub proof fn lemma_skip_ws_nonws(s: Seq<u8>)
    requires
        s.len() == 0 || !is_ws(s[0]),
    ensures
        skip_ws(s) == s,
{
    assert(ws_count(s) == 0);
    assert(s.skip(0) =~= s);
}

/// Skipping whitespace commutes with dropping one leading whitespace byte.
pub proof fn lemma_skip_ws_peel(s: Seq<u8>)
    requires
        s.len() > 0,
        is_ws(s[0]),
    ensures
        skip_ws(s) == skip_ws(s.drop_first()),
{
    let d = s.drop_first();
    lemma_ws_count(d);
    assert(ws_count(s) == 1 + ws_count(d));
    assert(s.skip(1 + ws_count(d)) =~= d.skip(ws_count(d)));
}

/// True for an ASCII decimal digit.
pub open spec fn is_digit(b: u8) -> bool {
    0x30 <= b <= 0x39
}

/// The byte at an index, if the index is within the input.
pub open spec fn at(s: Seq<u8>, j: int) -> Option<u8> {
    if 0 <= j < s.len() {
        Some(s[j])
    } else {
        None
    }
}

/// The run length of decimal digits starting at the given index.
pub open spec fn digits_len_at(s: Seq<u8>, j: int) -> int
    decreases s.len() - j,
{
    if 0 <= j < s.len() && is_digit(s[j]) {
        1 + digits_len_at(s, j + 1)
    } else {
        0
    }
}

/// The digit run ends within the input, on a non-digit.
pub proof fn lemma_digits_len_at(s: Seq<u8>, j: int)
    requires
        0 <= j <= s.len(),
    ensures
        j + digits_len_at(s, j) <= s.len(),
        digits_len_at(s, j) >= 0,
        at(s, j + digits_len_at(s, j)) matches Some(b) ==> !is_digit(b),
        forall|i: int| j <= i < j + digits_len_at(s, j) ==> is_digit(#[trigger] s[i]),
    decreases s.len() - j,
{
    if 0 <= j < s.len() && is_digit(s[j]) {
        lemma_digits_len_at(s, j + 1);
    }
}

/// The digit run length is determined by any witness run.
pub proof fn lemma_digits_len_exact(s: Seq<u8>, j: int, k: int)
    requires
        0 <= j,
        0 <= k,
        j + k <= s.len(),
        forall|i: int| j <= i < j + k ==> is_digit(#[trigger] s[i]),
        at(s, j + k) matches Some(b) ==> !is_digit(b),
    ensures
        digits_len_at(s, j) == k,
    decreases k,
{
    if k > 0 {
        lemma_digits_len_exact(s, j + 1, k - 1);
    }
}

/// Scans one JSON number literal at the head of the input and returns the
/// lexeme's length, or the error the grammar prescribes. The scan is purely
/// lexical; the lexeme's value is taken afterwards.
pub open spec fn spec_scan_number(s: Seq<u8>) -> Result<int, Error> {
    let i0: int = if s.len() > 0 && s[0] == 0x2d {
        1
    } else {
        0
    };
    if s.len() <= i0 {
        Err(Error::UnexpectedEof)
    } else {
        let b = s[i0];
        if b == 0x30 {
            if i0 + 1 < s.len() && is_digit(s[i0 + 1]) {
                Err(Error::InvalidDigit(s[i0 + 1]))
            } else {
                spec_scan_frac(s, i0 + 1)
            }
        } else if 0x31 <= b <= 0x39 {
            spec_scan_frac(s, i0 + 1 + digits_len_at(s, i0 + 1))
        } else {
            Err(Error::InvalidDigit(b))
        }
    }
}

/// Scans the optional fractional part beginning at the given index, then the
/// optional exponent.
pub open spec fn spec_scan_frac(s: Seq<u8>, j: int) -> Result<int, Error> {
    if at(s, j) == Some(0x2eu8) {
        let d = digits_len_at(s, j + 1);
        if d == 0 {
            match at(s, j + 1) {
                None => Err(Error::UnexpectedEof),
                Some(b) => Err(Error::InvalidDigit(b)),
            }
        } else {
            spec_scan_exp(s, j + 1 + d)
        }
    } else {
        spec_scan_exp(s, j)
    }
}

/// Scans the optional exponent beginning at the given index.
pub open spec fn spec_scan_exp(s: Seq<u8>, j: int) -> Result<int, Error> {
    if at(s, j) == Some(0x65u8) || at(s, j) == Some(0x45u8) {
        let k: int = if at(s, j + 1) == Some(0x2bu8) || at(s, j + 1) == Some(0x2du8) {
            j + 2
        } else {
            j + 1
        };
        let d = digits_len_at(s, k);
        if d == 0 {
            match at(s, k) {
                None => Err(Error::UnexpectedEof),
                Some(b) => Err(Error::InvalidDigit(b)),
            }
        } else {
            Ok(k + d)
        }
    } else {
        Ok(j)
    }
}

/// A successful scan stays within the input.
pub proof fn lemma_scan_number_len(s: Seq<u8>)
    ensures
        spec_scan_number(s) matches Ok(n) ==> 0 < n <= s.len(),
{
    let i0: int = if s.len() > 0 && s[0] == 0x2d {
        1
    } else {
        0
    };
    if s.len() > i0 {
        lemma_digits_len_at(s, i0 + 1);
        let j1 = i0 + 1 + digits_len_at(s, i0 + 1);
        lemma_scan_frac_len(s, i0 + 1);
        lemma_scan_frac_len(s, j1);
    }
}

/// The fraction/exponent scan stays within the input and moves forward.
pub proof fn lemma_scan_frac_len(s: Seq<u8>, j: int)
    requires
        0 <= j <= s.len(),
    ensures
        spec_scan_frac(s, j) matches Ok(n) ==> j <= n <= s.len(),
{
    if at(s, j) == Some(0x2eu8) {
        lemma_digits_len_at(s, j + 1);
        let d = digits_len_at(s, j + 1);
        if d > 0 {
            lemma_scan_exp_len(s, j + 1 + d);
        }
    } else {
        lemma_scan_exp_len(s, j);
    }
}

/// The exponent scan stays within the input and moves forward.
pub proof fn lemma_scan_exp_len(s: Seq<u8>, j: int)
    requires
        0 <= j <= s.len(),
    ensures
        spec_scan_exp(s, j) matches Ok(n) ==> j <= n <= s.len(),
{
    if at(s, j) == Some(0x65u8) || at(s, j) == Some(0x45u8) {
        let k: int = if at(s, j + 1) == Some(0x2bu8) || at(s, j + 1) == Some(0x2du8) {
            j + 2
        } else {
            j + 1
        };
        if k <= s.len() {
            lemma_digits_len_at(s, k);
        }
    }
}

/// The exponent scan of a delimited lexeme sees the whole lexeme.
pub proof fn lemma_scan_exp_prefix(s: Seq<u8>, j: int, n: int)
    requires
        0 <= j <= n <= s.len(),
        spec_scan_exp(s, j) == Ok::<int, Error>(n),
    ensures
        spec_scan_exp(s.take(n), j) == Ok::<int, Error>(n),
{
    let t = s.take(n);
    if at(s, j) == Some(0x65u8) || at(s, j) == Some(0x45u8) {
        let k: int = if at(s, j + 1) == Some(0x2bu8) || at(s, j + 1) == Some(0x2du8) {
            j + 2
        } else {
            j + 1
        };
        assert(k <= s.len());
        lemma_digits_len_at(s, k);
        let d = digits_len_at(s, k);
        assert(d > 0);
        assert(n == k + d);
        assert(j < n);
        assert(at(t, j) == at(s, j));
        let kt: int = if at(t, j + 1) == Some(0x2bu8) || at(t, j + 1) == Some(0x2du8) {
            j + 2
        } else {
            j + 1
        };
        assert(kt == k) by {
            if j + 1 < n {
                assert(at(t, j + 1) == at(s, j + 1));
            } else {
                // were a sign at the lexeme's end, the scan would have
                // ended beyond it
                assert(j + 1 == n);
                assert(n >= k + 1);
            }
        }
        assert forall|i: int| k <= i < k + d implies is_digit(#[trigger] t[i]) by {
            assert(t[i] == s[i]);
        }
        lemma_digits_len_exact(t, k, d);
    } else {
        assert(j == n);
        assert(at(t, j) is None);
    }
}

/// The fraction scan of a delimited lexeme sees the whole lexeme.
pub proof fn lemma_scan_frac_prefix(s: Seq<u8>, j: int, n: int)
    requires
        0 <= j <= n <= s.len(),
        spec_scan_frac(s, j) == Ok::<int, Error>(n),
    ensures
        spec_scan_frac(s.take(n), j) == Ok::<int, Error>(n),
{
    let t = s.take(n);
    if at(s, j) == Some(0x2eu8) {
        lemma_digits_len_at(s, j + 1);
        let d = digits_len_at(s, j + 1);
        assert(d > 0);
        lemma_scan_exp_len(s, j + 1 + d);
        assert(j + 1 + d <= n);
        assert(at(t, j) == at(s, j));
        assert forall|i: int| j + 1 <= i < j + 1 + d implies is_digit(#[trigger] t[i]) by {
            assert(t[i] == s[i]);
        }
        lemma_digits_len_exact(t, j + 1, d);
        lemma_scan_exp_prefix(s, j + 1 + d, n);
    } else {
        if j < n {
            assert(at(t, j) == at(s, j));
        } else {
            assert(at(t, j) is None);
        }
        lemma_scan_exp_prefix(s, j, n);
    }
}

/// The scan of a lexeme it delimited itself accepts the whole lexeme:
/// what [`spec_scan_number`] cut out of the input is a number lexeme.
pub proof fn lemma_scan_prefix(s: Seq<u8>, n: int)
    requires
        spec_scan_number(s) == Ok::<int, Error>(n),
        0 < n <= s.len(),
    ensures
        is_number_lexeme(s.take(n)),
{
    let t = s.take(n);
    assert(t.len() == n);
    let i0: int = if s.len() > 0 && s[0] == 0x2d {
        1
    } else {
        0
    };
    assert(i0 <= 1 && t[0] == s[0]);
    let b = s[i0];
    if b == 0x30 {
        lemma_scan_frac_len(s, i0 + 1);
        assert(i0 + 1 <= n);
        assert(t[i0] == s[i0]);
        lemma_scan_frac_prefix(s, i0 + 1, n);
    } else {
        assert(0x31 <= b <= 0x39);
        lemma_digits_len_at(s, i0 + 1);
        let d = digits_len_at(s, i0 + 1);
        let j1 = i0 + 1 + d;
        lemma_scan_frac_len(s, j1);
        assert(j1 <= n);
        assert(t[i0] == s[i0]);
        assert forall|i: int| i0 + 1 <= i < j1 implies is_digit(#[trigger] t[i]) by {
            assert(t[i] == s[i]);
        }
        lemma_digits_len_exact(t, i0 + 1, d);
        lemma_scan_frac_prefix(s, j1, n);
    }
}

/// True when the whole input is exactly one JSON number literal.
pub open spec fn is_number_lexeme(s: Seq<u8>) -> bool {
    spec_scan_number(s) == Ok::<int, Error>(s.len() as int)
}

/// Parses one number at the head of the input: the scanned lexeme is
/// converted to the nearest double and rendered canonically; a lexeme
/// denoting a non-finite value is rejected.
pub open spec fn spec_parse_number(s: Seq<u8>) -> Pres<Seq<u8>> {
    match spec_scan_number(s) {
        Err(e) => Err(e),
        Ok(n) => match spec_canonical_number(spec_force_float(s.take(n))) {
            Some(c) => Ok((c, s.skip(n))),
            None => Err(Error::InfiniteFloat),
        },
    }
}

/// The numeric value of a hex digit byte, if it is one.
pub open spec fn hex_val(b: u8) -> Option<u8> {
    if 0x30 <= b <= 0x39 {
        Some((b - 0x30) as u8)
    } else if 0x61 <= b <= 0x66 {
        Some((b - 0x61 + 10) as u8)
    } else if 0x41 <= b <= 0x46 {
        Some((b - 0x41 + 10) as u8)
    } else {
        None
    }
}

/// The code unit named by four hex digit bytes, or the error blaming the
/// first byte that is not a hex digit.
pub open spec fn spec_hex4(b0: u8, b1: u8, b2: u8, b3: u8) -> Result<u16, Error> {
    match hex_val(b0) {
        None => Err(Error::InvalidHexChar(b0)),
        Some(v0) => match hex_val(b1) {
            None => Err(Error::InvalidHexChar(b1)),
            Some(v1) => match hex_val(b2) {
                None => Err(Error::InvalidHexChar(b2)),
                Some(v2) => match hex_val(b3) {
                    None => Err(Error::InvalidHexChar(b3)),
                    Some(v3) => Ok(
                        (((v0 as u16) << 12) | ((v1 as u16) << 8) | ((v2 as u16) << 4) | (
                        v3 as u16)) as u16,
                    ),
                },
            },
        },
    }
}

/// The code unit appended by a one-character escape, if the byte names one.
pub open spec fn escape_unit(b: u8) -> Option<u16> {
    if b == 0x22 {
        Some(0x22u16)
    } else if b == 0x5c {
        Some(0x5cu16)
    } else if b == 0x2f {
        Some(0x2fu16)
    } else if b == 0x62 {
        Some(0x08u16)
    } else if b == 0x66 {
        Some(0x0cu16)
    } else if b == 0x6e {
        Some(0x0au16)
    } else if b == 0x72 {
        Some(0x0du16)
    } else if b == 0x74 {
        Some(0x09u16)
    } else {
        None
    }
}

/// Parses a string body after the opening quote: escapes and literal
/// scalars accumulate as code units until the closing quote.
pub open spec fn spec_parse_string_body(s: Seq<u8>, acc: Seq<u16>) -> Pres<Seq<u16>>
    decreases s.len(),
{
    if s.len() == 0 {
        Err(Error::UnexpectedEof)
    } else if s[0] == 0x5c {
        if s.len() < 2 {
            Err(Error::UnexpectedEof)
        } else {
            let e = s[1];
            match escape_unit(e) {
                Some(w) => spec_parse_string_body(s.skip(2), acc.push(w)),
                None => {
                    if e == 0x75 {
                        if s.len() < 6 {
                            Err(Error::UnexpectedEof)
                        } else {
                            match spec_hex4(s[2], s[3], s[4], s[5]) {
                                Ok(w) => spec_parse_string_body(s.skip(6), acc.push(w)),
                                Err(err) => Err(err),
                            }
                        }
                    } else {
                        Err(Error::UnexpectedEscape(e))
                    }
                },
            }
        }
    } else if s[0] == 0x22 {
        Ok((acc, s.drop_first()))
    } else if s[0] < 0x20 {
        Err(Error::InvalidControlCharacter(s[0]))
    } else if valid_first_scalar(s) {
        spec_parse_string_body(
            pop_first_scalar(s),
            acc + utf16_units_of_scalar(decode_first_scalar(s)),
        )
    } else {
        Err(Error::InvalidUtf8Char)
    }
}

/// Parses one string literal at the head of the input.
pub open spec fn spec_parse_string(s: Seq<u8>) -> Pres<Seq<u16>> {
    if s.len() == 0 {
        Err(Error::UnexpectedEof)
    } else if s[0] != 0x22 {
        Err(Error::ExpectedDoubleQuote(s[0]))
    } else {
        spec_parse_string_body(s.drop_first(), seq![])
    }
}

/// Parses one value: leading whitespace, dispatch on the first significant
/// byte, trailing whitespace.
pub open spec fn spec_parse_value(s: Seq<u8>) -> Pres<Jv>
    decreases s.len(), 1int,
{
    let s1 = skip_ws(s);
    if s1.len() == 0 {
        Err(Error::UnexpectedEof)
    } else {
        let b = s1[0];
        let r: Pres<Jv> = if b == 0x6e {
            if s1.len() < 4 {
                Err(Error::UnexpectedEof)
            } else if s1[1] == 0x75 && s1[2] == 0x6c && s1[3] == 0x6c {
                Ok((Jv::Null, s1.skip(4)))
            } else {
                Err(Error::ExpectedNull)
            }
        } else if b == 0x66 {
            if s1.len() < 5 {
                Err(Error::UnexpectedEof)
            } else if s1[1] == 0x61 && s1[2] == 0x6c && s1[3] == 0x73 && s1[4] == 0x65 {
                Ok((Jv::Bool(false), s1.skip(5)))
            } else {
                Err(Error::ExpectedFalse)
            }
        } else if b == 0x74 {
            if s1.len() < 4 {
                Err(Error::UnexpectedEof)
            } else if s1[1] == 0x72 && s1[2] == 0x75 && s1[3] == 0x65 {
                Ok((Jv::Bool(true), s1.skip(4)))
            } else {
                Err(Error::ExpectedTrue)
            }
        } else if b == 0x2d || is_digit(b) {
            match spec_parse_number(s1) {
                Ok((c, rest)) => Ok((Jv::Number(c), rest)),
                Err(e) => Err(e),
            }
        } else if b == 0x22 {
            match spec_parse_string(s1) {
                Ok((u, rest)) => Ok((Jv::String(u), rest)),
                Err(e) => Err(e),
            }
        } else if b == 0x5b {
            spec_parse_array(s1)
        } else if b == 0x7b {
            spec_parse_object(s1)
        } else {
            Err(Error::UnexpectedStartOfValue(b))
        };
        match r {
            Ok((v, rest)) => Ok((v, skip_ws(rest))),
            Err(e) => Err(e),
        }
    }
}

/// Parses an array at an opening bracket.
pub open spec fn spec_parse_array(s: Seq<u8>) -> Pres<Jv>
    decreases s.len(), 0int,
{
    if s.len() == 0 {
        Err(Error::UnexpectedEof)
    } else if s[0] != 0x5b {
        Err(Error::ExpectedLeftBracket(s[0]))
    } else {
        let s1 = skip_ws(s.drop_first());
        if s1.len() > 0 && s1[0] == 0x5d {
            Ok((Jv::Array(seq![]), s1.drop_first()))
        } else {
            spec_parse_elems(s1, seq![])
        }
    }
}

/// Parses the non-empty element list of an array, then the closing bracket.
pub open spec fn spec_parse_elems(s: Seq<u8>, acc: Seq<Jv>) -> Pres<Jv>
    decreases s.len(), 2int,
{
    match spec_parse_value(s) {
        Err(e) => Err(e),
        Ok((v, r)) => {
            if r.len() == 0 {
                Err(Error::UnexpectedEof)
            } else if r[0] == 0x5d {
                Ok((Jv::Array(acc.push(v)), r.drop_first()))
            } else if r[0] == 0x2c {
                if r.len() <= s.len() {
                    spec_parse_elems(r.drop_first(), acc.push(v))
                } else {
                    // a parse never lengthens its input
                    Err(Error::TrailingData)
                }
            } else {
                Err(Error::ExpectedCommaOrRightBracket(r[0]))
            }
        },
    }
}

/// Parses an object at an opening brace.
pub open spec fn spec_parse_object(s: Seq<u8>) -> Pres<Jv>
    decreases s.len(), 0int,
{
    if s.len() == 0 {
        Err(Error::UnexpectedEof)
    } else if s[0] != 0x7b {
        Err(Error::ExpectedLeftBrace(s[0]))
    } else {
        let s1 = skip_ws(s.drop_first());
        if s1.len() > 0 && s1[0] == 0x7d {
            Ok((Jv::Object(seq![]), s1.drop_first()))
        } else {
            spec_parse_members(s1, seq![])
        }
    }
}

/// Parses the non-empty member list of an object, then the closing brace.
/// A repeated key overwrites: the last occurrence wins.
pub open spec fn spec_parse_members(s: Seq<u8>, acc: Seq<(Seq<u16>, Jv)>) -> Pres<Jv>
    decreases s.len(), 2int,
{
    match spec_parse_string(s) {
        Err(e) => Err(e),
        Ok((k, r1)) => {
            let r2 = skip_ws(r1);
            if r2.len() == 0 {
                Err(Error::UnexpectedEof)
            } else if r2[0] != 0x3a {
                Err(Error::ExpectedColon(r2[0]))
            } else if r2.len() > s.len() {
                // a parse never lengthens its input
                Err(Error::TrailingData)
            } else {
                match spec_parse_value(r2.drop_first()) {
                    Err(e) => Err(e),
                    Ok((v, r3x)) => {
                        let acc2 = obj_insert(acc, k, v);
                        let r3 = skip_ws(r3x);
                        if r3.len() == 0 {
                            Err(Error::UnexpectedEof)
                        } else if r3[0] == 0x7d {
                            Ok((Jv::Object(acc2), r3.drop_first()))
                        } else if r3[0] == 0x2c {
                            let r4 = skip_ws(r3.drop_first());
                            if r4.len() < s.len() {
                                spec_parse_members(r4, acc2)
                            } else {
                                // a parse never lengthens its input
                                Err(Error::TrailingData)
                            }
                        } else {
                            Err(Error::ExpectedCommaOrRightBrace(r3[0]))
                        }
                    },
                }
            }
        },
    }
}

/// Parses a whole document: exactly one value, whitespace on either side of
/// it permitted, nothing else after it.
pub open spec fn spec_from_json(s: Seq<u8>) -> Result<Jv, Error> {
    match spec_parse_value(s) {
        Err(e) => Err(e),
        Ok((v, rest)) => if rest.len() == 0 {
            Ok(v)
        } else {
            Err(Error::TrailingData)
        },
    }
}

/// The lowercase hex digit byte for a value below sixteen.
pub open spec fn hex_digit(v: u8) -> u8
    recommends
        v < 16,
{
    if v < 10 {
        (0x30 + v) as u8
    } else {
        (0x57 + v) as u8
    }
}

/// The six-byte escape `\u` followed by four lowercase hex digits.
pub open spec fn hex_escape(w: u16) -> Seq<u8> {
    seq![
        0x5cu8,
        0x75u8,
        hex_digit(((w >> 12) & 0xf) as u8),
        hex_digit(((w >> 8) & 0xf) as u8),
        hex_digit(((w >> 4) & 0xf) as u8),
        hex_digit((w & 0xf) as u8),
    ]
}

/// The serialization of one code unit that does not begin a surrogate
/// pair: a short escape, a hex escape for controls and lone surrogates,
/// or the scalar's UTF-8 bytes.
pub open spec fn ser_unit(w: u16) -> Seq<u8> {
    if w == 0x22 {
        seq![0x5cu8, 0x22u8]
    } else if w == 0x5c {
        seq![0x5cu8, 0x5cu8]
    } else if w == 0x08 {
        seq![0x5cu8, 0x62u8]
    } else if w == 0x0c {
        seq![0x5cu8, 0x66u8]
    } else if w == 0x0a {
        seq![0x5cu8, 0x6eu8]
    } else if w == 0x0d {
        seq![0x5cu8, 0x72u8]
    } else if w == 0x09 {
        seq![0x5cu8, 0x74u8]
    } else if w < 0x20 || is_surrogate(w) {
        hex_escape(w)
    } else {
        encode_scalar(w as u32)
    }
}

/// The serialization of a string body: surrogate pairs become one scalar's
/// UTF-8 bytes, every other unit serializes alone.
pub open spec fn ser_units(u: Seq<u16>) -> Seq<u8>
    decreases u.len(),
{
    if u.len() == 0 {
        seq![]
    } else if is_high_surrogate(u[0]) && u.len() >= 2 && is_low_surrogate(u[1]) {
        encode_scalar(combine_surrogates(u[0], u[1])) + ser_units(u.skip(2))
    } else {
        ser_unit(u[0]) + ser_units(u.skip(1))
    }
}

/// The serialization of a string literal, quotes included.
pub open spec fn ser_string(u: Seq<u16>) -> Seq<u8> {
    seq![0x22u8] + ser_units(u) + seq![0x22u8]
}

/// The canonical serialization of a value: no insignificant whitespace,
/// object members in ascending key order.
pub open spec fn ser_value(v: Jv) -> Seq<u8>
    decreases v,
{
    match v {
        Jv::Null => seq![0x6eu8, 0x75u8, 0x6cu8, 0x6cu8],
        Jv::Bool(b) => if b {
            seq![0x74u8, 0x72u8, 0x75u8, 0x65u8]
        } else {
            seq![0x66u8, 0x61u8, 0x6cu8, 0x73u8, 0x65u8]
        },
        Jv::Number(t) => t,
        Jv::String(u) => ser_string(u),
        Jv::Array(vs) => seq![0x5bu8] + ser_elems(vs) + seq![0x5du8],
        Jv::Object(es) => seq![0x7bu8] + ser_members(es) + seq![0x7du8],
    }
}

/// Array elements, comma separated.
pub open spec fn ser_elems(vs: Seq<Jv>) -> Seq<u8>
    decreases vs,
{
    if vs.len() == 0 {
        seq![]
    } else if vs.len() == 1 {
        ser_value(vs[0])
    } else {
        ser_value(vs[0]) + seq![0x2cu8] + ser_elems(vs.drop_first())
    }
}

/// Object members, comma separated, each a key, a colon and a value.
pub open spec fn ser_members(es: Seq<(Seq<u16>, Jv)>) -> Seq<u8>
    decreases es,
{
    if es.len() == 0 {
        seq![]
    } else if es.len() == 1 {
        ser_string(es[0].0) + seq![0x3au8] + ser_value(es[0].1)
    } else {
        ser_string(es[0].0) + seq![0x3au8] + ser_value(es[0].1) + seq![0x2cu8] + ser_members(
            es.drop_first(),
        )
    }
}

} // verus!
