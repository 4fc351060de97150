//! JSON numbers: finite IEEE-754 doubles, identified by their canonical
//! decimal text.
//!
//! A number literal is scanned by verified code, then handed to serde_json
//! to be converted to the nearest double and printed back in the shortest
//! decimal form that reads back to the same double. That canonical text is
//! what a `Number` stores and what equality, ordering and hashing go by, so
//! two literals are equal exactly when they denote the same double, and a
//! `Number` can serve as a map or set key. The derived order compares the
//! text bytes: it is total and consistent with equality, but it is neither
//! numeric order nor raw-bit-pattern order ("10.0" sorts below "2.0").
//! Integer-shaped lexemes are first given an exponent of zero, so every
//! literal takes serde_json's float path and +0.0 and -0.0 keep distinct
//! identities ("0.0" and "-0.0").

use vstd::prelude::*;

use crate::error::Error;
use crate::grammar::{
    at, digits_len_at, is_digit, is_number_lexeme, lemma_digits_len_at, lemma_digits_len_exact,
    lemma_scan_number_len, lemma_scan_prefix, skip_ws, spec_parse_number, spec_scan_exp,
    spec_scan_frac, spec_scan_number,
};
use crate::parser::Reader;

verus! {

/// The canonical decimal text of the double nearest to the number a JSON
/// number literal denotes, or nothing when that double is not finite.
/// Defined for lexemes of the number grammar that contain a point or an
/// exponent, so that the text names a double, not an integer.
pub uninterp spec fn spec_canonical_number(s: Seq<u8>) -> Option<Seq<u8>>;

/// True when a byte marks a lexeme as non-integral: a decimal point or an
/// exponent letter.
pub open spec fn is_float_marker(b: u8) -> bool {
    b == 0x2e || b == 0x65 || b == 0x45
}

/// True when the lexeme contains a decimal point or an exponent.
pub open spec fn has_float_marker(s: Seq<u8>) -> bool {
    exists|i: int| 0 <= i < s.len() && is_float_marker(#[trigger] s[i])
}

/// The lexeme, given an exponent of zero when it had neither a decimal
/// point nor an exponent. The denoted number is unchanged.
pub open spec fn spec_force_float(s: Seq<u8>) -> Seq<u8> {
    if has_float_marker(s) {
        s
    } else {
        s + seq![0x65u8, 0x30u8]
    }
}

/// True of the canonical text of some finite double: the form a `Number`
/// holds and the serializer emits.
pub open spec fn number_canonical(t: Seq<u8>) -> bool {
    &&& is_number_lexeme(t)
    &&& has_float_marker(t)
    &&& spec_canonical_number(t) == Some(t)
}

/// Relies on serde_json's `from_slice` (with the float_roundtrip feature)
/// and `to_vec`: a JSON number literal with a point or exponent parses to
/// the nearest double, rejected as out of range when that double is not
/// finite, and a finite double prints as the shortest JSON number literal
/// (always with a point or exponent) that parses back to the same double.
/// Reparsing and reprinting such a printed literal therefore returns it
/// unchanged.
#[verifier::external_body]
fn canonical_number(lex: &[u8]) -> (r: Option<Vec<u8>>)
    requires
        is_number_lexeme(lex@),
        has_float_marker(lex@),
    ensures
        r matches Some(c) ==> Some(c@) == spec_canonical_number(lex@),
        r is None ==> spec_canonical_number(lex@) is None,
        r matches Some(c) ==> is_number_lexeme(c@) && has_float_marker(c@)
            && spec_canonical_number(c@) == Some(c@),
{
    match serde_json::from_slice::<serde_json::Value>(lex) {
        Ok(v) => Some(serde_json::to_vec(&v).unwrap()),
        Err(_) => None,
    }
}

/// A finite double, stored and compared as its canonical decimal text.
#[derive(Debug, Clone, PartialEq, Eq, PartialOrd, Ord, Hash)]
pub struct Number {
    text: Vec<u8>,
}

impl View for Number {
    type V = Seq<u8>;

    closed spec fn view(&self) -> Seq<u8> {
        self.text@
    }
}

impl Number {
    /// The representation invariant: the stored text is canonical.
    pub open spec fn inv(&self) -> bool {
        number_canonical(self@)
    }

    /// Parses a complete JSON document that must be a single number;
    /// whitespace on either side of it is permitted.
    pub fn from_json(bytes: &[u8]) -> (r: Result<Number, Error>)
        ensures
            match spec_parse_number(skip_ws(bytes@)) {
                Ok((c, rest)) => if skip_ws(rest).len() == 0 {
                    r matches Ok(n) && n@ == c && n.inv()
                } else {
                    r == Err::<Number, Error>(Error::TrailingData)
                },
                Err(e) => r == Err::<Number, Error>(e),
            },
    {
        let mut reader = Reader::new(bytes);
        proof {
            assert(reader.remaining() =~= bytes@);
        }
        reader.skip_whitespace();
        match read_number(&mut reader) {
            Ok(n) => {
                reader.skip_whitespace();
                if reader.at_end() {
                    Ok(n)
                } else {
                    Err(Error::TrailingData)
                }
            },
            Err(e) => Err(e),
        }
    }

    /// A number built from a literal of the JSON number grammar; rejected
    /// with the same errors as parsing.
    pub fn from_decimal(lex: &[u8]) -> (r: Result<Number, Error>)
        ensures
            match spec_parse_number(skip_ws(lex@)) {
                Ok((c, rest)) => if skip_ws(rest).len() == 0 {
                    r matches Ok(n) && n@ == c && n.inv()
                } else {
                    r == Err::<Number, Error>(Error::TrailingData)
                },
                Err(e) => r == Err::<Number, Error>(e),
            },
    {
        Number::from_json(lex)
    }

    /// The canonical decimal text, as bytes.
    pub fn to_json(&self) -> (r: Vec<u8>)
        ensures
            r@ == self@,
    {
        let mut out: Vec<u8> = Vec::new();
        let mut i: usize = 0;
        while i < self.text.len()
            invariant
                i <= self.text@.len(),
                out@ == self.text@.take(i as int),
            decreases self.text@.len() - i,
        {
            out.push(self.text[i]);
            i = i + 1;
            proof {
                assert(out@ =~= self.text@.take(i as int));
            }
        }
        proof {
            assert(out@ =~= self@);
        }
        out
    }

    /// The canonical decimal text, as text.
    pub fn to_string(&self) -> (r: String)
        requires
            self.inv(),
        ensures
            vstd::utf8::encode_utf8(r@) == self@,
    {
        let bytes = self.to_json();
        proof {
            lemma_number_lexeme_ascii(self@);
            lemma_ascii_valid_utf8(self@);
        }
        crate::string::utf8_to_string(bytes)
    }
}

/// Appends an exponent of zero to a lexeme without point or exponent.
fn force_float(lex: &[u8]) -> (r: Vec<u8>)
    ensures
        r@ == spec_force_float(lex@),
{
    let mut marker = false;
    let mut i: usize = 0;
    while i < lex.len()
        invariant
            i <= lex@.len(),
            marker == exists|j: int| 0 <= j < i && is_float_marker(#[trigger] lex@[j]),
        decreases lex@.len() - i,
    {
        let b = lex[i];
        if b == 0x2e || b == 0x65 || b == 0x45 {
            marker = true;
        }
        proof {
            if is_float_marker(lex@[i as int]) {
                assert(exists|j: int| 0 <= j < i + 1 && is_float_marker(#[trigger] lex@[j]));
            }
        }
        i = i + 1;
    }
    let mut out: Vec<u8> = Vec::new();
    let mut k: usize = 0;
    while k < lex.len()
        invariant
            k <= lex@.len(),
            out@ == lex@.take(k as int),
        decreases lex@.len() - k,
    {
        out.push(lex[k]);
        k = k + 1;
        proof {
            assert(out@ =~= lex@.take(k as int));
        }
    }
    proof {
        assert(out@ =~= lex@);
    }
    if !marker {
        out.push(0x65);
        out.push(0x30);
        proof {
            assert(out@ =~= lex@ + seq![0x65u8, 0x30u8]);
        }
    }
    out
}

/// Consumes the run of decimal digits at the cursor and reports whether
/// there was at least one.
pub fn skip_digits(reader: &mut Reader) -> (r: Result<bool, Error>)
    requires
        old(reader).wf(),
    ensures
        final(reader).wf(),
        final(reader).bytes@ == old(reader).bytes@,
        old(reader).pos <= final(reader).pos,
        final(reader).pos == old(reader).pos + digits_len_at(old(reader).remaining(), 0),
        final(reader).remaining() == old(reader).remaining().skip(
            digits_len_at(old(reader).remaining(), 0),
        ),
        r == Ok::<bool, Error>(digits_len_at(old(reader).remaining(), 0) > 0),
{
    let ghost s = old(reader).remaining();
    let ghost p0 = old(reader).pos as int;
    let mut found_digit = false;
    loop
        invariant
            reader.wf(),
            reader.bytes@ == old(reader).bytes@,
            p0 <= reader.pos <= reader.bytes@.len(),
            s == reader.bytes@.skip(p0),
            forall|i: int| p0 <= i < reader.pos ==> is_digit(#[trigger] reader.bytes@[i]),
            found_digit == (reader.pos > p0),
        ensures
            reader.wf(),
            reader.bytes@ == old(reader).bytes@,
            p0 <= reader.pos <= reader.bytes@.len(),
            forall|i: int| p0 <= i < reader.pos ==> is_digit(#[trigger] reader.bytes@[i]),
            found_digit == (reader.pos > p0),
            reader.pos == reader.bytes@.len() || !is_digit(reader.bytes@[reader.pos as int]),
        decreases reader.bytes@.len() - reader.pos,
    {
        match reader.peek_byte() {
            Some(b) if 0x30 <= b && b <= 0x39 => {
                let _ = reader.read_byte();
                found_digit = true;
            },
            _ => {
                break;
            },
        }
    }
    proof {
        let k = reader.pos - p0;
        assert forall|i: int| 0 <= i < k implies is_digit(#[trigger] s[i]) by {
            assert(s[i] == reader.bytes@[p0 + i]);
        }
        assert(at(s, k) matches Some(b) ==> !is_digit(b)) by {
            if k < s.len() {
                assert(s[k] == reader.bytes@[p0 + k]);
            }
        }
        lemma_digits_len_exact(s, 0, k);
        assert(reader.remaining() =~= s.skip(k));
    }
    Ok(found_digit)
}

/// Consumes one number literal at the cursor, checking the grammar only.
#[verifier::rlimit(100)]
pub fn skip_number(reader: &mut Reader) -> (r: Result<(), Error>)
    requires
        old(reader).wf(),
    ensures
        final(reader).wf(),
        final(reader).bytes@ == old(reader).bytes@,
        old(reader).pos <= final(reader).pos,
        match spec_scan_number(old(reader).remaining()) {
            Ok(n) => r == Ok::<(), Error>(()) && final(reader).pos == old(reader).pos + n,
            Err(e) => r == Err::<(), Error>(e),
        },
{
    let ghost s = old(reader).remaining();
    let ghost p0 = old(reader).pos as int;
    match reader.peek_byte() {
        None => {
            return Err(Error::UnexpectedEof);
        },
        Some(b) if b == 0x2d => {
            let _ = reader.read_byte();
        },
        _ => {},
    }
    let ghost i0: int = reader.pos - p0;
    let b = match reader.read_byte() {
        Ok(b) => b,
        Err(e) => {
            return Err(e);
        },
    };
    proof {
        assert(s.len() > i0);
        assert(b == s[i0]);
    }
    if b == 0x30 {
        // the integer part is a single zero: a further digit is a
        // grammar error at that digit
        match reader.peek_byte() {
            Some(b2) if 0x30 <= b2 && b2 <= 0x39 => {
                proof {
                    assert(at(s, i0 + 1) == Some(b2));
                }
                return Err(Error::InvalidDigit(b2));
            },
            _ => {},
        }
        proof {
            assert(!(i0 + 1 < s.len() && is_digit(s[i0 + 1])));
            assert(spec_scan_number(s) == spec_scan_frac(s, reader.pos - p0));
        }
    } else if 0x31 <= b && b <= 0x39 {
        let ghost rem_before = reader.remaining();
        let _ = skip_digits(reader);
        proof {
            assert(rem_before =~= s.skip(i0 + 1));
            lemma_digits_skip(s, i0 + 1, rem_before);
            assert(spec_scan_number(s) == spec_scan_frac(s, reader.pos - p0));
        }
    } else {
        return Err(Error::InvalidDigit(b));
    }
    let ghost j1: int = reader.pos - p0;
    // optional fractional part
    let has_frac = match reader.peek_byte() {
        Some(b2) => b2 == 0x2e,
        None => false,
    };
    if has_frac {
        let _ = reader.read_byte();
        let ghost rem_before = reader.remaining();
        let found = match skip_digits(reader) {
            Ok(f) => f,
            Err(e) => {
                return Err(e);
            },
        };
        proof {
            assert(rem_before =~= s.skip(j1 + 1));
            lemma_digits_skip(s, j1 + 1, rem_before);
        }
        if !found {
            match reader.read_byte() {
                Ok(b2) => {
                    proof {
                        assert(at(s, j1 + 1) == Some(b2));
                    }
                    return Err(Error::InvalidDigit(b2));
                },
                Err(e) => {
                    return Err(e);
                },
            }
        }
    }
    let ghost j2: int = reader.pos - p0;
    proof {
        assert(spec_scan_frac(s, j1) == spec_scan_exp(s, j2));
    }
    // optional exponent
    let is_exp = match reader.peek_byte() {
        Some(b2) => b2 == 0x65 || b2 == 0x45,
        None => false,
    };
    if is_exp {
        let _ = reader.read_byte();
        let has_sign = match reader.peek_byte() {
            Some(b2) => b2 == 0x2b || b2 == 0x2d,
            None => false,
        };
        if has_sign {
            let _ = reader.read_byte();
        }
        let ghost k: int = reader.pos - p0;
        let ghost rem_before = reader.remaining();
        let found = match skip_digits(reader) {
            Ok(f) => f,
            Err(e) => {
                return Err(e);
            },
        };
        proof {
            assert(rem_before =~= s.skip(k));
            lemma_digits_skip(s, k, rem_before);
        }
        if !found {
            match reader.read_byte() {
                Ok(b2) => {
                    proof {
                        assert(at(s, k) == Some(b2));
                    }
                    return Err(Error::InvalidDigit(b2));
                },
                Err(e) => {
                    return Err(e);
                },
            }
        }
    }
    Ok(())
}

/// The digit run at an inner index equals the run at the head of the
/// corresponding suffix.
proof fn lemma_digits_skip(s: Seq<u8>, j: int, suffix: Seq<u8>)
    requires
        0 <= j <= s.len(),
        suffix == s.skip(j),
    ensures
        digits_len_at(s, j) == digits_len_at(suffix, 0),
    decreases s.len() - j,
{
    if j < s.len() && is_digit(s[j]) {
        lemma_digits_skip(s, j + 1, s.skip(j + 1));
        assert(suffix[0] == s[j]);
        lemma_digits_shift(s, suffix, j + 1, 1);
    } else {
        if 0 < suffix.len() {
            assert(suffix[0] == s[j]);
        }
    }
}

/// Digit runs agree between a sequence and one of its suffix views.
proof fn lemma_digits_shift(s: Seq<u8>, t: Seq<u8>, j: int, k: int)
    requires
        0 <= k <= j <= s.len(),
        t == s.skip(j - k),
        k <= t.len(),
    ensures
        digits_len_at(s, j) == digits_len_at(t, k),
    decreases s.len() - j,
{
    if j < s.len() && is_digit(s[j]) {
        assert(t[k] == s[j]);
        lemma_digits_shift(s, t, j + 1, k + 1);
    } else {
        if k < t.len() {
            assert(t[k] == s[j]);
        }
    }
}

/// A number lexeme holds only ASCII bytes: sign, digits, point, exponent.
pub proof fn lemma_number_lexeme_ascii(s: Seq<u8>)
    requires
        is_number_lexeme(s),
    ensures
        forall|i: int| 0 <= i < s.len() ==> #[trigger] s[i] < 0x80,
{
    let i0: int = if s.len() > 0 && s[0] == 0x2d {
        1
    } else {
        0
    };
    let n = s.len() as int;
    lemma_digits_len_at(s, i0 + 1);
    let b = s[i0];
    let j1: int = if b == 0x30 {
        i0 + 1
    } else {
        i0 + 1 + digits_len_at(s, i0 + 1)
    };
    assert(spec_scan_frac(s, j1) == Ok::<int, Error>(n));
    let j2: int = if at(s, j1) == Some(0x2eu8) {
        j1 + 1 + digits_len_at(s, j1 + 1)
    } else {
        j1
    };
    if at(s, j1) == Some(0x2eu8) {
        lemma_digits_len_at(s, j1 + 1);
    }
    assert(spec_scan_exp(s, j2) == Ok::<int, Error>(n));
    let k: int = if at(s, j2) == Some(0x65u8) || at(s, j2) == Some(0x45u8) {
        if at(s, j2 + 1) == Some(0x2bu8) || at(s, j2 + 1) == Some(0x2du8) {
            j2 + 2
        } else {
            j2 + 1
        }
    } else {
        j2
    };
    if at(s, j2) == Some(0x65u8) || at(s, j2) == Some(0x45u8) {
        lemma_digits_len_at(s, k);
        assert(k + digits_len_at(s, k) == n);
    } else {
        assert(j2 == n);
    }
    assert forall|i: int| 0 <= i < s.len() implies #[trigger] s[i] < 0x80 by {
        lemma_digits_len_at(s, i0 + 1);
        if at(s, j1) == Some(0x2eu8) {
            lemma_digits_len_at(s, j1 + 1);
        }
        if at(s, j2) == Some(0x65u8) || at(s, j2) == Some(0x45u8) {
            lemma_digits_len_at(s, k);
        }
        if i == 0 && i0 == 1 {
        } else if i0 <= i < j1 {
        } else if j1 < i < j2 {
        } else if j2 < i < k {
        } else if k <= i < n {
        }
    }
}

/// A sequence of ASCII bytes is valid UTF-8.
pub proof fn lemma_ascii_valid_utf8(s: Seq<u8>)
    requires
        forall|i: int| 0 <= i < s.len() ==> #[trigger] s[i] < 0x80,
    ensures
        vstd::utf8::valid_utf8(s),
    decreases s.len(),
{
    if s.len() > 0 {
        assert(vstd::utf8::is_leading_byte_width_1(s[0]));
        assert(vstd::utf8::valid_first_scalar(s));
        assert(vstd::utf8::length_of_first_scalar(s) == 1);
        let rest = vstd::utf8::pop_first_scalar(s);
        assert(rest =~= s.drop_first());
        lemma_ascii_valid_utf8(rest);
    }
}

/// Reads one number literal at the cursor: scans the lexeme, converts it
/// to the nearest double, and rejects a non-finite result.
pub fn read_number(reader: &mut Reader) -> (r: Result<Number, Error>)
    requires
        old(reader).wf(),
    ensures
        final(reader).wf(),
        final(reader).bytes@ == old(reader).bytes@,
        old(reader).pos <= final(reader).pos,
        match spec_parse_number(old(reader).remaining()) {
            Ok((c, rest)) => r matches Ok(n) && n@ == c && n.inv() && final(reader).remaining() == rest,
            Err(e) => r == Err::<Number, Error>(e),
        },
{
    let ghost s = old(reader).remaining();
    let start = reader.pos;
    proof {
        lemma_scan_number_len(s);
    }
    match skip_number(reader) {
        Ok(()) => {},
        Err(e) => {
            return Err(e);
        },
    }
    let lexeme = reader.slice_between(start, reader.pos);
    proof {
        let n = reader.pos - start;
        assert(lexeme@ =~= s.take(n));
        lemma_scan_prefix(s, n);
        assert(is_number_lexeme(lexeme@));
    }
    let adjusted = force_float(lexeme);
    proof {
        lemma_force_float_lexeme(lexeme@);
    }
    match canonical_number(adjusted.as_slice()) {
        Some(text) => {
            proof {
                let n = reader.pos - start;
                assert(reader.remaining() =~= s.skip(n));
            }
            Ok(Number { text })
        },
        None => Err(Error::InfiniteFloat),
    }
}

/// Giving an integer lexeme an exponent of zero yields a lexeme again,
/// now with a float marker.
pub proof fn lemma_force_float_lexeme(s: Seq<u8>)
    requires
        is_number_lexeme(s),
    ensures
        is_number_lexeme(spec_force_float(s)),
        has_float_marker(spec_force_float(s)),
{
    if has_float_marker(s) {
    } else {
        let t = s + seq![0x65u8, 0x30u8];
        let n = s.len() as int;
        let i0: int = if s.len() > 0 && s[0] == 0x2d {
            1
        } else {
            0
        };
        assert(t[0] == s[0]);
        assert(t[n] == 0x65 && t[n + 1] == 0x30);
        assert(has_float_marker(t)) by {
            assert(is_float_marker(t[n]));
        }
        let b = s[i0];
        assert(!is_float_marker(b)) by {
            assert(s[i0] == b);
        }
        // the integer part must reach the end of the original lexeme:
        // any fraction or exponent would carry a float marker
        lemma_digits_len_at(s, i0 + 1);
        let j1: int = if b == 0x30 {
            i0 + 1
        } else {
            i0 + 1 + digits_len_at(s, i0 + 1)
        };
        assert(spec_scan_frac(s, j1) == Ok::<int, Error>(n));
        assert(at(s, j1) != Some(0x2eu8)) by {
            if at(s, j1) == Some(0x2eu8) {
                assert(is_float_marker(s[j1]));
            }
        }
        assert(at(s, j1) != Some(0x65u8) && at(s, j1) != Some(0x45u8)) by {
            if at(s, j1) == Some(0x65u8) || at(s, j1) == Some(0x45u8) {
                assert(is_float_marker(s[j1]));
            }
        }
        assert(spec_scan_exp(s, j1) == Ok::<int, Error>(j1));
        assert(j1 == n);
        // scanning the adjusted lexeme: same sign and integer part, then
        // the appended exponent
        assert(t.len() > i0 && t[i0] == b);
        if b == 0x30 {
        } else {
            assert forall|i: int| i0 + 1 <= i < j1 implies is_digit(#[trigger] t[i]) by {
                assert(t[i] == s[i]);
            }
            assert(!is_digit(t[j1]));
            lemma_digits_len_exact(t, i0 + 1, j1 - (i0 + 1));
        }
        assert(at(t, j1) == Some(0x65u8));
        assert(at(t, j1 + 1) == Some(0x30u8));
        assert(is_digit(0x30u8) && at(t, j1 + 2) is None);
        lemma_digits_len_exact(t, j1 + 1, 1);
        assert(spec_scan_exp(t, j1) == Ok::<int, Error>(j1 + 2));
        assert(at(t, j1) != Some(0x2eu8));
        assert(spec_scan_frac(t, j1) == Ok::<int, Error>(j1 + 2));
        assert(spec_scan_number(t) == Ok::<int, Error>(t.len() as int));
    }
}

} // verus!
