//! The round-trip laws: parsing the canonical serialization of any
//! well-formed value yields that value back, exactly; and serialization is
//! therefore idempotent across a parse.

use vstd::prelude::*;
use vstd::utf8::{
    decode_first_scalar, encode_scalar, encode_utf8, length_of_first_scalar, pop_first_scalar,
    valid_first_scalar, valid_leading_and_continuation_bytes_first_codepoint,
};

use crate::error::Error;
use crate::grammar::{
    at, digits_len_at, escape_unit, hex_digit, hex_escape, hex_val, is_digit, is_ws,
    lemma_digits_len_at, lemma_digits_len_exact, lemma_skip_ws_nonws, ser_elems, ser_members,
    ser_string, ser_unit, ser_units, ser_value, spec_from_json, spec_hex4, spec_parse_elems,
    spec_parse_members, spec_parse_string, spec_parse_string_body, spec_parse_value,
    spec_scan_exp, spec_scan_frac, spec_scan_number,
};
use crate::model::{
    combine_surrogates, entries_sorted, is_high_surrogate, is_low_surrogate, is_surrogate,
    lemma_obj_insert_scan, lemma_units_lt_trans, obj_insert, utf16_units_of_scalar, wf_list,
    wf_members, wf_value, Jv,
};
use crate::number::{number_canonical, spec_force_float};

verus! {

/// Bytes that may follow a serialized value inside a document: nothing, or
/// a separator or closer emitted by the serializer.
pub open spec fn closes_value(rest: Seq<u8>) -> bool {
    rest.len() == 0 || rest[0] == 0x2c || rest[0] == 0x5d || rest[0] == 0x7d
}

/// A number lexeme begins with a minus sign or a digit.
proof fn lemma_number_first_byte(t: Seq<u8>)
    requires
        crate::grammar::is_number_lexeme(t),
    ensures
        t.len() >= 1,
        t[0] == 0x2d || is_digit(t[0]),
{
    if t.len() > 0 && t[0] == 0x2d {
    } else {
        assert(t.len() > 0);
        assert(t[0] == 0x30 || (0x31 <= t[0] <= 0x39));
    }
}

/// The exponent scan does not continue into trailing bytes that cannot
/// extend a lexeme.
proof fn lemma_scan_exp_extend(s: Seq<u8>, rest: Seq<u8>, j: int)
    requires
        0 <= j <= s.len(),
        spec_scan_exp(s, j) == Ok::<int, Error>(s.len() as int),
        rest.len() == 0 || (!is_digit(rest[0]) && rest[0] != 0x2e && rest[0] != 0x65 && rest[0]
            != 0x45),
    ensures
        spec_scan_exp(s + rest, j) == Ok::<int, Error>(s.len() as int),
{
    let t = s + rest;
    let n = s.len() as int;
    if at(s, j) == Some(0x65u8) || at(s, j) == Some(0x45u8) {
        assert(j < n);
        assert(at(t, j) == at(s, j));
        let k: int = if at(s, j + 1) == Some(0x2bu8) || at(s, j + 1) == Some(0x2du8) {
            j + 2
        } else {
            j + 1
        };
        lemma_digits_len_at(s, if k <= n { k } else { n });
        let d = digits_len_at(s, k);
        assert(d > 0 && k + d == n);
        assert(k <= n);
        assert(j + 1 < n);
        assert(at(t, j + 1) == at(s, j + 1));
        assert forall|i: int| k <= i < k + d implies is_digit(#[trigger] t[i]) by {
            assert(t[i] == s[i]);
        }
        assert(at(t, k + d) matches Some(b) ==> !is_digit(b));
        lemma_digits_len_exact(t, k, d);
    } else {
        assert(j == n);
        assert(at(t, n) != Some(0x65u8) && at(t, n) != Some(0x45u8));
    }
}

/// The fraction scan does not continue into trailing bytes that cannot
/// extend a lexeme.
proof fn lemma_scan_frac_extend(s: Seq<u8>, rest: Seq<u8>, j: int)
    requires
        0 <= j <= s.len(),
        spec_scan_frac(s, j) == Ok::<int, Error>(s.len() as int),
        rest.len() == 0 || (!is_digit(rest[0]) && rest[0] != 0x2e && rest[0] != 0x65 && rest[0]
            != 0x45),
    ensures
        spec_scan_frac(s + rest, j) == Ok::<int, Error>(s.len() as int),
{
    let t = s + rest;
    let n = s.len() as int;
    if at(s, j) == Some(0x2eu8) {
        assert(j < n);
        assert(at(t, j) == at(s, j));
        lemma_digits_len_at(s, j + 1);
        let d = digits_len_at(s, j + 1);
        assert(d > 0);
        crate::grammar::lemma_scan_exp_len(s, j + 1 + d);
        assert forall|i: int| j + 1 <= i < j + 1 + d implies is_digit(#[trigger] t[i]) by {
            assert(t[i] == s[i]);
        }
        assert(at(t, j + 1 + d) matches Some(b) ==> !is_digit(b)) by {
            if j + 1 + d < n {
                assert(t[j + 1 + d] == s[j + 1 + d]);
            }
        }
        lemma_digits_len_exact(t, j + 1, d);
        lemma_scan_exp_extend(s, rest, j + 1 + d);
    } else {
        if j < n {
            assert(at(t, j) == at(s, j));
        } else {
            assert(at(t, j) == if rest.len() > 0 {
                Some(rest[0])
            } else {
                None::<u8>
            });
        }
        lemma_scan_exp_extend(s, rest, j);
    }
}

/// A whole lexeme followed by bytes that cannot extend it scans to exactly
/// the lexeme.
proof fn lemma_scan_extend(s: Seq<u8>, rest: Seq<u8>)
    requires
        crate::grammar::is_number_lexeme(s),
        rest.len() == 0 || (!is_digit(rest[0]) && rest[0] != 0x2e && rest[0] != 0x65 && rest[0]
            != 0x45),
    ensures
        spec_scan_number(s + rest) == Ok::<int, Error>(s.len() as int),
{
    let t = s + rest;
    let n = s.len() as int;
    assert(n >= 1);
    assert(t[0] == s[0]);
    let i0: int = if s[0] == 0x2d {
        1
    } else {
        0
    };
    assert(n > i0);
    assert(t.len() > i0 && t[i0] == s[i0]);
    let b = s[i0];
    if b == 0x30 {
        crate::grammar::lemma_scan_frac_len(s, i0 + 1);
        lemma_scan_frac_extend(s, rest, i0 + 1);
    } else {
        assert(0x31 <= b <= 0x39);
        lemma_digits_len_at(s, i0 + 1);
        let d = digits_len_at(s, i0 + 1);
        let j1 = i0 + 1 + d;
        crate::grammar::lemma_scan_frac_len(s, j1);
        assert forall|i: int| i0 + 1 <= i < j1 implies is_digit(#[trigger] t[i]) by {
            assert(t[i] == s[i]);
        }
        assert(at(t, j1) matches Some(bb) ==> !is_digit(bb)) by {
            if j1 < n {
                assert(t[j1] == s[j1]);
            }
        }
        lemma_digits_len_exact(t, i0 + 1, d);
        lemma_scan_frac_extend(s, rest, j1);
    }
}

/// One scalar's UTF-8 encoding, followed by anything, decodes to that
/// scalar first.
proof fn lemma_scalar_chunk(c: u32, rest: Seq<u8>)
    requires
        vstd::utf8::is_scalar(c),
    ensures
        valid_first_scalar(encode_scalar(c) + rest),
        decode_first_scalar(encode_scalar(c) + rest) == c,
        length_of_first_scalar(encode_scalar(c) + rest) == encode_scalar(c).len(),
        pop_first_scalar(encode_scalar(c) + rest) == rest,
        1 <= encode_scalar(c).len() <= 4,
{
    let ch = c as char;
    assert((ch as u32) == c);
    let enc = encode_scalar(c);
    assert(encode_utf8(seq![ch]) =~= enc) by {
        assert(seq![ch].drop_first() =~= Seq::<char>::empty());
        assert(encode_utf8(seq![ch]) == encode_scalar((seq![ch])[0] as u32) + encode_utf8(
            Seq::<char>::empty(),
        ));
        assert(enc + Seq::<u8>::empty() =~= enc);
    }
    vstd::utf8::encode_utf8_first_scalar(seq![ch]);
    assert(valid_first_scalar(enc));
    assert(decode_first_scalar(enc) == c);
    assert(length_of_first_scalar(enc) == enc.len());
    let t = enc + rest;
    assert forall|i: int| 0 <= i < enc.len() implies t[i] == enc[i] by {}
    assert(valid_leading_and_continuation_bytes_first_codepoint(t));
    assert(vstd::utf8::decode_first_codepoint(t) == vstd::utf8::decode_first_codepoint(enc));
    assert(vstd::utf8::length_of_first_codepoint(t) == vstd::utf8::length_of_first_codepoint(enc));
    assert(valid_first_scalar(t));
    assert(pop_first_scalar(t) =~= rest);
}

/// Combining a surrogate pair and splitting the scalar again returns the
/// same two units.
proof fn lemma_pair_units(hi: u16, lo: u16)
    requires
        is_high_surrogate(hi),
        is_low_surrogate(lo),
    ensures
        0x10000 <= combine_surrogates(hi, lo) <= 0x10ffff,
        vstd::utf8::is_scalar(combine_surrogates(hi, lo)),
        utf16_units_of_scalar(combine_surrogates(hi, lo)) == seq![hi, lo],
{
    let d: u32 = (hi - 0xd800) as u32;
    let l: u32 = (lo - 0xdc00) as u32;
    assert(d <= 0x3ff && l <= 0x3ff);
    assert(d << 10 <= 0xffc00) by (bit_vector)
        requires
            d <= 0x3ff,
    ;
    let c = combine_surrogates(hi, lo);
    assert(c == 0x10000 + (d << 10) + l);
    let e: u32 = (c - 0x10000) as u32;
    assert(e == (d << 10) + l);
    assert(e >> 10 == d && (e & 0x3ff) == l) by (bit_vector)
        requires
            d <= 0x3ff,
            l <= 0x3ff,
            e == (d << 10) + l,
    ;
    assert(utf16_units_of_scalar(c) =~= seq![hi, lo]);
}

/// A hex digit byte names the value it was printed from.
proof fn lemma_hex_digit_val(x: u8)
    requires
        x < 16,
    ensures
        hex_val(hex_digit(x)) == Some(x),
{
}

/// The four hex digits of a unit's escape name that unit.
proof fn lemma_hex4_roundtrip(w: u16)
    ensures
        spec_hex4(
            hex_digit(((w >> 12) & 0xf) as u8),
            hex_digit(((w >> 8) & 0xf) as u8),
            hex_digit(((w >> 4) & 0xf) as u8),
            hex_digit((w & 0xf) as u8),
        ) == Ok::<u16, Error>(w),
{
    let x3: u8 = ((w >> 12) & 0xf) as u8;
    let x2: u8 = ((w >> 8) & 0xf) as u8;
    let x1: u8 = ((w >> 4) & 0xf) as u8;
    let x0: u8 = (w & 0xf) as u8;
    assert(x3 < 16 && x2 < 16 && x1 < 16 && x0 < 16) by (bit_vector)
        requires
            x3 == ((w >> 12) & 0xf) as u8,
            x2 == ((w >> 8) & 0xf) as u8,
            x1 == ((w >> 4) & 0xf) as u8,
            x0 == (w & 0xf) as u8,
    ;
    lemma_hex_digit_val(x3);
    lemma_hex_digit_val(x2);
    lemma_hex_digit_val(x1);
    lemma_hex_digit_val(x0);
    assert((((x3 as u16) << 12) | ((x2 as u16) << 8) | ((x1 as u16) << 4) | (x0 as u16)) == w)
        by (bit_vector)
        requires
            x3 == ((w >> 12) & 0xf) as u8,
            x2 == ((w >> 8) & 0xf) as u8,
            x1 == ((w >> 4) & 0xf) as u8,
            x0 == (w & 0xf) as u8,
    ;
}

/// Every string body reparses to exactly the units it was serialized
/// from, leaving the tail after the closing quote untouched.
#[verifier::rlimit(100)]
pub proof fn lemma_parse_ser_units(u: Seq<u16>, acc: Seq<u16>, tail: Seq<u8>)
    ensures
        spec_parse_string_body(ser_units(u) + seq![0x22u8] + tail, acc) == Ok::<
            (Seq<u16>, Seq<u8>),
            Error,
        >((acc + u, tail)),
    decreases u.len(),
{
    let s = ser_units(u) + seq![0x22u8] + tail;
    if u.len() == 0 {
        assert(s =~= seq![0x22u8] + tail);
        assert(s[0] == 0x22);
        assert(s.drop_first() =~= tail);
        assert(acc + u =~= acc);
    } else if is_high_surrogate(u[0]) && u.len() >= 2 && is_low_surrogate(u[1]) {
        let c = combine_surrogates(u[0], u[1]);
        lemma_pair_units(u[0], u[1]);
        let rest2 = ser_units(u.skip(2)) + seq![0x22u8] + tail;
        assert(s =~= encode_scalar(c) + rest2);
        lemma_scalar_chunk(c, rest2);
        let b0 = encode_scalar(c)[0];
        assert(b0 == vstd::utf8::leading_byte_width_4(c));
        assert(b0 >= 0xf0) by {
            let cc = c;
            assert((0xf0u32 | ((cc >> 18) & 0x7)) >= 0xf0 && (0xf0u32 | ((cc >> 18) & 0x7)) <= 0xf7)
                by (bit_vector);
        }
        assert(s[0] == b0);
        assert(s[0] != 0x5c && s[0] != 0x22 && !(s[0] < 0x20));
        lemma_parse_ser_units(u.skip(2), acc + seq![u[0], u[1]], tail);
        assert(pop_first_scalar(s) == rest2);
        assert(acc + utf16_units_of_scalar(decode_first_scalar(s)) == acc + seq![u[0], u[1]]);
        assert(acc + seq![u[0], u[1]] + u.skip(2) =~= acc + u);
    } else {
        let w = u[0];
        let rest1 = ser_units(u.skip(1)) + seq![0x22u8] + tail;
        assert(ser_units(u) == ser_unit(w) + ser_units(u.skip(1)));
        assert(s =~= ser_unit(w) + rest1);
        lemma_parse_ser_units(u.skip(1), acc.push(w), tail);
        if w == 0x22 || w == 0x5c || w == 0x08 || w == 0x0c || w == 0x0a || w == 0x0d || w
            == 0x09 {
            // a short escape
            assert(ser_unit(w).len() == 2 && ser_unit(w)[0] == 0x5c);
            assert(s[0] == 0x5c && s.len() >= 2);
            assert(s[1] == ser_unit(w)[1]);
            assert(escape_unit(s[1]) == Some(w));
            assert(s.skip(2) =~= rest1);
            assert(acc.push(w) + u.skip(1) =~= acc + u);
        } else if w < 0x20 || is_surrogate(w) {
            // a hex escape
            assert(ser_unit(w) == hex_escape(w));
            assert(s[0] == 0x5c && s[1] == 0x75);
            assert(escape_unit(0x75u8) is None);
            assert(s.len() >= 6);
            assert(s[2] == hex_digit(((w >> 12) & 0xf) as u8) && s[3] == hex_digit(
                ((w >> 8) & 0xf) as u8,
            ) && s[4] == hex_digit(((w >> 4) & 0xf) as u8) && s[5] == hex_digit((w & 0xf) as u8));
            lemma_hex4_roundtrip(w);
            assert(spec_hex4(s[2], s[3], s[4], s[5]) == Ok::<u16, Error>(w));
            assert(s.skip(6) =~= rest1);
            assert(acc.push(w) + u.skip(1) =~= acc + u);
        } else {
            // a literal scalar
            let c = w as u32;
            assert(vstd::utf8::is_scalar(c));
            assert(ser_unit(w) == encode_scalar(c));
            lemma_scalar_chunk(c, rest1);
            assert(s[0] == encode_scalar(c)[0]);
            if c <= 0x7f {
                assert(encode_scalar(c)[0] == vstd::utf8::leading_byte_width_1(c));
                assert((c & 0x7f) == c) by (bit_vector)
                    requires
                        c <= 0x7f,
                ;
                assert(s[0] == w);
            } else if c <= 0x7ff {
                assert(encode_scalar(c)[0] == vstd::utf8::leading_byte_width_2(c));
                assert((0xc0u32 | ((c >> 6) & 0x1f)) >= 0xc0) by (bit_vector);
                assert(s[0] >= 0xc0);
            } else {
                assert(vstd::utf8::has_width_3_encoding(c));
                assert(encode_scalar(c)[0] == vstd::utf8::leading_byte_width_3(c));
                assert((0xe0u32 | ((c >> 12) & 0x0f)) >= 0xe0) by (bit_vector);
                assert(s[0] >= 0xe0);
            }
            assert(s[0] != 0x5c && s[0] != 0x22 && !(s[0] < 0x20));
            assert(utf16_units_of_scalar(decode_first_scalar(s)) =~= seq![w]);
            assert(acc + seq![w] =~= acc.push(w));
            assert(pop_first_scalar(s) == rest1);
            assert(acc.push(w) + u.skip(1) =~= acc + u);
        }
    }
}

/// Every serialized string reparses to exactly its units, leaving the tail
/// untouched: nothing is merged, dropped or replaced, unpaired surrogates
/// included.
pub proof fn lemma_parse_ser_string(u: Seq<u16>, tail: Seq<u8>)
    ensures
        spec_parse_string(ser_string(u) + tail) == Ok::<(Seq<u16>, Seq<u8>), Error>((u, tail)),
{
    let s = ser_string(u) + tail;
    assert(s[0] == 0x22);
    assert(s.len() >= 2);
    assert(s.drop_first() =~= ser_units(u) + seq![0x22u8] + tail);
    lemma_parse_ser_units(u, seq![], tail);
    assert(Seq::<u16>::empty() + u =~= u);
    assert(seq![] + u =~= u);
}

/// The first byte a serialized value emits: never whitespace, always the
/// byte its own parse dispatches on.
proof fn lemma_ser_first(v: Jv)
    requires
        wf_value(v),
    ensures
        ser_value(v).len() >= 1,
        !is_ws(ser_value(v)[0]),
        ser_value(v)[0] == 0x6e || ser_value(v)[0] == 0x74 || ser_value(v)[0] == 0x66 || ser_value(
            v,
        )[0] == 0x2d || is_digit(ser_value(v)[0]) || ser_value(v)[0] == 0x22 || ser_value(v)[0]
            == 0x5b || ser_value(v)[0] == 0x7b,
{
    match v {
        Jv::Null => {},
        Jv::Bool(b) => {},
        Jv::Number(t) => {
            lemma_number_first_byte(t);
        },
        Jv::String(_) => {},
        Jv::Array(_) => {},
        Jv::Object(_) => {},
    }
}

/// Well-formed members are pairwise sorted and hold well-formed values.
proof fn lemma_wf_members_facts(es: Seq<(Seq<u16>, Jv)>)
    requires
        wf_members(es),
    ensures
        entries_sorted(es),
        forall|j: int| 0 <= j < es.len() ==> wf_value(#[trigger] es[j].1),
        es.len() >= 1 ==> wf_members(es.drop_first()),
    decreases es.len(),
{
    if es.len() >= 1 {
        let d = es.drop_first();
        lemma_wf_members_facts(d);
        assert forall|i: int, j: int| 0 <= i < j < es.len() implies crate::model::units_lt(
            #[trigger] es[i].0,
            #[trigger] es[j].0,
        ) by {
            if i == 0 {
                if j == 1 {
                    assert(es.len() >= 2);
                } else {
                    assert(d[0] == es[1] && d[j - 1] == es[j]);
                    lemma_units_lt_trans(es[0].0, es[1].0, es[j].0);
                }
            } else {
                assert(d[i - 1] == es[i] && d[j - 1] == es[j]);
            }
        }
        assert forall|j: int| 0 <= j < es.len() implies wf_value(#[trigger] es[j].1) by {
            if j > 0 {
                assert(d[j - 1] == es[j]);
            }
        }
    }
}

/// The empty element list, written once so the empty-array case can name
/// its model.
spec fn empty_elems() -> Seq<Jv> {
    seq![]
}

/// The empty member list, written once so the empty-object case can name
/// its model.
spec fn empty_members() -> Seq<(Seq<u16>, Jv)> {
    seq![]
}

/// Parsing inverts serialization: one serialized value, followed by
/// nothing or by a separator, parses to exactly that value with the
/// trailing bytes untouched.
#[verifier::rlimit(100)]
pub proof fn lemma_parse_ser_value(v: Jv, rest: Seq<u8>)
    requires
        wf_value(v),
        closes_value(rest),
    ensures
        spec_parse_value(ser_value(v) + rest) == Ok::<(Jv, Seq<u8>), Error>((v, rest)),
    decreases v, 0int,
{
    let s = ser_value(v) + rest;
    lemma_ser_first(v);
    assert(s[0] == ser_value(v)[0]);
    lemma_skip_ws_nonws(s);
    lemma_skip_ws_nonws(rest);
    match v {
        Jv::Null => {
            assert(s.len() >= 4 && s[0] == 0x6e && s[1] == 0x75 && s[2] == 0x6c && s[3] == 0x6c);
            assert(s.skip(4) =~= rest);
        },
        Jv::Bool(b) => {
            if b {
                assert(s.len() >= 4 && s[0] == 0x74 && s[1] == 0x72 && s[2] == 0x75 && s[3]
                    == 0x65);
                assert(s.skip(4) =~= rest);
            } else {
                assert(s.len() >= 5 && s[0] == 0x66 && s[1] == 0x61 && s[2] == 0x6c && s[3] == 0x73
                    && s[4] == 0x65);
                assert(s.skip(5) =~= rest);
            }
        },
        Jv::Number(t) => {
            assert(number_canonical(t));
            lemma_number_first_byte(t);
            lemma_scan_extend(t, rest);
            assert(spec_scan_number(s) == Ok::<int, Error>(t.len() as int));
            assert(s.take(t.len() as int) =~= t);
            assert(spec_force_float(t) == t);
            assert(s.skip(t.len() as int) =~= rest);
        },
        Jv::String(u) => {
            assert(s =~= ser_string(u) + rest);
            lemma_parse_ser_string(u, rest);
        },
        Jv::Array(vs) => {
            assert(s[0] == 0x5b);
            let inner = s.drop_first();
            assert(inner =~= ser_elems(vs) + seq![0x5du8] + rest);
            if vs.len() == 0 {
                assert(inner =~= seq![0x5du8] + rest);
                lemma_skip_ws_nonws(inner);
                assert(inner[0] == 0x5d);
                assert(inner.drop_first() =~= rest);
                assert(Jv::Array(empty_elems()) == v) by {
                    assert(empty_elems() =~= vs);
                }
            } else {
                assert(wf_value(vs[0]));
                lemma_ser_first(vs[0]);
                assert(ser_elems(vs)[0] == ser_value(vs[0])[0]) by {
                    if vs.len() == 1 {
                    } else {
                    }
                }
                assert(inner[0] == ser_elems(vs)[0]);
                lemma_skip_ws_nonws(inner);
                assert(inner[0] != 0x5d);
                lemma_parse_ser_elems(vs, seq![], rest);
                assert(seq![] + vs =~= vs);
                assert(Seq::<Jv>::empty() + vs =~= vs);
            }
        },
        Jv::Object(es) => {
            assert(s[0] == 0x7b);
            let inner = s.drop_first();
            assert(inner =~= ser_members(es) + seq![0x7du8] + rest);
            if es.len() == 0 {
                assert(inner =~= seq![0x7du8] + rest);
                lemma_skip_ws_nonws(inner);
                assert(inner[0] == 0x7d);
                assert(inner.drop_first() =~= rest);
                assert(Jv::Object(empty_members()) == v) by {
                    assert(empty_members() =~= es);
                }
            } else {
                assert(ser_members(es)[0] == ser_string(es[0].0)[0]) by {
                    if es.len() == 1 {
                    } else {
                    }
                }
                assert(inner[0] == 0x22);
                lemma_skip_ws_nonws(inner);
                assert(inner[0] != 0x7d);
                lemma_parse_ser_members(es, seq![], rest);
                assert(seq![] + es =~= es);
                assert(Seq::<(Seq<u16>, Jv)>::empty() + es =~= es);
            }
        },
    }
}

/// Parsing inverts serialization across a non-empty element list.
pub proof fn lemma_parse_ser_elems(vs: Seq<Jv>, acc: Seq<Jv>, rest: Seq<u8>)
    requires
        wf_list(vs),
        vs.len() >= 1,
        closes_value(rest),
    ensures
        spec_parse_elems(ser_elems(vs) + seq![0x5du8] + rest, acc) == Ok::<(Jv, Seq<u8>), Error>(
            (Jv::Array(acc + vs), rest),
        ),
    decreases vs, 1int,
{
    let s = ser_elems(vs) + seq![0x5du8] + rest;
    assert(wf_value(vs[0]));
    lemma_ser_first(vs[0]);
    if vs.len() == 1 {
        let r = seq![0x5du8] + rest;
        assert(s =~= ser_value(vs[0]) + r);
        lemma_parse_ser_value(vs[0], r);
        assert(r[0] == 0x5d);
        assert(r.drop_first() =~= rest);
        assert(acc.push(vs[0]) =~= acc + vs);
    } else {
        let r = seq![0x2cu8] + ser_elems(vs.drop_first()) + seq![0x5du8] + rest;
        assert(s =~= ser_value(vs[0]) + r);
        lemma_parse_ser_value(vs[0], r);
        assert(r[0] == 0x2c);
        assert(r.len() <= s.len());
        assert(r.drop_first() =~= ser_elems(vs.drop_first()) + seq![0x5du8] + rest);
        lemma_parse_ser_elems(vs.drop_first(), acc.push(vs[0]), rest);
        assert(acc.push(vs[0]) + vs.drop_first() =~= acc + vs);
    }
}

/// Parsing inverts serialization across a non-empty member list: with keys
/// ascending, each insertion appends, so the members come back in order.
#[verifier::rlimit(100)]
pub proof fn lemma_parse_ser_members(
    es: Seq<(Seq<u16>, Jv)>,
    acc: Seq<(Seq<u16>, Jv)>,
    rest: Seq<u8>,
)
    requires
        wf_members(es),
        es.len() >= 1,
        closes_value(rest),
        forall|i: int, j: int|
            0 <= i < acc.len() && 0 <= j < es.len() ==> crate::model::units_lt(
                #[trigger] acc[i].0,
                #[trigger] es[j].0,
            ),
    ensures
        spec_parse_members(ser_members(es) + seq![0x7du8] + rest, acc) == Ok::<
            (Jv, Seq<u8>),
            Error,
        >((Jv::Object(acc + es), rest)),
    decreases es, 1int,
{
    let s = ser_members(es) + seq![0x7du8] + rest;
    let k = es[0].0;
    let v = es[0].1;
    lemma_wf_members_facts(es);
    assert(wf_value(v));
    lemma_ser_first(v);
    let tail2: Seq<u8> = if es.len() == 1 {
        seq![0x7du8] + rest
    } else {
        seq![0x2cu8] + ser_members(es.drop_first()) + seq![0x7du8] + rest
    };
    let tail1 = seq![0x3au8] + ser_value(v) + tail2;
    assert(s =~= ser_string(k) + tail1);
    lemma_parse_ser_string(k, tail1);
    assert(tail1[0] == 0x3a);
    lemma_skip_ws_nonws(tail1);
    assert(tail1.len() <= s.len());
    assert(tail1.drop_first() =~= ser_value(v) + tail2);
    assert(closes_value(tail2));
    lemma_parse_ser_value(v, tail2);
    lemma_obj_insert_scan(acc, k, v, acc.len() as int);
    assert(obj_insert(acc, k, v) == acc.push((k, v)));
    assert((k, v) == es[0]);
    lemma_skip_ws_nonws(tail2);
    if es.len() == 1 {
        assert(tail2[0] == 0x7d);
        assert(tail2.drop_first() =~= rest);
        assert(acc.push(es[0]) =~= acc + es);
    } else {
        assert(tail2[0] == 0x2c);
        let after = tail2.drop_first();
        assert(after =~= ser_members(es.drop_first()) + seq![0x7du8] + rest);
        assert(ser_members(es.drop_first())[0] == ser_string(es.drop_first()[0].0)[0]) by {
            if es.drop_first().len() == 1 {
            } else {
            }
        }
        assert(after[0] == 0x22);
        lemma_skip_ws_nonws(after);
        assert(after.len() < s.len());
        let acc2 = acc.push(es[0]);
        assert forall|i: int, j: int|
            0 <= i < acc2.len() && 0 <= j < es.drop_first().len() implies crate::model::units_lt(
            #[trigger] acc2[i].0,
            #[trigger] es.drop_first()[j].0,
        ) by {
            assert(es.drop_first()[j] == es[j + 1]);
            if i < acc.len() {
                assert(acc2[i] == acc[i]);
            } else {
                assert(acc2[i] == es[0]);
                assert(crate::model::units_lt(es[0].0, es[j + 1].0));
            }
        }
        lemma_parse_ser_members(es.drop_first(), acc2, rest);
        assert(acc2 + es.drop_first() =~= acc + es);
    }
}

/// Round trip: parsing the canonical serialization of any well-formed
/// value, as a whole document, yields exactly that value. This holds for
/// every value the model admits: strings with unpaired surrogates, empty
/// containers, and arbitrary nesting included.
pub proof fn lemma_round_trip(v: Jv)
    requires
        wf_value(v),
    ensures
        spec_from_json(ser_value(v)) == Ok::<Jv, Error>(v),
{
    lemma_parse_ser_value(v, seq![]);
    assert(ser_value(v) + seq![] =~= ser_value(v));
    assert(closes_value(seq![]));
}

/// Idempotence: serializing what the serialization parses back to gives
/// the same bytes again.
pub proof fn lemma_serialize_idempotent(v: Jv)
    requires
        wf_value(v),
    ensures
        spec_from_json(ser_value(v)) matches Ok(w) && ser_value(w) == ser_value(v),
{
    lemma_round_trip(v);
}

} // verus!
