//! JSON strings: ordered sequences of 16-bit code units.
//!
//! A parsed string is defined entirely by its code units, which may include
//! unpaired surrogates; nothing is dropped or replaced. Conversion to
//! Unicode text fails, returning the value unchanged, whenever an unpaired
//! surrogate is present. Serialization pairs surrogates back into scalars
//! where possible and hex-escapes every unit that cannot combine, so a
//! string reparses to exactly the units it was built from.

use vstd::prelude::*;
use vstd::utf8::{
    encode_scalar, encode_utf8, has_width_3_encoding, is_scalar, pop_first_scalar,
    valid_first_scalar, valid_utf8,
};

use crate::error::Error;
use crate::grammar::{
    escape_unit, hex_digit, hex_escape, hex_val, ser_string, ser_unit, ser_units, skip_ws,
    spec_hex4, spec_parse_string, spec_parse_string_body,
};
use crate::model::{
    combine_surrogates, is_high_surrogate, is_low_surrogate, is_surrogate, lemma_units_lt_prefix,
    units_lt, utf16_decode, utf16_decode_lossy, utf16_encode_chars, utf16_units_of_scalar,
    utf16_well_formed,
};
use crate::number::lemma_ascii_valid_utf8;
use crate::parser::Reader;

verus! {

/// Relies on String::from_utf8: a string holding exactly the given bytes.
#[verifier::external_body]
pub(crate) fn utf8_to_string(v: Vec<u8>) -> (r: String)
    requires
        valid_utf8(v@),
    ensures
        encode_utf8(r@) == v@,
{
    String::from_utf8(v).unwrap()
}

/// Relies on str::encode_utf16: the UTF-16 code units of the text.
#[verifier::external_body]
fn str_to_units(s: &str) -> (r: Vec<u16>)
    ensures
        r@ == utf16_encode_chars(s@),
{
    s.encode_utf16().collect()
}

/// Relies on wtf8::Wtf8Buf::into_string (the receiver built by
/// Wtf8Buf::from_ill_formed_utf16): the conversion succeeds exactly when
/// every surrogate pairs up, and then yields the units' characters.
#[verifier::external_body]
fn units_to_string(units: &[u16]) -> (r: Option<String>)
    ensures
        r matches Some(s) ==> utf16_well_formed(units@) && s@ == utf16_decode(units@),
        r is None ==> !utf16_well_formed(units@),
{
    wtf8::Wtf8Buf::from_ill_formed_utf16(units).into_string().ok()
}

/// Relies on wtf8::Wtf8Buf::into_string_lossy (the receiver built by
/// Wtf8Buf::from_ill_formed_utf16): every unpaired surrogate becomes
/// U+FFFD, everything else keeps its characters.
#[verifier::external_body]
fn units_to_string_lossy(units: &[u16]) -> (r: String)
    ensures
        r@ == utf16_decode_lossy(units@),
{
    wtf8::Wtf8Buf::from_ill_formed_utf16(units).into_string_lossy()
}

/// The numeric value of one hex digit byte, or the error blaming it.
pub fn parse_hex_byte(byte: u8) -> (r: Result<u8, Error>)
    ensures
        match hex_val(byte) {
            Some(v) => r == Ok::<u8, Error>(v),
            None => r == Err::<u8, Error>(Error::InvalidHexChar(byte)),
        },
{
    if 0x30 <= byte && byte <= 0x39 {
        Ok(byte - 0x30)
    } else if 0x61 <= byte && byte <= 0x66 {
        Ok(byte - 0x61 + 10)
    } else if 0x41 <= byte && byte <= 0x46 {
        Ok(byte - 0x41 + 10)
    } else {
        Err(Error::InvalidHexChar(byte))
    }
}

/// The code unit named by four hex digit bytes, or the error blaming the
/// first byte that is not a hex digit.
pub fn parse_hex_escape(bytes: &[u8]) -> (r: Result<u16, Error>)
    requires
        bytes@.len() == 4,
    ensures
        match spec_hex4(bytes@[0], bytes@[1], bytes@[2], bytes@[3]) {
            Ok(w) => r == Ok::<u16, Error>(w),
            Err(e) => r == Err::<u16, Error>(e),
        },
{
    let v0 = match parse_hex_byte(bytes[0]) {
        Ok(v) => v,
        Err(e) => {
            return Err(e);
        },
    };
    let v1 = match parse_hex_byte(bytes[1]) {
        Ok(v) => v,
        Err(e) => {
            return Err(e);
        },
    };
    let v2 = match parse_hex_byte(bytes[2]) {
        Ok(v) => v,
        Err(e) => {
            return Err(e);
        },
    };
    let v3 = match parse_hex_byte(bytes[3]) {
        Ok(v) => v,
        Err(e) => {
            return Err(e);
        },
    };
    Ok(((v0 as u16) << 12) | ((v1 as u16) << 8) | ((v2 as u16) << 4) | (v3 as u16))
}

/// A JSON string: a sequence of 16-bit code units, possibly with unpaired
/// surrogates.
#[derive(Debug, Default, Clone, PartialEq, Eq, PartialOrd, Ord, Hash)]
pub struct JsonString {
    units: Vec<u16>,
}

impl View for JsonString {
    type V = Seq<u16>;

    closed spec fn view(&self) -> Seq<u16> {
        self.units@
    }
}

impl JsonString {
    /// The empty string.
    pub fn new() -> (r: JsonString)
        ensures
            r@ == Seq::<u16>::empty(),
    {
        let r = JsonString { units: Vec::new() };
        proof {
            assert(r@ =~= Seq::<u16>::empty());
        }
        r
    }

    /// Parses a complete JSON document that must be a single string;
    /// whitespace on either side of it is permitted.
    pub fn from_json(bytes: &[u8]) -> (r: Result<JsonString, Error>)
        ensures
            match spec_parse_string(skip_ws(bytes@)) {
                Ok((u, rest)) => if skip_ws(rest).len() == 0 {
                    r matches Ok(js) && js@ == u
                } else {
                    r == Err::<JsonString, Error>(Error::TrailingData)
                },
                Err(e) => r == Err::<JsonString, Error>(e),
            },
    {
        let mut reader = Reader::new(bytes);
        proof {
            assert(reader.remaining() =~= bytes@);
        }
        reader.skip_whitespace();
        match read_string(&mut reader) {
            Ok(js) => {
                reader.skip_whitespace();
                if reader.at_end() {
                    Ok(js)
                } else {
                    Err(Error::TrailingData)
                }
            },
            Err(e) => Err(e),
        }
    }

    /// A string from code units, surrogates allowed anywhere.
    pub fn from_ill_formed_utf16(v: &[u16]) -> (r: JsonString)
        ensures
            r@ == v@,
    {
        let mut units: Vec<u16> = Vec::new();
        let mut i: usize = 0;
        while i < v.len()
            invariant
                i <= v@.len(),
                units@ == v@.take(i as int),
            decreases v@.len() - i,
        {
            units.push(v[i]);
            i = i + 1;
            proof {
                assert(units@ =~= v@.take(i as int));
            }
        }
        proof {
            assert(units@ =~= v@);
        }
        JsonString { units }
    }

    /// A string from Unicode text.
    pub fn from_text(s: &str) -> (r: JsonString)
        ensures
            r@ == utf16_encode_chars(s@),
    {
        JsonString { units: str_to_units(s) }
    }

    /// This string's code units.
    pub fn to_ill_formed_utf16(&self) -> (r: Vec<u16>)
        ensures
            r@ == self@,
    {
        let mut out: Vec<u16> = Vec::new();
        let mut i: usize = 0;
        while i < self.units.len()
            invariant
                i <= self.units@.len(),
                out@ == self.units@.take(i as int),
            decreases self.units@.len() - i,
        {
            out.push(self.units[i]);
            i = i + 1;
            proof {
                assert(out@ =~= self.units@.take(i as int));
            }
        }
        proof {
            assert(out@ =~= self@);
        }
        out
    }

    /// This string as Unicode text; fails, returning the string unchanged,
    /// when an unpaired surrogate is present.
    pub fn into_string(self) -> (r: Result<String, JsonString>)
        ensures
            utf16_well_formed(self@) ==> (r matches Ok(s) && s@ == utf16_decode(self@)),
            !utf16_well_formed(self@) ==> (r matches Err(js) && js@ == self@),
    {
        match units_to_string(self.units.as_slice()) {
            Some(s) => Ok(s),
            None => Err(self),
        }
    }

    /// This string as Unicode text, every unpaired surrogate replaced by
    /// U+FFFD.
    pub fn into_string_lossy(self) -> (r: String)
        ensures
            r@ == utf16_decode_lossy(self@),
    {
        units_to_string_lossy(self.units.as_slice())
    }

    /// This string as Unicode text, without consuming it; nothing when an
    /// unpaired surrogate is present.
    pub fn as_str(&self) -> (r: Option<String>)
        ensures
            utf16_well_formed(self@) ==> (r matches Some(s) && s@ == utf16_decode(self@)),
            !utf16_well_formed(self@) ==> r is None,
    {
        units_to_string(self.units.as_slice())
    }

    /// The number of code units.
    pub fn len(&self) -> (r: usize)
        ensures
            r == self@.len(),
    {
        self.units.len()
    }

    /// Three-way comparison in code-unit order: the order object keys are
    /// kept in.
    pub fn cmp_units(&self, other: &JsonString) -> (r: i8)
        ensures
            r == -1 || r == 0 || r == 1,
            (r == -1) == units_lt(self@, other@),
            (r == 1) == units_lt(other@, self@),
            (r == 0) == (self@ == other@),
    {
        let a = &self.units;
        let b = &other.units;
        let mut i: usize = 0;
        loop
            invariant
                a@ == self@,
                b@ == other@,
                i <= a@.len(),
                i <= b@.len(),
                forall|j: int| 0 <= j < i ==> a@[j] == b@[j],
            decreases a@.len() - i,
        {
            proof {
                lemma_units_lt_prefix(a@, b@, i as int);
                lemma_units_lt_prefix(b@, a@, i as int);
            }
            if i < a.len() && i < b.len() {
                let x = a[i];
                let y = b[i];
                if x < y {
                    proof {
                        assert(a@.skip(i as int)[0] == x && b@.skip(i as int)[0] == y);
                        assert(a@.skip(i as int).len() > 0 && b@.skip(i as int).len() > 0);
                        assert(units_lt(a@.skip(i as int), b@.skip(i as int)));
                        assert(!units_lt(b@.skip(i as int), a@.skip(i as int)));
                        assert(units_lt(self@, other@));
                        assert(!units_lt(other@, self@));
                        assert(a@[i as int] != b@[i as int]);
                        assert(self@ != other@);
                    }
                    return -1;
                } else if y < x {
                    proof {
                        assert(a@.skip(i as int)[0] == x && b@.skip(i as int)[0] == y);
                        assert(a@.skip(i as int).len() > 0 && b@.skip(i as int).len() > 0);
                        assert(units_lt(b@.skip(i as int), a@.skip(i as int)));
                        assert(!units_lt(a@.skip(i as int), b@.skip(i as int)));
                        assert(units_lt(other@, self@));
                        assert(!units_lt(self@, other@));
                        assert(a@[i as int] != b@[i as int]);
                        assert(self@ != other@);
                    }
                    return 1;
                } else {
                    i = i + 1;
                }
            } else if i < b.len() {
                // this string is a proper prefix of the other
                proof {
                    assert(a@.skip(i as int).len() == 0);
                    assert(b@.skip(i as int).len() > 0);
                    assert(a@.len() != b@.len());
                }
                return -1;
            } else if i < a.len() {
                proof {
                    assert(b@.skip(i as int).len() == 0);
                    assert(a@.skip(i as int).len() > 0);
                    assert(a@.len() != b@.len());
                }
                return 1;
            } else {
                proof {
                    assert(a@.skip(i as int).len() == 0);
                    assert(b@.skip(i as int).len() == 0);
                    assert(a@ =~= b@);
                }
                return 0;
            }
        }
    }

    /// The JSON text of this string, quotes and escapes included.
    pub fn to_json(&self) -> (r: Vec<u8>)
        ensures
            r@ == ser_string(self@),
    {
        let mut out: Vec<u8> = Vec::new();
        write_string(self, &mut out);
        proof {
            assert(out@ =~= ser_string(self@));
        }
        out
    }

    /// The JSON text of this string, as Unicode text.
    pub fn to_string(&self) -> (r: String)
        ensures
            encode_utf8(r@) == ser_string(self@),
    {
        let bytes = self.to_json();
        proof {
            lemma_ser_string_valid(self@);
        }
        utf8_to_string(bytes)
    }
}

/// Reads one string literal at the cursor.
pub fn read_string(reader: &mut Reader) -> (r: Result<JsonString, Error>)
    requires
        old(reader).wf(),
    ensures
        final(reader).wf(),
        final(reader).bytes@ == old(reader).bytes@,
        old(reader).pos <= final(reader).pos,
        match spec_parse_string(old(reader).remaining()) {
            Ok((u, rest)) => r matches Ok(js) && js@ == u && final(reader).remaining() == rest,
            Err(e) => r == Err::<JsonString, Error>(e),
        },
{
    let ghost s0 = old(reader).remaining();
    match reader.read_byte() {
        Ok(b) => {
            if b != 0x22 {
                return Err(Error::ExpectedDoubleQuote(b));
            }
        },
        Err(e) => {
            return Err(e);
        },
    }
    let ghost body0 = reader.remaining();
    proof {
        assert(spec_parse_string(s0) == spec_parse_string_body(body0, Seq::<u16>::empty()));
    }
    let mut units: Vec<u16> = Vec::new();
    proof {
        assert(units@ =~= Seq::<u16>::empty());
    }
    loop
        invariant
            reader.wf(),
            reader.bytes@ == old(reader).bytes@,
            old(reader).pos <= reader.pos,
            s0 == old(reader).remaining(),
            spec_parse_string(s0) == spec_parse_string_body(reader.remaining(), units@),
        decreases reader.bytes@.len() - reader.pos,
    {
        let ghost cur = reader.remaining();
        let ghost prev = units@;
        let b = match reader.peek_byte() {
            Some(b) => b,
            None => {
                proof {
                    assert(spec_parse_string_body(cur, prev) == Err::<(Seq<u16>, Seq<u8>), Error>(
                        Error::UnexpectedEof,
                    ));
                }
                return Err(Error::UnexpectedEof);
            },
        };
        if b == 0x5c {
            let _ = reader.read_byte();
            let e = match reader.read_byte() {
                Ok(e) => e,
                Err(err) => {
                    proof {
                        assert(cur.len() < 2);
                        assert(spec_parse_string_body(cur, prev)
                            == Err::<(Seq<u16>, Seq<u8>), Error>(Error::UnexpectedEof));
                    }
                    return Err(err);
                },
            };
            proof {
                assert(e == cur[1]);
            }
            let w: u16 = if e == 0x22 {
                0x22
            } else if e == 0x5c {
                0x5c
            } else if e == 0x2f {
                0x2f
            } else if e == 0x62 {
                0x08
            } else if e == 0x66 {
                0x0c
            } else if e == 0x6e {
                0x0a
            } else if e == 0x72 {
                0x0d
            } else if e == 0x74 {
                0x09
            } else if e == 0x75 {
                let hex = match reader.read_bytes(4) {
                    Ok(hex) => hex,
                    Err(err) => {
                        proof {
                            assert(cur.len() < 6);
                            assert(escape_unit(e) is None);
                            assert(spec_parse_string_body(cur, prev)
                                == Err::<(Seq<u16>, Seq<u8>), Error>(Error::UnexpectedEof));
                        }
                        return Err(err);
                    },
                };
                proof {
                    assert(cur.len() >= 6);
                    assert(hex@[0] == cur[2] && hex@[1] == cur[3] && hex@[2] == cur[4] && hex@[3]
                        == cur[5]);
                }
                let w = match parse_hex_escape(hex.as_slice()) {
                    Ok(w) => w,
                    Err(err) => {
                        proof {
                            assert(escape_unit(e) is None);
                            assert(spec_hex4(cur[2], cur[3], cur[4], cur[5])
                                == Err::<u16, Error>(err));
                            assert(spec_parse_string_body(cur, prev)
                                == Err::<(Seq<u16>, Seq<u8>), Error>(err));
                        }
                        return Err(err);
                    },
                };
                units.push(w);
                proof {
                    assert(escape_unit(e) is None);
                    assert(spec_hex4(cur[2], cur[3], cur[4], cur[5]) == Ok::<u16, Error>(w));
                    assert(reader.remaining() =~= cur.skip(6));
                    assert(units@ == prev.push(w));
                    assert(spec_parse_string_body(cur, prev) == spec_parse_string_body(
                        reader.remaining(),
                        units@,
                    ));
                }
                continue ;
            } else {
                proof {
                    assert(escape_unit(e) is None);
                    assert(spec_parse_string_body(cur, prev) == Err::<(Seq<u16>, Seq<u8>), Error>(
                        Error::UnexpectedEscape(e),
                    ));
                }
                return Err(Error::UnexpectedEscape(e));
            };
            proof {
                assert(escape_unit(e) == Some(w));
            }
            units.push(w);
            proof {
                assert(reader.remaining() =~= cur.skip(2));
                assert(units@ == prev.push(w));
                assert(spec_parse_string_body(cur, prev) == spec_parse_string_body(
                    reader.remaining(),
                    units@,
                ));
            }
        } else if b == 0x22 {
            let _ = reader.read_byte();
            proof {
                assert(spec_parse_string_body(cur, prev) == Ok::<(Seq<u16>, Seq<u8>), Error>(
                    (prev, cur.drop_first()),
                ));
            }
            let r = JsonString { units };
            return Ok(r);
        } else if b < 0x20 {
            proof {
                assert(spec_parse_string_body(cur, prev) == Err::<(Seq<u16>, Seq<u8>), Error>(
                    Error::InvalidControlCharacter(b),
                ));
            }
            return Err(Error::InvalidControlCharacter(b));
        } else {
            let c = match reader.read_char() {
                Ok(c) => c,
                Err(err) => {
                    proof {
                        assert(!valid_first_scalar(cur));
                        assert(spec_parse_string_body(cur, prev)
                            == Err::<(Seq<u16>, Seq<u8>), Error>(Error::InvalidUtf8Char));
                    }
                    return Err(err);
                },
            };
            let v = c as u32;
            proof {
                vstd::utf8::char_is_scalar(c);
                assert(valid_first_scalar(cur));
                assert(reader.remaining() == pop_first_scalar(cur));
            }
            if v <= 0xffff {
                units.push(v as u16);
                proof {
                    assert(units@ =~= prev + utf16_units_of_scalar(v));
                }
            } else {
                let d = v - 0x10000;
                proof {
                    assert(d >> 10 <= 0x3ff && (d & 0x3ff) <= 0x3ff) by (bit_vector)
                        requires
                            d <= 0xfffff,
                    ;
                }
                let hi = 0xd800 + (d >> 10);
                let lo = 0xdc00 + (d & 0x3ff);
                units.push(hi as u16);
                units.push(lo as u16);
                proof {
                    assert(units@ =~= prev + utf16_units_of_scalar(v));
                }
            }
            proof {
                assert(spec_parse_string_body(cur, prev) == spec_parse_string_body(
                    reader.remaining(),
                    units@,
                ));
            }
        }
    }
}

/// Appends the UTF-8 encoding of one scalar value.
fn write_scalar(c: u32, out: &mut Vec<u8>)
    requires
        is_scalar(c),
    ensures
        final(out)@ == old(out)@ + encode_scalar(c),
{
    if c <= 0x7f {
        out.push((c & 0x7F) as u8);
        proof {
            assert(out@ =~= old(out)@ + encode_scalar(c));
        }
    } else if c <= 0x7ff {
        out.push(0xC0 | ((c >> 6) & 0x1F) as u8);
        out.push(0x80 | (c & 0x3F) as u8);
        proof {
            assert(out@ =~= old(out)@ + encode_scalar(c));
        }
    } else if c <= 0xffff {
        proof {
            assert(has_width_3_encoding(c));
        }
        out.push(0xE0 | ((c >> 12) & 0x0F) as u8);
        out.push(0x80 | ((c >> 6) & 0x3F) as u8);
        out.push(0x80 | (c & 0x3F) as u8);
        proof {
            assert(out@ =~= old(out)@ + encode_scalar(c));
        }
    } else {
        out.push(0xF0 | ((c >> 18) & 0x7) as u8);
        out.push(0x80 | ((c >> 12) & 0x3F) as u8);
        out.push(0x80 | ((c >> 6) & 0x3F) as u8);
        out.push(0x80 | (c & 0x3F) as u8);
        proof {
            assert(out@ =~= old(out)@ + encode_scalar(c));
        }
    }
}

/// Appends the lowercase hex digit byte of a value below sixteen.
fn push_hex_digit(v: u8, out: &mut Vec<u8>)
    requires
        v < 16,
    ensures
        final(out)@ == old(out)@ + seq![hex_digit(v)],
{
    if v < 10 {
        out.push(0x30 + v);
    } else {
        out.push(0x57 + v);
    }
    proof {
        assert(out@ =~= old(out)@ + seq![hex_digit(v)]);
    }
}

/// Appends the serialization of one code unit that does not begin a
/// surrogate pair.
fn write_unit(w: u16, out: &mut Vec<u8>)
    ensures
        final(out)@ == old(out)@ + ser_unit(w),
{
    if w == 0x22 {
        out.push(0x5c);
        out.push(0x22);
    } else if w == 0x5c {
        out.push(0x5c);
        out.push(0x5c);
    } else if w == 0x08 {
        out.push(0x5c);
        out.push(0x62);
    } else if w == 0x0c {
        out.push(0x5c);
        out.push(0x66);
    } else if w == 0x0a {
        out.push(0x5c);
        out.push(0x6e);
    } else if w == 0x0d {
        out.push(0x5c);
        out.push(0x72);
    } else if w == 0x09 {
        out.push(0x5c);
        out.push(0x74);
    } else if w < 0x20 || (0xd800 <= w && w <= 0xdfff) {
        out.push(0x5c);
        out.push(0x75);
        proof {
            assert(((w >> 12) & 0xf) < 16 && ((w >> 8) & 0xf) < 16 && ((w >> 4) & 0xf) < 16 && (w
                & 0xf) < 16) by (bit_vector);
        }
        push_hex_digit(((w >> 12) & 0xf) as u8, out);
        push_hex_digit(((w >> 8) & 0xf) as u8, out);
        push_hex_digit(((w >> 4) & 0xf) as u8, out);
        push_hex_digit((w & 0xf) as u8, out);
        proof {
            assert(out@ =~= old(out)@ + hex_escape(w));
        }
        return ;
    } else {
        proof {
            assert(is_scalar(w as u32));
        }
        write_scalar(w as u32, out);
        return ;
    }
    proof {
        assert(out@ =~= old(out)@ + ser_unit(w));
    }
}

/// Appends the JSON text of a string, quotes and escapes included.
pub fn write_string(js: &JsonString, out: &mut Vec<u8>)
    ensures
        final(out)@ == old(out)@ + ser_string(js@),
{
    let u = js.to_ill_formed_utf16();
    let ghost base = out@ + seq![0x22u8];
    out.push(0x22);
    let mut i: usize = 0;
    proof {
        assert(u@.skip(0) =~= u@);
    }
    while i < u.len()
        invariant
            i <= u@.len(),
            u@ == js@,
            out@ + ser_units(u@.skip(i as int)) == base + ser_units(u@),
        decreases u@.len() - i,
    {
        let ghost suffix = u@.skip(i as int);
        let w = u[i];
        proof {
            assert(suffix[0] == u@[i as int]);
        }
        let pair = if 0xd800 <= w && w <= 0xdbff && i + 1 < u.len() {
            let w2 = u[i + 1];
            proof {
                assert(suffix[1] == u@[i + 1]);
            }
            0xdc00 <= w2 && w2 <= 0xdfff
        } else {
            false
        };
        if pair {
            let lo = u[i + 1];
            proof {
                let ghost d: u32 = ((w - 0xd800) as u32);
                assert(d <= 0x3ff);
                assert(d << 10 <= 0xffc00) by (bit_vector)
                    requires
                        d <= 0x3ff,
                ;
            }
            let c: u32 = 0x10000 + (((w - 0xd800) as u32) << 10) + ((lo - 0xdc00) as u32);
            proof {
                assert(c == combine_surrogates(w, lo));
                assert(is_scalar(c));
            }
            write_scalar(c, out);
            i = i + 2;
            proof {
                assert(suffix.skip(2) =~= u@.skip(i as int));
                assert(out@ + ser_units(u@.skip(i as int)) =~= base + ser_units(u@));
            }
        } else {
            write_unit(w, out);
            i = i + 1;
            proof {
                assert(suffix.skip(1) =~= u@.skip(i as int));
                assert(ser_units(suffix) == ser_unit(w) + ser_units(suffix.skip(1)));
                assert(out@ + ser_units(u@.skip(i as int)) =~= base + ser_units(u@));
            }
        }
    }
    out.push(0x22);
    proof {
        assert(ser_units(u@.skip(u@.len() as int)) =~= Seq::<u8>::empty());
        assert(out@ =~= old(out)@ + ser_string(js@));
    }
}

/// The UTF-8 encoding of any scalar is valid UTF-8.
pub proof fn lemma_encode_scalar_valid(c: u32)
    requires
        is_scalar(c),
    ensures
        valid_utf8(encode_scalar(c)),
{
    let ch = c as char;
    assert((ch as u32) == c);
    assert(encode_utf8(seq![ch]) =~= encode_scalar(c)) by {
        assert(seq![ch].drop_first() =~= Seq::<char>::empty());
        assert(encode_utf8(seq![ch]) == encode_scalar(c) + encode_utf8(Seq::<char>::empty()));
        assert(encode_scalar(c) + Seq::<u8>::empty() =~= encode_scalar(c));
    }
    vstd::utf8::encode_utf8_valid_utf8(seq![ch]);
}

/// The serialized body of a string is valid UTF-8.
pub proof fn lemma_ser_units_valid(u: Seq<u16>)
    ensures
        valid_utf8(ser_units(u)),
    decreases u.len(),
{
    if u.len() == 0 {
    } else if is_high_surrogate(u[0]) && u.len() >= 2 && is_low_surrogate(u[1]) {
        let c = combine_surrogates(u[0], u[1]);
        assert(is_scalar(c)) by {
            let hi = u[0];
            let d: u32 = ((hi - 0xd800) as u32);
            assert(d <= 0x3ff);
            assert(d << 10 <= 0xffc00) by (bit_vector)
                requires
                    d <= 0x3ff,
            ;
        }
        lemma_encode_scalar_valid(c);
        lemma_ser_units_valid(u.skip(2));
        vstd::utf8::valid_utf8_concat(encode_scalar(c), ser_units(u.skip(2)));
    } else {
        let w = u[0];
        assert(valid_utf8(ser_unit(w))) by {
            if w == 0x22 || w == 0x5c || w == 0x08 || w == 0x0c || w == 0x0a || w == 0x0d || w
                == 0x09 {
                lemma_ascii_valid_utf8(ser_unit(w));
            } else if w < 0x20 || is_surrogate(w) {
                assert(hex_digit(((w >> 12) & 0xf) as u8) < 0x80 && hex_digit(
                    ((w >> 8) & 0xf) as u8,
                ) < 0x80 && hex_digit(((w >> 4) & 0xf) as u8) < 0x80 && hex_digit((w & 0xf) as u8)
                    < 0x80) by {
                    assert(((w >> 12) & 0xf) < 16 && ((w >> 8) & 0xf) < 16 && ((w >> 4) & 0xf) < 16
                        && (w & 0xf) < 16) by (bit_vector);
                }
                lemma_ascii_valid_utf8(ser_unit(w));
            } else {
                assert(is_scalar(w as u32));
                lemma_encode_scalar_valid(w as u32);
            }
        }
        lemma_ser_units_valid(u.skip(1));
        vstd::utf8::valid_utf8_concat(ser_unit(w), ser_units(u.skip(1)));
    }
}

/// The serialized form of a string is valid UTF-8.
pub proof fn lemma_ser_string_valid(u: Seq<u16>)
    ensures
        valid_utf8(ser_string(u)),
{
    lemma_ser_units_valid(u);
    lemma_ascii_valid_utf8(seq![0x22u8]);
    vstd::utf8::valid_utf8_concat(seq![0x22u8], ser_units(u));
    vstd::utf8::valid_utf8_concat(seq![0x22u8] + ser_units(u), seq![0x22u8]);
    assert(seq![0x22u8] + ser_units(u) + seq![0x22u8] == ser_string(u));
}

} // verus!
