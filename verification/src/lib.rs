//! A JSON parser and serializer with lossless strings.
//!
//! Parsing maps bytes to a [`Value`] tree, rejecting every grammar
//! violation with a typed [`Error`]. Strings are sequences of 16-bit code
//! units, so text with unpaired surrogates survives a round trip exactly;
//! numbers are finite doubles; objects keep their members in ascending key
//! order with the last write winning. Serialization is the canonical
//! inverse, and the round-trip laws are proved in [`laws`].

pub mod array;
pub mod error;
pub mod grammar;
pub mod laws;
pub mod model;
pub mod number;
pub mod object;
pub mod parser;
pub mod string;

pub use array::Array;
pub use error::Error;
pub use number::Number;
pub use object::Object;
pub use parser::Reader;
pub use string::JsonString;

use vstd::prelude::*;
use vstd::utf8::{encode_utf8, valid_utf8};

use crate::grammar::{
    lemma_skip_ws, ser_elems, ser_string, ser_value, skip_ws, spec_from_json, spec_parse_value,
};
use crate::model::{wf_list, wf_members, wf_value, Jv};
use crate::number::{lemma_ascii_valid_utf8, lemma_number_lexeme_ascii, read_number};
use crate::string::{
    lemma_ser_string_valid, read_string, utf8_to_string, write_string,
};

verus! {

/// A JSON value: the closed set of six variants.
#[derive(Debug, PartialEq, Eq, PartialOrd, Ord, Hash)]
pub enum Value {
    Null,
    Bool(bool),
    Number(Number),
    String(JsonString),
    Array(Array),
    Object(Object),
}

/// The model of a value.
pub open spec fn value_view(v: Value) -> Jv
    decreases v,
{
    match v {
        Value::Null => Jv::Null,
        Value::Bool(b) => Jv::Bool(b),
        Value::Number(n) => Jv::Number(n@),
        Value::String(s) => Jv::String(s@),
        Value::Array(a) => Jv::Array(arr_view(a.inner@)),
        Value::Object(o) => Jv::Object(entries_view(o.inner@)),
    }
}

/// The models of an element list.
pub open spec fn arr_view(vs: Seq<Value>) -> Seq<Jv>
    decreases vs,
{
    if vs.len() == 0 {
        Seq::empty()
    } else {
        seq![value_view(vs[0])] + arr_view(vs.drop_first())
    }
}

/// The models of a member list.
pub open spec fn entries_view(es: Seq<(JsonString, Value)>) -> Seq<(Seq<u16>, Jv)>
    decreases es,
{
    if es.len() == 0 {
        Seq::empty()
    } else {
        seq![(es[0].0@, value_view(es[0].1))] + entries_view(es.drop_first())
    }
}

impl View for Value {
    type V = Jv;

    open spec fn view(&self) -> Jv {
        value_view(*self)
    }
}

/// An element list models pointwise.
pub proof fn lemma_arr_view(vs: Seq<Value>)
    ensures
        arr_view(vs).len() == vs.len(),
        forall|i: int| 0 <= i < vs.len() ==> #[trigger] arr_view(vs)[i] == vs[i]@,
    decreases vs.len(),
{
    if vs.len() > 0 {
        lemma_arr_view(vs.drop_first());
        assert forall|i: int| 0 <= i < vs.len() implies #[trigger] arr_view(vs)[i] == vs[i]@ by {
            if i > 0 {
                assert(vs.drop_first()[i - 1] == vs[i]);
                assert(arr_view(vs)[i] == arr_view(vs.drop_first())[i - 1]);
            }
        }
    }
}

/// A member list models pointwise.
pub proof fn lemma_entries_view(es: Seq<(JsonString, Value)>)
    ensures
        entries_view(es).len() == es.len(),
        forall|i: int| 0 <= i < es.len() ==> #[trigger] entries_view(es)[i] == (
            es[i].0@,
            es[i].1@,
        ),
    decreases es.len(),
{
    if es.len() > 0 {
        lemma_entries_view(es.drop_first());
        assert forall|i: int| 0 <= i < es.len() implies #[trigger] entries_view(es)[i] == (
            es[i].0@,
            es[i].1@,
        ) by {
            if i > 0 {
                assert(es.drop_first()[i - 1] == es[i]);
                assert(entries_view(es)[i] == entries_view(es.drop_first())[i - 1]);
            }
        }
    }
}

/// Reads one value at the cursor: leading whitespace, a dispatch on the
/// first significant byte, trailing whitespace.
pub fn read_value(reader: &mut Reader) -> (r: Result<Value, Error>)
    requires
        old(reader).wf(),
    ensures
        final(reader).wf(),
        final(reader).bytes@ == old(reader).bytes@,
        old(reader).pos <= final(reader).pos,
        match spec_parse_value(old(reader).remaining()) {
            Ok((jv, rest)) => (r matches Ok(v) && v@ == jv && final(reader).remaining() == rest),
            Err(e) => r == Err::<Value, Error>(e),
        },
        r matches Ok(v) ==> wf_value(v@),
    decreases old(reader).remaining().len(), 1int,
{
    let ghost s = old(reader).remaining();
    reader.skip_whitespace();
    let ghost s1 = reader.remaining();
    proof {
        lemma_skip_ws(s);
        assert(s1 == skip_ws(s));
    }
    let b = match reader.peek_byte() {
        Some(b) => b,
        None => {
            return Err(Error::UnexpectedEof);
        },
    };
    let v: Value = if b == 0x6e {
        let chunk = match reader.read_bytes(4) {
            Ok(c) => c,
            Err(e) => {
                return Err(e);
            },
        };
        proof {
            assert(chunk@[1] == s1[1] && chunk@[2] == s1[2] && chunk@[3] == s1[3]);
        }
        if !(chunk[1] == 0x75 && chunk[2] == 0x6c && chunk[3] == 0x6c) {
            return Err(Error::ExpectedNull);
        }
        Value::Null
    } else if b == 0x66 {
        let chunk = match reader.read_bytes(5) {
            Ok(c) => c,
            Err(e) => {
                return Err(e);
            },
        };
        proof {
            assert(chunk@[1] == s1[1] && chunk@[2] == s1[2] && chunk@[3] == s1[3] && chunk@[4]
                == s1[4]);
        }
        if !(chunk[1] == 0x61 && chunk[2] == 0x6c && chunk[3] == 0x73 && chunk[4] == 0x65) {
            return Err(Error::ExpectedFalse);
        }
        Value::Bool(false)
    } else if b == 0x74 {
        let chunk = match reader.read_bytes(4) {
            Ok(c) => c,
            Err(e) => {
                return Err(e);
            },
        };
        proof {
            assert(chunk@[1] == s1[1] && chunk@[2] == s1[2] && chunk@[3] == s1[3]);
        }
        if !(chunk[1] == 0x72 && chunk[2] == 0x75 && chunk[3] == 0x65) {
            return Err(Error::ExpectedTrue);
        }
        Value::Bool(true)
    } else if b == 0x2d || (0x30 <= b && b <= 0x39) {
        match read_number(reader) {
            Ok(n) => Value::Number(n),
            Err(e) => {
                return Err(e);
            },
        }
    } else if b == 0x22 {
        match read_string(reader) {
            Ok(js) => Value::String(js),
            Err(e) => {
                return Err(e);
            },
        }
    } else if b == 0x5b {
        match crate::array::read_array(reader) {
            Ok(a) => Value::Array(a),
            Err(e) => {
                return Err(e);
            },
        }
    } else if b == 0x7b {
        match crate::object::read_object(reader) {
            Ok(o) => Value::Object(o),
            Err(e) => {
                return Err(e);
            },
        }
    } else {
        return Err(Error::UnexpectedStartOfValue(b));
    };
    let ghost rest = reader.remaining();
    reader.skip_whitespace();
    proof {
        assert(reader.remaining() == skip_ws(rest));
    }
    Ok(v)
}

impl<'a> Reader<'a> {
    /// Parses a whole document as one value: whitespace on either side of
    /// it is permitted, any other unconsumed byte is trailing data.
    pub fn read_all(bytes: &'a [u8]) -> (r: Result<Value, Error>)
        ensures
            match spec_from_json(bytes@) {
                Ok(jv) => (r matches Ok(v) && v@ == jv),
                Err(e) => r == Err::<Value, Error>(e),
            },
            r matches Ok(v) ==> wf_value(v@),
    {
        let mut reader = Reader::new(bytes);
        proof {
            assert(reader.remaining() =~= bytes@);
        }
        match read_value(&mut reader) {
            Ok(v) => {
                if reader.at_end() {
                    Ok(v)
                } else {
                    Err(Error::TrailingData)
                }
            },
            Err(e) => Err(e),
        }
    }
}

/// What remains of an element list's serialization once the first `i`
/// elements are written: a separating comma, the rest, or nothing.
pub open spec fn ser_elems_rest(vs: Seq<Jv>, i: int) -> Seq<u8> {
    if i == 0 {
        ser_elems(vs)
    } else if i < vs.len() {
        seq![0x2cu8] + ser_elems(vs.skip(i))
    } else {
        seq![]
    }
}

/// What remains of a member list's serialization once the first `i`
/// members are written.
pub open spec fn ser_members_rest(es: Seq<(Seq<u16>, Jv)>, i: int) -> Seq<u8> {
    if i == 0 {
        crate::grammar::ser_members(es)
    } else if i < es.len() {
        seq![0x2cu8] + crate::grammar::ser_members(es.skip(i))
    } else {
        seq![]
    }
}

/// Appends the canonical serialization of a value.
pub fn write_value(v: &Value, out: &mut Vec<u8>)
    ensures
        final(out)@ == old(out)@ + ser_value(v@),
    decreases v,
{
    match v {
        Value::Null => {
            out.push(0x6e);
            out.push(0x75);
            out.push(0x6c);
            out.push(0x6c);
            proof {
                assert(out@ =~= old(out)@ + ser_value(v@));
            }
        },
        Value::Bool(b) => {
            if *b {
                out.push(0x74);
                out.push(0x72);
                out.push(0x75);
                out.push(0x65);
            } else {
                out.push(0x66);
                out.push(0x61);
                out.push(0x6c);
                out.push(0x73);
                out.push(0x65);
            }
            proof {
                assert(out@ =~= old(out)@ + ser_value(v@));
            }
        },
        Value::Number(n) => {
            let mut t = n.to_json();
            out.append(&mut t);
            proof {
                assert(out@ =~= old(out)@ + ser_value(v@));
            }
        },
        Value::String(s) => {
            write_string(s, out);
            proof {
                assert(out@ =~= old(out)@ + ser_value(v@));
            }
        },
        Value::Array(a) => {
            let ghost vs = arr_view(a.inner@);
            proof {
                lemma_arr_view(a.inner@);
            }
            out.push(0x5b);
            let ghost base = out@;
            let mut i: usize = 0;
            proof {
                assert(vs.skip(0) =~= vs);
            }
            while i < a.inner.len()
                invariant
                    *v == Value::Array(*a),
                    i <= a.inner@.len(),
                    vs == arr_view(a.inner@),
                    vs.len() == a.inner@.len(),
                    forall|j: int| 0 <= j < vs.len() ==> vs[j] == #[trigger] a.inner@[j]@,
                    out@ + ser_elems_rest(vs, i as int) == base + ser_elems(vs),
                decreases a.inner@.len() - i,
            {
                if i > 0 {
                    out.push(0x2c);
                }
                let ghost mid = out@;
                proof {
                    assert(*v == Value::Array(*a));
                    assert(decreases_to!(*v => v->Array_0));
                    assert(decreases_to!(*a => a.inner));
                    assert(decreases_to!(a.inner => a.inner@));
                    assert(decreases_to!(a.inner@ => a.inner@[i as int]));
                }
                write_value(&a.inner[i], out);
                proof {
                    assert(out@ == mid + ser_value(vs[i as int]));
                    if i as int + 1 < vs.len() {
                        assert(vs.skip(i as int).drop_first() =~= vs.skip(i as int + 1));
                        assert(ser_elems(vs.skip(i as int)) == ser_value(vs[i as int]) + seq![
                            0x2cu8,
                        ] + ser_elems(vs.skip(i as int + 1))) by {
                            assert(vs.skip(i as int)[0] == vs[i as int]);
                            assert(vs.skip(i as int).len() >= 2);
                        }
                    } else {
                        assert(vs.skip(i as int)[0] == vs[i as int]);
                        assert(vs.skip(i as int).len() == 1);
                        assert(ser_elems(vs.skip(i as int)) == ser_value(vs[i as int]));
                    }
                    assert(out@ + ser_elems_rest(vs, i as int + 1) =~= base + ser_elems(vs));
                }
                i = i + 1;
            }
            out.push(0x5d);
            proof {
                assert(out@ =~= old(out)@ + ser_value(v@));
            }
        },
        Value::Object(o) => {
            let ghost es = entries_view(o.inner@);
            proof {
                lemma_entries_view(o.inner@);
            }
            out.push(0x7b);
            let ghost base = out@;
            let mut i: usize = 0;
            proof {
                assert(es.skip(0) =~= es);
            }
            while i < o.inner.len()
                invariant
                    *v == Value::Object(*o),
                    i <= o.inner@.len(),
                    es == entries_view(o.inner@),
                    es.len() == o.inner@.len(),
                    forall|j: int| 0 <= j < es.len() ==> es[j] == (
                        #[trigger] o.inner@[j].0@,
                        o.inner@[j].1@,
                    ),
                    out@ + ser_members_rest(es, i as int) == base + crate::grammar::ser_members(
                        es,
                    ),
                decreases o.inner@.len() - i,
            {
                if i > 0 {
                    out.push(0x2c);
                }
                let ghost mid = out@;
                write_string(&o.inner[i].0, out);
                out.push(0x3a);
                proof {
                    assert(*v == Value::Object(*o));
                    assert(decreases_to!(*v => v->Object_0));
                    assert(decreases_to!(*o => o.inner));
                    assert(decreases_to!(o.inner => o.inner@));
                    assert(decreases_to!(o.inner@ => o.inner@[i as int]));
                    assert(decreases_to!(o.inner@[i as int] => o.inner@[i as int].1));
                }
                write_value(&o.inner[i].1, out);
                proof {
                    assert(out@ == mid + ser_string(es[i as int].0) + seq![0x3au8] + ser_value(
                        es[i as int].1,
                    ));
                    if i as int + 1 < es.len() {
                        assert(es.skip(i as int).drop_first() =~= es.skip(i as int + 1));
                        assert(crate::grammar::ser_members(es.skip(i as int)) == ser_string(
                            es[i as int].0,
                        ) + seq![0x3au8] + ser_value(es[i as int].1) + seq![0x2cu8]
                            + crate::grammar::ser_members(es.skip(i as int + 1))) by {
                            assert(es.skip(i as int)[0] == es[i as int]);
                            assert(es.skip(i as int).len() >= 2);
                        }
                    } else {
                        assert(es.skip(i as int)[0] == es[i as int]);
                        assert(es.skip(i as int).len() == 1);
                        assert(crate::grammar::ser_members(es.skip(i as int)) == ser_string(
                            es[i as int].0,
                        ) + seq![0x3au8] + ser_value(es[i as int].1));
                    }
                    assert(out@ + ser_members_rest(es, i as int + 1) =~= base
                        + crate::grammar::ser_members(es));
                }
                i = i + 1;
            }
            out.push(0x7d);
            proof {
                assert(out@ =~= old(out)@ + ser_value(v@));
            }
        },
    }
}

impl Value {
    /// Parses a complete JSON document: exactly one value, whitespace
    /// around it permitted.
    pub fn from_json(bytes: &[u8]) -> (r: Result<Value, Error>)
        ensures
            match spec_from_json(bytes@) {
                Ok(jv) => (r matches Ok(v) && v@ == jv),
                Err(e) => r == Err::<Value, Error>(e),
            },
            r matches Ok(v) ==> wf_value(v@),
    {
        Reader::read_all(bytes)
    }

    /// The canonical serialization: no insignificant whitespace, object
    /// members in ascending key order, strings escaped losslessly.
    pub fn to_json(&self) -> (r: Vec<u8>)
        ensures
            r@ == ser_value(self@),
    {
        let mut out: Vec<u8> = Vec::new();
        write_value(self, &mut out);
        proof {
            assert(out@ =~= ser_value(self@));
        }
        out
    }

    /// The canonical serialization, as Unicode text.
    pub fn to_string(&self) -> (r: String)
        requires
            wf_value(self@),
        ensures
            encode_utf8(r@) == ser_value(self@),
    {
        let bytes = self.to_json();
        proof {
            lemma_ser_value_valid(self@);
        }
        utf8_to_string(bytes)
    }
}

/// The canonical serialization of a well-formed value is valid UTF-8.
pub proof fn lemma_ser_value_valid(v: Jv)
    requires
        wf_value(v),
    ensures
        valid_utf8(ser_value(v)),
    decreases v, 0int,
{
    match v {
        Jv::Null => {
            lemma_ascii_valid_utf8(ser_value(v));
        },
        Jv::Bool(_) => {
            lemma_ascii_valid_utf8(ser_value(v));
        },
        Jv::Number(t) => {
            lemma_number_lexeme_ascii(t);
            lemma_ascii_valid_utf8(t);
        },
        Jv::String(u) => {
            lemma_ser_string_valid(u);
        },
        Jv::Array(vs) => {
            lemma_ser_elems_valid(vs);
            lemma_ascii_valid_utf8(seq![0x5bu8]);
            lemma_ascii_valid_utf8(seq![0x5du8]);
            vstd::utf8::valid_utf8_concat(seq![0x5bu8], ser_elems(vs));
            vstd::utf8::valid_utf8_concat(seq![0x5bu8] + ser_elems(vs), seq![0x5du8]);
        },
        Jv::Object(es) => {
            lemma_ser_members_valid(es);
            lemma_ascii_valid_utf8(seq![0x7bu8]);
            lemma_ascii_valid_utf8(seq![0x7du8]);
            vstd::utf8::valid_utf8_concat(seq![0x7bu8], crate::grammar::ser_members(es));
            vstd::utf8::valid_utf8_concat(
                seq![0x7bu8] + crate::grammar::ser_members(es),
                seq![0x7du8],
            );
        },
    }
}

/// The serialized element list of a well-formed array is valid UTF-8.
pub proof fn lemma_ser_elems_valid(vs: Seq<Jv>)
    requires
        wf_list(vs),
    ensures
        valid_utf8(ser_elems(vs)),
    decreases vs, 1int,
{
    if vs.len() == 0 {
    } else if vs.len() == 1 {
        lemma_ser_value_valid(vs[0]);
    } else {
        lemma_ser_value_valid(vs[0]);
        lemma_ser_elems_valid(vs.drop_first());
        lemma_ascii_valid_utf8(seq![0x2cu8]);
        vstd::utf8::valid_utf8_concat(ser_value(vs[0]), seq![0x2cu8]);
        vstd::utf8::valid_utf8_concat(ser_value(vs[0]) + seq![0x2cu8], ser_elems(vs.drop_first()));
    }
}

/// The serialized member list of a well-formed object is valid UTF-8.
pub proof fn lemma_ser_members_valid(es: Seq<(Seq<u16>, Jv)>)
    requires
        wf_members(es),
    ensures
        valid_utf8(crate::grammar::ser_members(es)),
    decreases es, 1int,
{
    if es.len() == 0 {
    } else {
        lemma_ser_string_valid(es[0].0);
        lemma_ser_value_valid(es[0].1);
        lemma_ascii_valid_utf8(seq![0x3au8]);
        vstd::utf8::valid_utf8_concat(ser_string(es[0].0), seq![0x3au8]);
        vstd::utf8::valid_utf8_concat(
            ser_string(es[0].0) + seq![0x3au8],
            ser_value(es[0].1),
        );
        if es.len() > 1 {
            lemma_ser_members_valid(es.drop_first());
            lemma_ascii_valid_utf8(seq![0x2cu8]);
            vstd::utf8::valid_utf8_concat(
                ser_string(es[0].0) + seq![0x3au8] + ser_value(es[0].1),
                seq![0x2cu8],
            );
            vstd::utf8::valid_utf8_concat(
                ser_string(es[0].0) + seq![0x3au8] + ser_value(es[0].1) + seq![0x2cu8],
                crate::grammar::ser_members(es.drop_first()),
            );
        }
    }
}

} // verus!
