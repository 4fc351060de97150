//! JSON arrays: ordered sequences of values, iteration order equal to
//! construction or parse order.

use vstd::prelude::*;

use crate::error::Error;
use crate::grammar::{skip_ws, spec_parse_array, spec_parse_elems};
use crate::model::{wf_list, Jv};
use crate::parser::Reader;
use crate::{arr_view, lemma_arr_view, read_value, Value};

verus! {

/// An ordered sequence of values.
#[derive(Debug, Default, PartialEq, Eq, PartialOrd, Ord, Hash)]
pub struct Array {
    /// The elements, in order.
    pub inner: Vec<Value>,
}

impl View for Array {
    type V = Seq<Jv>;

    open spec fn view(&self) -> Seq<Jv> {
        arr_view(self.inner@)
    }
}

impl Array {
    /// The empty array.
    pub fn new() -> (r: Array)
        ensures
            r@ == Seq::<Jv>::empty(),
    {
        let r = Array { inner: Vec::new() };
        proof {
            assert(r@ =~= Seq::<Jv>::empty());
        }
        r
    }

    /// An array owning the given elements, in their order.
    pub fn from_values(inner: Vec<Value>) -> (r: Array)
        ensures
            r@ == arr_view(inner@),
    {
        Array { inner }
    }

    /// The elements, in order.
    pub fn into_values(self) -> (r: Vec<Value>)
        ensures
            arr_view(r@) == self@,
    {
        self.inner
    }

    /// The number of elements.
    pub fn len(&self) -> (r: usize)
        ensures
            r == self@.len(),
    {
        proof {
            lemma_arr_view(self.inner@);
        }
        self.inner.len()
    }

    /// The element at an index.
    pub fn get(&self, i: usize) -> (r: &Value)
        requires
            i < self@.len(),
        ensures
            r@ == self@[i as int],
    {
        proof {
            lemma_arr_view(self.inner@);
        }
        &self.inner[i]
    }

    /// Parses a complete JSON document that must be a single array;
    /// whitespace on either side of it is permitted.
    pub fn from_json(bytes: &[u8]) -> (r: Result<Array, Error>)
        ensures
            match spec_parse_array(skip_ws(bytes@)) {
                Ok((jv, rest)) => if skip_ws(rest).len() == 0 {
                    r matches Ok(a) && Jv::Array(a@) == jv
                } else {
                    r == Err::<Array, Error>(Error::TrailingData)
                },
                Err(e) => r == Err::<Array, Error>(e),
            },
            r matches Ok(a) ==> wf_list(a@),
    {
        let mut reader = Reader::new(bytes);
        proof {
            assert(reader.remaining() =~= bytes@);
        }
        reader.skip_whitespace();
        match read_array(&mut reader) {
            Ok(a) => {
                reader.skip_whitespace();
                if reader.at_end() {
                    Ok(a)
                } else {
                    Err(Error::TrailingData)
                }
            },
            Err(e) => Err(e),
        }
    }
}

/// Reads one array at the cursor: a bracket, elements separated by commas,
/// a closing bracket.
pub fn read_array(reader: &mut Reader) -> (r: Result<Array, Error>)
    requires
        old(reader).wf(),
    ensures
        final(reader).wf(),
        final(reader).bytes@ == old(reader).bytes@,
        old(reader).pos <= final(reader).pos,
        match spec_parse_array(old(reader).remaining()) {
            Ok((jv, rest)) => {
                &&& r matches Ok(a) && Jv::Array(a@) == jv
                &&& final(reader).remaining() == rest
            },
            Err(e) => r == Err::<Array, Error>(e),
        },
        r matches Ok(a) ==> wf_list(a@),
    decreases old(reader).remaining().len(), 0int,
{
    let ghost s = old(reader).remaining();
    let b = match reader.read_byte() {
        Ok(b) => b,
        Err(e) => {
            return Err(e);
        },
    };
    if b != 0x5b {
        return Err(Error::ExpectedLeftBracket(b));
    }
    reader.skip_whitespace();
    let ghost s1 = reader.remaining();
    proof {
        assert(s1 == skip_ws(s.drop_first()));
    }
    let is_close = match reader.peek_byte() {
        Some(c) => c == 0x5d,
        None => false,
    };
    if is_close {
        let _ = reader.read_byte();
        let a = Array::new();
        proof {
            assert(reader.remaining() =~= s1.drop_first());
            assert(a@ =~= seq![]);
            assert(wf_list(a@));
        }
        return Ok(a);
    }
    let mut inner: Vec<Value> = Vec::new();
    proof {
        assert(arr_view(inner@) =~= Seq::<Jv>::empty());
        assert(wf_list(arr_view(inner@)));
        assert(spec_parse_array(s) == spec_parse_elems(s1, arr_view(inner@)));
    }
    loop
        invariant
            reader.wf(),
            reader.bytes@ == old(reader).bytes@,
            old(reader).pos < reader.pos,
            s == old(reader).remaining(),
            wf_list(arr_view(inner@)),
            spec_parse_array(s) == spec_parse_elems(reader.remaining(), arr_view(inner@)),
        decreases reader.bytes@.len() - reader.pos,
    {
        let ghost cur = reader.remaining();
        let ghost acc = arr_view(inner@);
        proof {
            assert(cur.len() < s.len());
        }
        let v = match read_value(reader) {
            Ok(v) => v,
            Err(e) => {
                return Err(e);
            },
        };
        let ghost rest = reader.remaining();
        let ghost prev_inner = inner@;
        let ghost vv = v@;
        inner.push(v);
        proof {
            lemma_arr_view(prev_inner);
            lemma_arr_view(inner@);
            assert(inner@ == prev_inner.push(v));
            assert(arr_view(inner@) =~= acc.push(vv));
            crate::model::lemma_wf_list_push(acc, vv);
        }
        let b2 = match reader.read_byte() {
            Ok(b2) => b2,
            Err(e) => {
                return Err(e);
            },
        };
        if b2 == 0x5d {
            let a = Array { inner };
            proof {
                assert(reader.remaining() =~= rest.drop_first());
            }
            return Ok(a);
        } else if b2 == 0x2c {
            proof {
                assert(rest.len() <= cur.len());
                assert(reader.remaining() =~= rest.drop_first());
                assert(spec_parse_elems(cur, acc) == spec_parse_elems(
                    reader.remaining(),
                    arr_view(inner@),
                ));
            }
        } else {
            return Err(Error::ExpectedCommaOrRightBracket(b2));
        }
    }
}

} // verus!
