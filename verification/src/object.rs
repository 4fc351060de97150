//! JSON objects: members keyed and iterated in ascending code-unit order
//! of the key. Parsing keeps the last value written under a repeated key.

use vstd::prelude::*;

use crate::error::Error;
use crate::grammar::{skip_ws, spec_parse_members, spec_parse_object};
use crate::model::{
    entries_sorted, lemma_obj_get_scan, lemma_obj_insert_scan, lemma_obj_remove_scan,
    lemma_sorted_get_none, lemma_units_lt_irrefl, obj_get, obj_insert, obj_remove, units_lt,
    wf_members, Jv,
};
use crate::parser::Reader;
use crate::string::{read_string, JsonString};
use crate::{entries_view, lemma_entries_view, read_value, Value};

verus! {

/// A mapping from string keys to values, held in ascending key order.
#[derive(Debug, Default, PartialEq, Eq, PartialOrd, Ord, Hash)]
pub struct Object {
    /// The members, in ascending key order.
    pub inner: Vec<(JsonString, Value)>,
}

impl View for Object {
    type V = Seq<(Seq<u16>, Jv)>;

    open spec fn view(&self) -> Seq<(Seq<u16>, Jv)> {
        entries_view(self.inner@)
    }
}

impl Object {
    /// The empty object.
    pub fn new() -> (r: Object)
        ensures
            r@ == Seq::<(Seq<u16>, Jv)>::empty(),
    {
        let r = Object { inner: Vec::new() };
        proof {
            assert(r@ =~= Seq::<(Seq<u16>, Jv)>::empty());
        }
        r
    }

    /// Parses a complete JSON document that must be a single object;
    /// whitespace on either side of it is permitted.
    pub fn from_json(bytes: &[u8]) -> (r: Result<Object, Error>)
        ensures
            match spec_parse_object(skip_ws(bytes@)) {
                Ok((jv, rest)) => if skip_ws(rest).len() == 0 {
                    r matches Ok(o) && Jv::Object(o@) == jv
                } else {
                    r == Err::<Object, Error>(Error::TrailingData)
                },
                Err(e) => r == Err::<Object, Error>(e),
            },
            r matches Ok(o) ==> wf_members(o@),
    {
        let mut reader = Reader::new(bytes);
        proof {
            assert(reader.remaining() =~= bytes@);
        }
        reader.skip_whitespace();
        match read_object(&mut reader) {
            Ok(o) => {
                reader.skip_whitespace();
                if reader.at_end() {
                    Ok(o)
                } else {
                    Err(Error::TrailingData)
                }
            },
            Err(e) => Err(e),
        }
    }

    /// True when there are no members.
    pub fn is_empty(&self) -> (r: bool)
        ensures
            r == (self@.len() == 0),
    {
        proof {
            lemma_entries_view(self.inner@);
        }
        self.inner.is_empty()
    }

    /// The number of members.
    pub fn len(&self) -> (r: usize)
        ensures
            r == self@.len(),
    {
        proof {
            lemma_entries_view(self.inner@);
        }
        self.inner.len()
    }

    /// The members, in ascending key order, giving up the object.
    pub fn into_inner(self) -> (r: Vec<(JsonString, Value)>)
        ensures
            entries_view(r@) == self@,
    {
        self.inner
    }

    /// The members, in ascending key order.
    pub fn as_inner(&self) -> (r: &Vec<(JsonString, Value)>)
        ensures
            entries_view(r@) == self@,
    {
        &self.inner
    }

    /// Scans for the key: members strictly below it lie before the index
    /// returned, which carries the first member not below the key.
    fn scan(&self, key: &JsonString) -> (i: usize)
        ensures
            i <= self@.len(),
            forall|j: int| 0 <= j < i ==> units_lt(#[trigger] self@[j].0, key@),
            i < self@.len() ==> !units_lt(self@[i as int].0, key@),
    {
        proof {
            lemma_entries_view(self.inner@);
        }
        let mut i: usize = 0;
        loop
            invariant
                i <= self.inner@.len(),
                self@ == entries_view(self.inner@),
                self@.len() == self.inner@.len(),
                forall|j: int| 0 <= j < self@.len() ==> #[trigger] self@[j]
                    == (self.inner@[j].0@, self.inner@[j].1@),
                forall|j: int| 0 <= j < i ==> units_lt(#[trigger] self@[j].0, key@),
            ensures
                i <= self@.len(),
                forall|j: int| 0 <= j < i ==> units_lt(#[trigger] self@[j].0, key@),
                i < self@.len() ==> !units_lt(self@[i as int].0, key@),
            decreases self.inner@.len() - i,
        {
            if i == self.inner.len() {
                break ;
            }
            let c = self.inner[i].0.cmp_units(key);
            if c == -1 {
                i = i + 1;
            } else {
                break ;
            }
        }
        i
    }

    /// The value under a key, if the key is present.
    pub fn get(&self, key: &JsonString) -> (r: Option<&Value>)
        ensures
            match obj_get(self@, key@) {
                Some(jv) => (r matches Some(v) && v@ == jv),
                None => r is None,
            },
    {
        let ghost es = self@;
        proof {
            lemma_entries_view(self.inner@);
        }
        let mut i: usize = 0;
        loop
            invariant
                i <= self.inner@.len(),
                es == self@,
                self@ == entries_view(self.inner@),
                self@.len() == self.inner@.len(),
                forall|j: int| 0 <= j < self@.len() ==> #[trigger] self@[j]
                    == (self.inner@[j].0@, self.inner@[j].1@),
                forall|j: int| 0 <= j < i ==> (#[trigger] self@[j].0) != key@,
            ensures
                es == self@,
                self@.len() == self.inner@.len(),
                forall|j: int| 0 <= j < self@.len() ==> #[trigger] self@[j]
                    == (self.inner@[j].0@, self.inner@[j].1@),
                i <= self@.len(),
                forall|j: int| 0 <= j < i ==> (#[trigger] self@[j].0) != key@,
                i < self@.len() ==> self@[i as int].0 == key@,
            decreases self.inner@.len() - i,
        {
            if i == self.inner.len() {
                break ;
            }
            let c = self.inner[i].0.cmp_units(key);
            if c == 0 {
                break ;
            }
            i = i + 1;
        }
        proof {
            lemma_obj_get_scan(es, key@, i as int);
        }
        if i < self.inner.len() {
            Some(&self.inner[i].1)
        } else {
            None
        }
    }

    /// True when the key is present.
    pub fn contains_key(&self, key: &JsonString) -> (r: bool)
        ensures
            r == (obj_get(self@, key@) is Some),
    {
        match self.get(key) {
            Some(_) => true,
            None => false,
        }
    }

    /// Binds the key to the value; an existing binding under an equal key
    /// is replaced and, when the members were in ascending key order,
    /// returned.
    pub fn insert(&mut self, key: JsonString, value: Value) -> (r: Option<Value>)
        ensures
            final(self)@ == obj_insert(old(self)@, key@, value@),
            entries_sorted(old(self)@) ==> match obj_get(old(self)@, key@) {
                Some(jv) => (r matches Some(v) && v@ == jv),
                None => r is None,
            },
    {
        let ghost es = self@;
        proof {
            lemma_entries_view(self.inner@);
        }
        let i = self.scan(&key);
        proof {
            lemma_obj_insert_scan(es, key@, value@, i as int);
        }
        let ghost kv = (key@, value@);
        if i == self.inner.len() {
            self.inner.push((key, value));
            proof {
                lemma_entries_view(old(self).inner@);
                lemma_entries_view(self.inner@);
                assert(self@ =~= es.push(kv));
                if entries_sorted(es) {
                    assert forall|j: int| 0 <= j < es.len() implies (#[trigger] es[j].0)
                        != key@ by {
                        lemma_units_lt_irrefl(key@);
                    }
                    lemma_obj_get_scan(es, key@, es.len() as int);
                }
            }
            None
        } else {
            let c = self.inner[i].0.cmp_units(&key);
            if c == 0 {
                let prior = self.inner.remove(i);
                self.inner.insert(i, (key, value));
                proof {
                    lemma_entries_view(old(self).inner@);
                    lemma_entries_view(self.inner@);
                    assert(self@ =~= es.update(i as int, kv));
                    if entries_sorted(es) {
                        assert forall|j: int| 0 <= j < i implies (#[trigger] es[j].0)
                            != key@ by {
                            lemma_units_lt_irrefl(key@);
                        }
                        lemma_obj_get_scan(es, key@, i as int);
                    }
                }
                Some(prior.1)
            } else {
                proof {
                    crate::model::lemma_units_lt_total(key@, es[i as int].0);
                }
                self.inner.insert(i, (key, value));
                proof {
                    lemma_entries_view(old(self).inner@);
                    lemma_entries_view(self.inner@);
                    assert(self@ =~= es.insert(i as int, kv));
                    if entries_sorted(es) {
                        lemma_sorted_get_none(es, key@, i as int);
                    }
                }
                None
            }
        }
    }

    /// Removes the binding under an equal key and returns its value.
    pub fn remove(&mut self, key: &JsonString) -> (r: Option<Value>)
        ensures
            final(self)@ == obj_remove(old(self)@, key@),
            match obj_get(old(self)@, key@) {
                Some(jv) => (r matches Some(v) && v@ == jv),
                None => r is None,
            },
    {
        let ghost es = self@;
        proof {
            lemma_entries_view(self.inner@);
        }
        let mut i: usize = 0;
        loop
            invariant
                i <= self.inner@.len(),
                *self == *old(self),
                es == self@,
                self@ == entries_view(self.inner@),
                self@.len() == self.inner@.len(),
                forall|j: int| 0 <= j < self@.len() ==> #[trigger] self@[j]
                    == (self.inner@[j].0@, self.inner@[j].1@),
                forall|j: int| 0 <= j < i ==> (#[trigger] self@[j].0) != key@,
            ensures
                *self == *old(self),
                es == self@,
                self@.len() == self.inner@.len(),
                forall|j: int| 0 <= j < self@.len() ==> #[trigger] self@[j]
                    == (self.inner@[j].0@, self.inner@[j].1@),
                i <= self@.len(),
                forall|j: int| 0 <= j < i ==> (#[trigger] self@[j].0) != key@,
                i < self@.len() ==> self@[i as int].0 == key@,
            decreases self.inner@.len() - i,
        {
            if i == self.inner.len() {
                break ;
            }
            let c = self.inner[i].0.cmp_units(key);
            if c == 0 {
                break ;
            }
            i = i + 1;
        }
        proof {
            lemma_obj_remove_scan(es, key@, i as int);
            lemma_obj_get_scan(es, key@, i as int);
        }
        if i < self.inner.len() {
            let prior = self.inner.remove(i);
            proof {
                lemma_entries_view(old(self).inner@);
                lemma_entries_view(self.inner@);
                assert(self@ =~= es.remove(i as int));
            }
            Some(prior.1)
        } else {
            None
        }
    }

    /// Removes every member.
    pub fn clear(&mut self)
        ensures
            final(self)@ == Seq::<(Seq<u16>, Jv)>::empty(),
    {
        self.inner.clear();
        proof {
            assert(self@ =~= Seq::<(Seq<u16>, Jv)>::empty());
        }
    }
}

/// Reads one object at the cursor: a brace, members separated by commas,
/// each a string key, a colon and a value, then a closing brace. The last
/// value under a repeated key wins.
pub fn read_object(reader: &mut Reader) -> (r: Result<Object, Error>)
    requires
        old(reader).wf(),
    ensures
        final(reader).wf(),
        final(reader).bytes@ == old(reader).bytes@,
        old(reader).pos <= final(reader).pos,
        match spec_parse_object(old(reader).remaining()) {
            Ok((jv, rest)) => {
                &&& r matches Ok(o) && Jv::Object(o@) == jv
                &&& final(reader).remaining() == rest
            },
            Err(e) => r == Err::<Object, Error>(e),
        },
    r matches Ok(o) ==> wf_members(o@),
    decreases old(reader).remaining().len(), 0int,
{
    let ghost s = old(reader).remaining();
    let b = match reader.read_byte() {
        Ok(b) => b,
        Err(e) => {
            return Err(e);
        },
    };
    if b != 0x7b {
        return Err(Error::ExpectedLeftBrace(b));
    }
    reader.skip_whitespace();
    let ghost s1 = reader.remaining();
    proof {
        assert(s1 == skip_ws(s.drop_first()));
    }
    let is_close = match reader.peek_byte() {
        Some(c) => c == 0x7d,
        None => false,
    };
    if is_close {
        let _ = reader.read_byte();
        let o = Object::new();
        proof {
            assert(reader.remaining() =~= s1.drop_first());
            assert(o@ =~= seq![]);
            assert(wf_members(o@));
        }
        return Ok(o);
    }
    let mut obj = Object::new();
    proof {
        assert(obj@ =~= Seq::<(Seq<u16>, Jv)>::empty());
        assert(wf_members(obj@));
        assert(spec_parse_object(s) == spec_parse_members(s1, obj@));
    }
    loop
        invariant
            reader.wf(),
            reader.bytes@ == old(reader).bytes@,
            old(reader).pos < reader.pos,
            s == old(reader).remaining(),
            wf_members(obj@),
            spec_parse_object(s) == spec_parse_members(reader.remaining(), obj@),
        decreases reader.bytes@.len() - reader.pos,
    {
        let ghost cur = reader.remaining();
        let ghost acc = obj@;
        let key = match read_string(reader) {
            Ok(k) => k,
            Err(e) => {
                return Err(e);
            },
        };
        reader.skip_whitespace();
        let ghost r2 = reader.remaining();
        let b2 = match reader.read_byte() {
            Ok(b2) => b2,
            Err(e) => {
                return Err(e);
            },
        };
        if b2 != 0x3a {
            return Err(Error::ExpectedColon(b2));
        }
        proof {
            assert(r2.len() <= cur.len());
            assert(reader.remaining() =~= r2.drop_first());
        }
        let ghost kview = key@;
        let v = match read_value(reader) {
            Ok(v) => v,
            Err(e) => {
                return Err(e);
            },
        };
        let ghost r3x = reader.remaining();
        let ghost vview = v@;
        let _ = obj.insert(key, v);
        proof {
            assert(obj@ == obj_insert(acc, kview, vview));
            crate::model::lemma_obj_insert_wf(acc, kview, vview);
        }
        reader.skip_whitespace();
        let ghost r3 = reader.remaining();
        proof {
            assert(r3 == skip_ws(r3x));
        }
        let b3 = match reader.read_byte() {
            Ok(b3) => b3,
            Err(e) => {
                return Err(e);
            },
        };
        if b3 == 0x7d {
            proof {
                assert(reader.remaining() =~= r3.drop_first());
            }
            return Ok(obj);
        } else if b3 == 0x2c {
            reader.skip_whitespace();
            proof {
                assert(reader.remaining() == skip_ws(r3.drop_first()));
                assert(reader.remaining().len() < cur.len());
                assert(spec_parse_members(cur, acc) == spec_parse_members(
                    reader.remaining(),
                    obj@,
                ));
            }
        } else {
            return Err(Error::ExpectedCommaOrRightBrace(b3));
        }
    }
}

} // verus!
