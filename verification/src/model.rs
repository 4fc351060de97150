//! The mathematical model of a JSON document.
//!
//! A document is modelled by [`Jv`]: numbers are the canonical decimal
//! texts of finite doubles, strings are sequences of 16-bit code units (so
//! that unpaired surrogates are representable), arrays are sequences, and
//! objects are sequences of key/value pairs kept in strictly ascending key
//! order.

use vstd::prelude::*;

verus! {

/// Model of a JSON value. Executable types view into this.
pub enum Jv {
    Null,
    Bool(bool),
    /// The canonical decimal text of a finite double.
    Number(Seq<u8>),
    /// The string's 16-bit code units; surrogates may appear unpaired.
    String(Seq<u16>),
    Array(Seq<Jv>),
    /// Members in strictly ascending code-unit order of the keys.
    Object(Seq<(Seq<u16>, Jv)>),
}

/// Strict lexicographic order on code-unit sequences, the order object
/// keys are kept in.
pub open spec fn units_lt(a: Seq<u16>, b: Seq<u16>) -> bool
    decreases a.len(),
{
    if b.len() == 0 {
        false
    } else if a.len() == 0 {
        true
    } else if a[0] < b[0] {
        true
    } else if a[0] > b[0] {
        false
    } else {
        units_lt(a.drop_first(), b.drop_first())
    }
}

/// Every element of a value sequence is well formed.
pub open spec fn wf_list(vs: Seq<Jv>) -> bool
    decreases vs,
{
    vs.len() == 0 || (wf_value(vs[0]) && wf_list(vs.drop_first()))
}

/// Object members are well formed and their keys strictly ascend.
pub open spec fn wf_members(es: Seq<(Seq<u16>, Jv)>) -> bool
    decreases es,
{
    es.len() == 0 || {
        &&& wf_value(es[0].1)
        &&& (es.len() >= 2 ==> units_lt(es[0].0, es[1].0))
        &&& wf_members(es.drop_first())
    }
}

/// The representation invariant of the model: finite numbers throughout,
/// object keys strictly ascending at every level.
pub open spec fn wf_value(v: Jv) -> bool
    decreases v,
{
    match v {
        Jv::Null => true,
        Jv::Bool(_) => true,
        Jv::Number(t) => crate::number::number_canonical(t),
        Jv::String(_) => true,
        Jv::Array(vs) => wf_list(vs),
        Jv::Object(es) => wf_members(es),
    }
}

/// High (leading) surrogate code unit.
pub open spec fn is_high_surrogate(w: u16) -> bool {
    0xd800 <= w <= 0xdbff
}

/// Low (trailing) surrogate code unit.
pub open spec fn is_low_surrogate(w: u16) -> bool {
    0xdc00 <= w <= 0xdfff
}

/// Any surrogate code unit.
pub open spec fn is_surrogate(w: u16) -> bool {
    0xd800 <= w <= 0xdfff
}

/// The scalar value encoded by a surrogate pair.
pub open spec fn combine_surrogates(hi: u16, lo: u16) -> u32
    recommends
        is_high_surrogate(hi),
        is_low_surrogate(lo),
{
    (0x10000 + (((hi - 0xd800) as u32) << 10) + ((lo - 0xdc00) as u32)) as u32
}

/// The UTF-16 code units of one Unicode scalar value: one unit for the
/// basic plane, a surrogate pair above it.
pub open spec fn utf16_units_of_scalar(c: u32) -> Seq<u16>
    recommends
        vstd::utf8::is_scalar(c),
{
    if c <= 0xffff {
        seq![c as u16]
    } else {
        seq![
            (0xd800 + ((c - 0x10000) as u32 >> 10)) as u16,
            (0xdc00 + (((c - 0x10000) as u32) & 0x3ff)) as u16,
        ]
    }
}

/// True when the code units are valid UTF-16: every surrogate is part of
/// a high/low pair.
pub open spec fn utf16_well_formed(u: Seq<u16>) -> bool
    decreases u.len(),
{
    if u.len() == 0 {
        true
    } else if is_high_surrogate(u[0]) {
        u.len() >= 2 && is_low_surrogate(u[1]) && utf16_well_formed(u.skip(2))
    } else if is_low_surrogate(u[0]) {
        false
    } else {
        utf16_well_formed(u.skip(1))
    }
}

/// The characters denoted by well-formed UTF-16 code units.
pub open spec fn utf16_decode(u: Seq<u16>) -> Seq<char>
    recommends
        utf16_well_formed(u),
    decreases u.len(),
{
    if u.len() == 0 {
        seq![]
    } else if is_high_surrogate(u[0]) {
        if u.len() >= 2 && is_low_surrogate(u[1]) {
            seq![combine_surrogates(u[0], u[1]) as char] + utf16_decode(u.skip(2))
        } else {
            seq![]
        }
    } else {
        seq![(u[0] as u32) as char] + utf16_decode(u.skip(1))
    }
}

/// Like [`utf16_decode`], but an unpaired surrogate becomes U+FFFD.
pub open spec fn utf16_decode_lossy(u: Seq<u16>) -> Seq<char>
    decreases u.len(),
{
    if u.len() == 0 {
        seq![]
    } else if is_high_surrogate(u[0]) {
        if u.len() >= 2 && is_low_surrogate(u[1]) {
            seq![combine_surrogates(u[0], u[1]) as char] + utf16_decode_lossy(u.skip(2))
        } else {
            seq!['\u{fffd}'] + utf16_decode_lossy(u.skip(1))
        }
    } else if is_low_surrogate(u[0]) {
        seq!['\u{fffd}'] + utf16_decode_lossy(u.skip(1))
    } else {
        seq![(u[0] as u32) as char] + utf16_decode_lossy(u.skip(1))
    }
}

/// The UTF-16 code units of a character sequence.
pub open spec fn utf16_encode_chars(cs: Seq<char>) -> Seq<u16>
    decreases cs.len(),
{
    if cs.len() == 0 {
        seq![]
    } else {
        utf16_units_of_scalar(cs[0] as u32) + utf16_encode_chars(cs.drop_first())
    }
}

/// Member insertion, last write wins: replaces the value under an equal
/// key, otherwise places the new member at its ordered position.
pub open spec fn obj_insert(es: Seq<(Seq<u16>, Jv)>, k: Seq<u16>, v: Jv) -> Seq<(Seq<u16>, Jv)>
    decreases es.len(),
{
    if es.len() == 0 {
        seq![(k, v)]
    } else if units_lt(k, es[0].0) {
        seq![(k, v)] + es
    } else if k == es[0].0 {
        seq![(k, v)] + es.drop_first()
    } else {
        seq![es[0]] + obj_insert(es.drop_first(), k, v)
    }
}

/// The value under a key, if the key is present.
pub open spec fn obj_get(es: Seq<(Seq<u16>, Jv)>, k: Seq<u16>) -> Option<Jv>
    decreases es.len(),
{
    if es.len() == 0 {
        None
    } else if es[0].0 == k {
        Some(es[0].1)
    } else {
        obj_get(es.drop_first(), k)
    }
}

/// Member removal: drops the first member under an equal key.
pub open spec fn obj_remove(es: Seq<(Seq<u16>, Jv)>, k: Seq<u16>) -> Seq<(Seq<u16>, Jv)>
    decreases es.len(),
{
    if es.len() == 0 {
        es
    } else if es[0].0 == k {
        es.drop_first()
    } else {
        seq![es[0]] + obj_remove(es.drop_first(), k)
    }
}

/// Keys strictly ascend through the member list.
pub open spec fn entries_sorted(es: Seq<(Seq<u16>, Jv)>) -> bool {
    forall|i: int, j: int| 0 <= i < j < es.len() ==> units_lt(#[trigger] es[i].0, #[trigger] es[j].0)
}

/// Equal code-unit sequences are not ordered either way; this justifies
/// deciding equality by two order checks.
pub proof fn lemma_units_lt_irrefl(a: Seq<u16>)
    ensures
        !units_lt(a, a),
    decreases a.len(),
{
    if a.len() > 0 {
        lemma_units_lt_irrefl(a.drop_first());
    }
}

/// Of two distinct sequences one is strictly below the other.
pub proof fn lemma_units_lt_total(a: Seq<u16>, b: Seq<u16>)
    ensures
        units_lt(a, b) || units_lt(b, a) || a == b,
    decreases a.len(),
{
    if a.len() == 0 || b.len() == 0 {
        if a.len() == b.len() {
            assert(a =~= b);
        }
    } else if a[0] == b[0] {
        lemma_units_lt_total(a.drop_first(), b.drop_first());
        if a.drop_first() == b.drop_first() {
            assert(a.drop_first().len() == a.len() - 1);
            assert(b.drop_first().len() == b.len() - 1);
            assert forall|i: int| 0 <= i < a.len() implies a[i] == b[i] by {
                if i > 0 {
                    assert(a[i] == a.drop_first()[i - 1]);
                    assert(b[i] == b.drop_first()[i - 1]);
                }
            }
            assert(a =~= b);
        }
    }
}

/// The order of two sequences with a common prefix is decided past it.
pub proof fn lemma_units_lt_prefix(a: Seq<u16>, b: Seq<u16>, i: int)
    requires
        0 <= i <= a.len(),
        i <= b.len(),
        forall|j: int| 0 <= j < i ==> a[j] == b[j],
    ensures
        units_lt(a, b) == units_lt(a.skip(i), b.skip(i)),
    decreases i,
{
    if i == 0 {
        assert(a.skip(0) =~= a);
        assert(b.skip(0) =~= b);
    } else {
        let a1 = a.drop_first();
        let b1 = b.drop_first();
        assert(a[0] == b[0]);
        assert forall|j: int| 0 <= j < i - 1 implies a1[j] == b1[j] by {
            assert(a1[j] == a[j + 1] && b1[j] == b[j + 1]);
        }
        lemma_units_lt_prefix(a1, b1, i - 1);
        assert(a1.skip(i - 1) =~= a.skip(i));
        assert(b1.skip(i - 1) =~= b.skip(i));
    }
}

/// The strict key order is transitive.
pub proof fn lemma_units_lt_trans(a: Seq<u16>, b: Seq<u16>, c: Seq<u16>)
    requires
        units_lt(a, b),
        units_lt(b, c),
    ensures
        units_lt(a, c),
    decreases a.len(),
{
    if a.len() > 0 && b.len() > 0 && c.len() > 0 && a[0] == b[0] && b[0] == c[0] {
        lemma_units_lt_trans(a.drop_first(), b.drop_first(), c.drop_first());
    }
}

} // verus!

verus! {

/// The strict key order is asymmetric.
pub proof fn lemma_units_lt_asym(a: Seq<u16>, b: Seq<u16>)
    requires
        units_lt(a, b),
    ensures
        !units_lt(b, a),
{
    if units_lt(b, a) {
        lemma_units_lt_trans(a, b, a);
        lemma_units_lt_irrefl(a);
    }
}

/// Keys of a sorted member list ascend between any two indices.
pub proof fn lemma_sorted_get_none(es: Seq<(Seq<u16>, Jv)>, k: Seq<u16>, i: int)
    requires
        entries_sorted(es),
        0 <= i <= es.len(),
        forall|j: int| 0 <= j < i ==> units_lt(#[trigger] es[j].0, k),
        i < es.len() ==> units_lt(k, es[i].0),
    ensures
        i < es.len() ==> obj_get(es, k) is None,
        i == es.len() ==> obj_get(es, k) is None,
    decreases es.len(),
{
    if es.len() > 0 {
        assert(es[0].0 != k) by {
            if i > 0 {
                lemma_units_lt_irrefl(es[0].0);
            } else {
                lemma_units_lt_irrefl(k);
            }
        }
        let d = es.drop_first();
        assert forall|a: int, b: int| 0 <= a < b < d.len() implies units_lt(
            #[trigger] d[a].0,
            #[trigger] d[b].0,
        ) by {
            assert(d[a] == es[a + 1] && d[b] == es[b + 1]);
        }
        if i > 0 {
            assert forall|j: int| 0 <= j < i - 1 implies units_lt(#[trigger] d[j].0, k) by {
                assert(d[j] == es[j + 1]);
            }
            assert(i - 1 < d.len() ==> units_lt(k, d[i - 1].0)) by {
                if i - 1 < d.len() {
                    assert(d[i - 1] == es[i]);
                }
            }
            lemma_sorted_get_none(d, k, i - 1);
        } else {
            // k is below every key
            assert forall|j: int| 0 <= j < 0 implies units_lt(#[trigger] d[j].0, k) by {}
            assert(0 < d.len() ==> units_lt(k, d[0].0)) by {
                if 0 < d.len() {
                    assert(d[0] == es[1]);
                    lemma_units_lt_trans(k, es[0].0, es[1].0);
                }
            }
            lemma_sorted_get_none(d, k, 0);
        }
    }
}

/// Where a scan of the member list stopped tells what insertion does:
/// append at the end, replace an equal key, or splice in before a greater
/// key.
pub proof fn lemma_obj_insert_scan(es: Seq<(Seq<u16>, Jv)>, k: Seq<u16>, v: Jv, i: int)
    requires
        0 <= i <= es.len(),
        forall|j: int| 0 <= j < i ==> units_lt(#[trigger] es[j].0, k),
    ensures
        i == es.len() ==> obj_insert(es, k, v) == es.push((k, v)),
        i < es.len() && es[i].0 == k ==> obj_insert(es, k, v) == es.update(i, (k, v)),
        i < es.len() && units_lt(k, es[i].0) ==> obj_insert(es, k, v) == es.insert(i, (k, v)),
    decreases i,
{
    if i == 0 {
        if es.len() == 0 {
            assert(obj_insert(es, k, v) =~= es.push((k, v)));
        } else {
            if es[0].0 == k {
                lemma_units_lt_irrefl(k);
                assert(seq![(k, v)] + es.drop_first() =~= es.update(0, (k, v)));
            }
            if units_lt(k, es[0].0) {
                assert(seq![(k, v)] + es =~= es.insert(0, (k, v)));
            }
        }
    } else {
        assert(units_lt(es[0].0, k));
        lemma_units_lt_asym(es[0].0, k);
        lemma_units_lt_irrefl(k);
        assert(es[0].0 != k);
        let d = es.drop_first();
        assert forall|j: int| 0 <= j < i - 1 implies units_lt(#[trigger] d[j].0, k) by {
            assert(d[j] == es[j + 1]);
        }
        lemma_obj_insert_scan(d, k, v, i - 1);
        assert(obj_insert(es, k, v) == seq![es[0]] + obj_insert(d, k, v));
        if i == es.len() {
            assert(seq![es[0]] + d.push((k, v)) =~= es.push((k, v)));
        } else {
            assert(d[i - 1] == es[i]);
            if es[i].0 == k {
                assert(seq![es[0]] + d.update(i - 1, (k, v)) =~= es.update(i, (k, v)));
            }
            if units_lt(k, es[i].0) {
                assert(seq![es[0]] + d.insert(i - 1, (k, v)) =~= es.insert(i, (k, v)));
            }
        }
    }
}

/// Where a scan for an equal key stopped tells what lookup returns.
pub proof fn lemma_obj_get_scan(es: Seq<(Seq<u16>, Jv)>, k: Seq<u16>, i: int)
    requires
        0 <= i <= es.len(),
        forall|j: int| 0 <= j < i ==> (#[trigger] es[j].0) != k,
    ensures
        i == es.len() ==> obj_get(es, k) is None,
        i < es.len() && es[i].0 == k ==> obj_get(es, k) == Some(es[i].1),
    decreases i,
{
    if i > 0 {
        let d = es.drop_first();
        assert forall|j: int| 0 <= j < i - 1 implies (#[trigger] d[j].0) != k by {
            assert(d[j] == es[j + 1]);
        }
        lemma_obj_get_scan(d, k, i - 1);
        if i < es.len() {
            assert(d[i - 1] == es[i]);
        }
    }
}

/// Where a scan for an equal key stopped tells what removal does.
pub proof fn lemma_obj_remove_scan(es: Seq<(Seq<u16>, Jv)>, k: Seq<u16>, i: int)
    requires
        0 <= i <= es.len(),
        forall|j: int| 0 <= j < i ==> (#[trigger] es[j].0) != k,
    ensures
        i == es.len() ==> obj_remove(es, k) == es,
        i < es.len() && es[i].0 == k ==> obj_remove(es, k) == es.remove(i),
    decreases i,
{
    if i == 0 {
        if es.len() > 0 && es[0].0 == k {
            assert(es.drop_first() =~= es.remove(0));
        }
    } else {
        let d = es.drop_first();
        assert forall|j: int| 0 <= j < i - 1 implies (#[trigger] d[j].0) != k by {
            assert(d[j] == es[j + 1]);
        }
        lemma_obj_remove_scan(d, k, i - 1);
        if i == es.len() {
            assert(seq![es[0]] + d =~= es);
        } else {
            assert(d[i - 1] == es[i]);
            if es[i].0 == k {
                assert(seq![es[0]] + d.remove(i - 1) =~= es.remove(i));
            }
        }
    }
}

} // verus!

verus! {

/// Appending a well-formed value keeps an element list well formed.
pub proof fn lemma_wf_list_push(vs: Seq<Jv>, v: Jv)
    requires
        wf_list(vs),
        wf_value(v),
    ensures
        wf_list(vs.push(v)),
    decreases vs.len(),
{
    if vs.len() == 0 {
        assert(vs.push(v) =~= seq![v]);
        assert(seq![v].drop_first() =~= Seq::<Jv>::empty());
        assert(wf_list(Seq::<Jv>::empty()));
        assert(wf_list(seq![v]));
    } else {
        assert(vs.push(v)[0] == vs[0]);
        assert(vs.push(v).drop_first() =~= vs.drop_first().push(v));
        lemma_wf_list_push(vs.drop_first(), v);
    }
}

/// Insertion keeps a member list well formed: the new member lands at its
/// ordered place or replaces an equal key.
pub proof fn lemma_obj_insert_wf(es: Seq<(Seq<u16>, Jv)>, k: Seq<u16>, v: Jv)
    requires
        wf_members(es),
        wf_value(v),
    ensures
        wf_members(obj_insert(es, k, v)),
    decreases es.len(),
{
    let r = obj_insert(es, k, v);
    if es.len() == 0 {
        assert(r =~= seq![(k, v)]);
        assert(seq![(k, v)].drop_first() =~= Seq::<(Seq<u16>, Jv)>::empty());
        assert(wf_members(Seq::<(Seq<u16>, Jv)>::empty()));
        assert(wf_members(seq![(k, v)]));
    } else if units_lt(k, es[0].0) {
        assert(r == seq![(k, v)] + es);
        assert(r[0] == (k, v) && r[1] == es[0]);
        assert(r.drop_first() =~= es);
        assert(wf_members(r));
    } else if k == es[0].0 {
        assert(r == seq![(k, v)] + es.drop_first());
        assert(r[0] == (k, v));
        if es.len() >= 2 {
            assert(r[1] == es.drop_first()[0]);
            assert(es.drop_first()[0] == es[1]);
            assert(units_lt(k, es[1].0));
        }
        assert(r.drop_first() =~= es.drop_first());
        assert(wf_members(r));
    } else {
        lemma_units_lt_total(k, es[0].0);
        assert(units_lt(es[0].0, k));
        let d = es.drop_first();
        lemma_obj_insert_wf(d, k, v);
        let x = obj_insert(d, k, v);
        assert(r == seq![es[0]] + x);
        assert(r[0] == es[0]);
        assert(r.drop_first() =~= x);
        // the head of the inserted tail is the old head or the new member
        assert(x.len() >= 1);
        assert(units_lt(es[0].0, x[0].0)) by {
            if d.len() == 0 {
                assert(x[0] == (k, v));
            } else if units_lt(k, d[0].0) {
                assert(x[0] == (k, v));
            } else if k == d[0].0 {
                assert(x[0] == (k, v));
                assert(d[0] == es[1]);
                assert(units_lt(es[0].0, es[1].0));
            } else {
                assert(x[0] == d[0]);
                assert(d[0] == es[1]);
                assert(units_lt(es[0].0, es[1].0));
            }
        }
        assert(r.len() >= 2 ==> units_lt(r[0].0, r[1].0)) by {
            assert(r[1] == x[0]);
        }
        assert(wf_members(r));
    }
}

} // verus!
