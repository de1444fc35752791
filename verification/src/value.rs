use vstd::prelude::*;

verus! {

/// Relies on `String`'s `FromIterator<char>`: collecting characters yields
/// the string with exactly those characters, in order.
#[verifier::external_body]
pub(crate) fn string_from_chars(cs: &Vec<char>) -> (r: String)
    ensures
        r@ == cs@,
{
    cs.iter().collect()
}

/// Relies on `char::from_u32`: it returns the character with the given
/// code point, and `None` exactly for surrogate code points and values
/// above the Unicode maximum.
#[verifier::external_body]
pub(crate) fn char_from_u32(u: u32) -> (r: Option<char>)
    ensures
        r matches Some(c) ==> c as u32 == u,
        r is None <==> (0xD800 <= u && u < 0xE000) || u > 0x10FFFF,
{
    char::from_u32(u)
}

/// A JSON datum: a finite, acyclic, order-preserving tree.
///
/// Object members keep exactly the order in which they were inserted or
/// encountered in the input text; duplicate keys are retained as separate
/// entries in that order. A number is carried as its numeric token text,
/// so that the representation chosen by the producer of the value survives
/// a round trip unchanged; `crate::model::is_num_token` says which tokens
/// are well formed.
#[derive(Debug, PartialEq, Eq)]
pub enum Value {
    Null,
    Bool(bool),
    Num(String),
    Str(String),
    Arr(Vec<Value>),
    Obj(Vec<(String, Value)>),
}

/// The mathematical model of a `Value`: the same tree over `Seq<char>`
/// and `Seq` instead of `String` and `Vec`. All contracts of this crate
/// speak of `JVal`s obtained through [`vview`].
pub enum JVal {
    Null,
    Bool(bool),
    Num(Seq<char>),
    Str(Seq<char>),
    Arr(Seq<JVal>),
    Obj(Seq<(Seq<char>, JVal)>),
}

/// The model of a `Value`.
pub open spec fn vview(v: Value) -> JVal
    decreases v,
{
    match v {
        Value::Null => JVal::Null,
        Value::Bool(b) => JVal::Bool(b),
        Value::Num(t) => JVal::Num(t@),
        Value::Str(s) => JVal::Str(s@),
        Value::Arr(es) => JVal::Arr(vview_elems(es@)),
        Value::Obj(ms) => JVal::Obj(vview_membs(ms@)),
    }
}

pub open spec fn vview_elems(es: Seq<Value>) -> Seq<JVal>
    decreases es,
{
    if es.len() == 0 {
        Seq::empty()
    } else {
        seq![vview(es[0])] + vview_elems(es.subrange(1, es.len() as int))
    }
}

pub open spec fn vview_membs(ms: Seq<(String, Value)>) -> Seq<(Seq<char>, JVal)>
    decreases ms,
{
    if ms.len() == 0 {
        Seq::empty()
    } else {
        seq![(ms[0].0@, vview(ms[0].1))] + vview_membs(ms.subrange(1, ms.len() as int))
    }
}

pub broadcast proof fn lemma_vview_elems(es: Seq<Value>)
    ensures
        (#[trigger] vview_elems(es)).len() == es.len(),
        forall|k: int| 0 <= k < es.len() ==> vview_elems(es)[k] == vview(es[k]),
    decreases es,
{
    if es.len() > 0 {
        lemma_vview_elems(es.subrange(1, es.len() as int));
    }
}

pub broadcast proof fn lemma_vview_membs(ms: Seq<(String, Value)>)
    ensures
        (#[trigger] vview_membs(ms)).len() == ms.len(),
        forall|k: int|
            0 <= k < ms.len() ==> vview_membs(ms)[k] == (ms[k].0@, vview(ms[k].1)),
    decreases ms,
{
    if ms.len() > 0 {
        lemma_vview_membs(ms.subrange(1, ms.len() as int));
    }
}

pub proof fn lemma_vview_elems_snoc(es: Seq<Value>, v: Value)
    ensures
        vview_elems(es.push(v)) == vview_elems(es).push(vview(v)),
    decreases es,
{
    if es.len() == 0 {
        assert(es.push(v).subrange(1, 1) =~= Seq::<Value>::empty());
        assert(es.push(v)[0] == v);
        assert(vview_elems(Seq::<Value>::empty()) == Seq::<JVal>::empty());
        assert(es =~= Seq::<Value>::empty());
        assert(vview_elems(es.push(v)) =~= vview_elems(es).push(vview(v)));
    } else {
        let t = es.subrange(1, es.len() as int);
        assert(es.push(v).subrange(1, es.len() as int + 1) =~= t.push(v));
        assert(es.push(v)[0] == es[0]);
        lemma_vview_elems_snoc(t, v);
        assert(vview_elems(es.push(v)) =~= vview_elems(es).push(vview(v)));
    }
}

pub proof fn lemma_vview_membs_snoc(ms: Seq<(String, Value)>, m: (String, Value))
    ensures
        vview_membs(ms.push(m)) == vview_membs(ms).push((m.0@, vview(m.1))),
    decreases ms,
{
    if ms.len() == 0 {
        assert(ms.push(m).subrange(1, 1) =~= Seq::<(String, Value)>::empty());
        assert(ms.push(m)[0] == m);
        assert(vview_membs(Seq::<(String, Value)>::empty()) == Seq::<(Seq<char>, JVal)>::empty());
        assert(ms =~= Seq::<(String, Value)>::empty());
        assert(vview_membs(ms.push(m)) =~= vview_membs(ms).push((m.0@, vview(m.1))));
    } else {
        let t = ms.subrange(1, ms.len() as int);
        assert(ms.push(m).subrange(1, ms.len() as int + 1) =~= t.push(m));
        assert(ms.push(m)[0] == ms[0]);
        lemma_vview_membs_snoc(t, m);
        assert(vview_membs(ms.push(m)) =~= vview_membs(ms).push((m.0@, vview(m.1))));
    }
}

} // verus!
