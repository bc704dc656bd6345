//! The abstract tree values the host hands the library, and path segments.

use vstd::prelude::*;

verus! {

/// One step of a path: an object property name or an array position.
#[derive(Debug, Clone, PartialEq, Eq)]
pub enum Segment {
    Text(String),
    Numeric(usize),
}

/// Mathematical model of a [`Segment`].
pub enum SegV {
    Text(Seq<char>),
    Numeric(int),
}

impl View for Segment {
    type V = SegV;

    open spec fn view(&self) -> SegV {
        match self {
            Segment::Text(s) => SegV::Text(s@),
            Segment::Numeric(n) => SegV::Numeric(*n as int),
        }
    }
}

impl Segment {
    /// Clone that provably keeps the segment's value.
    pub fn dup(&self) -> (r: Segment)
        ensures
            r == *self,
    {
        match self {
            Segment::Text(s) => Segment::Text(s.clone()),
            Segment::Numeric(n) => Segment::Numeric(*n),
        }
    }
}

/// View of a whole path.
pub open spec fn segs_view(s: Seq<Segment>) -> Seq<SegV> {
    s.map_values(|x: Segment| x@)
}

/// A snapshot value as the host's adaptation layer presents it: a tagged,
/// dynamically typed tree.  Non-textual scalars arrive carrying an opaque
/// textual rendering chosen by the host; callables are opaque.
#[derive(Debug, PartialEq, Eq)]
pub enum Value {
    /// An absent / omitted value.
    Absent,
    /// A non-textual scalar, carried by the host's textual rendering of it.
    Scalar(String),
    /// A host-supplied callable; opaque to the library.
    Callable,
    /// A textual scalar.
    Text(String),
    /// An ordered list.
    List(Vec<Value>),
    /// A keyed structure, in the host's deterministic enumeration order.
    Object(Vec<(String, Value)>),
}

/// Mathematical model of a [`Value`].
pub enum ValueV {
    Absent,
    Scalar(Seq<char>),
    Callable,
    Text(Seq<char>),
    List(Seq<ValueV>),
    Object(Seq<(Seq<char>, ValueV)>),
}

/// Model of a value.
pub open spec fn vv(v: Value) -> ValueV
    decreases v,
{
    match v {
        Value::Absent => ValueV::Absent,
        Value::Scalar(s) => ValueV::Scalar(s@),
        Value::Callable => ValueV::Callable,
        Value::Text(s) => ValueV::Text(s@),
        Value::List(items) => ValueV::List(vv_list(items@)),
        Value::Object(entries) => ValueV::Object(vv_entries(entries@)),
    }
}

/// Model of a list's items.
pub open spec fn vv_list(items: Seq<Value>) -> Seq<ValueV>
    decreases items,
{
    if items.len() == 0 {
        Seq::empty()
    } else {
        seq![vv(items[0])] + vv_list(items.drop_first())
    }
}

/// Model of a keyed structure's entries.
pub open spec fn vv_entries(es: Seq<(String, Value)>) -> Seq<(Seq<char>, ValueV)>
    decreases es,
{
    if es.len() == 0 {
        Seq::empty()
    } else {
        seq![(es[0].0@, vv(es[0].1))] + vv_entries(es.drop_first())
    }
}

/// The model of a list is the item models, in order.
pub proof fn lemma_vv_list_props(items: Seq<Value>)
    ensures
        vv_list(items).len() == items.len(),
        forall|i: int| 0 <= i < items.len() ==> vv_list(items)[i] == vv(items[i]),
    decreases items.len(),
{
    if items.len() > 0 {
        lemma_vv_list_props(items.drop_first());
    }
}

/// The model of a keyed structure is the entry models, in order.
pub proof fn lemma_vv_entries_props(es: Seq<(String, Value)>)
    ensures
        vv_entries(es).len() == es.len(),
        forall|i: int| 0 <= i < es.len() ==> vv_entries(es)[i] == (es[i].0@, vv(es[i].1)),
    decreases es.len(),
{
    if es.len() > 0 {
        lemma_vv_entries_props(es.drop_first());
    }
}

impl View for Value {
    type V = ValueV;

    open spec fn view(&self) -> ValueV {
        vv(*self)
    }
}

impl Value {
    /// Clone that provably keeps the value's mathematical model.
    #[verifier::loop_isolation(false)]
    pub fn deep_clone(&self) -> (r: Value)
        ensures
            r@ == self@,
        decreases *self,
    {
        match self {
            Value::Absent => Value::Absent,
            Value::Scalar(s) => Value::Scalar(s.clone()),
            Value::Callable => Value::Callable,
            Value::Text(s) => Value::Text(s.clone()),
            Value::List(items) => {
                let mut out: Vec<Value> = Vec::new();
                let mut j: usize = 0;
                while j < items.len()
                    invariant
                        j <= items.len(),
                        out@.len() == j,
                        forall|k: int| 0 <= k < j ==> vv(out@[k]) == vv(items@[k]),
                    decreases items.len() - j,
                {
                    proof {
                        assert(decreases_to!(*self => self->List_0));
                        assert(decreases_to!(self->List_0 => self->List_0@));
                        assert(self->List_0@ == items@);
                        assert(decreases_to!(items@ => items@[j as int]));
                    }
                    out.push(items[j].deep_clone());
                    j += 1;
                }
                proof {
                    lemma_vv_list_props(out@);
                    lemma_vv_list_props(items@);
                    assert(vv_list(out@) =~= vv_list(items@));
                }
                Value::List(out)
            },
            Value::Object(entries) => {
                let mut out: Vec<(String, Value)> = Vec::new();
                let mut j: usize = 0;
                while j < entries.len()
                    invariant
                        j <= entries.len(),
                        out@.len() == j,
                        forall|k: int| 0 <= k < j ==> out@[k].0@ == entries@[k].0@
                            && vv(out@[k].1) == vv(entries@[k].1),
                    decreases entries.len() - j,
                {
                    proof {
                        assert(decreases_to!(*self => self->Object_0));
                        assert(decreases_to!(self->Object_0 => self->Object_0@));
                        assert(self->Object_0@ == entries@);
                        assert(decreases_to!(entries@ => entries@[j as int]));
                        assert(decreases_to!(entries@[j as int] => entries@[j as int].1));
                    }
                    let key = entries[j].0.clone();
                    let val = entries[j].1.deep_clone();
                    out.push((key, val));
                    j += 1;
                }
                proof {
                    lemma_vv_entries_props(out@);
                    lemma_vv_entries_props(entries@);
                    assert(vv_entries(out@) =~= vv_entries(entries@));
                }
                Value::Object(out)
            },
        }
    }
}

/// Whether an exec key equals a literal property name.
pub fn key_is(k: &String, name: &str) -> (r: bool)
    ensures
        r == (k@ == name@),
{
    *k == name.to_owned()
}

/// Clone of a path that provably keeps its value.
pub fn clone_path(p: &Vec<Segment>) -> (r: Vec<Segment>)
    ensures
        r@ == p@,
{
    let mut out: Vec<Segment> = Vec::new();
    let mut j: usize = 0;
    while j < p.len()
        invariant
            j <= p.len(),
            out@ == p@.take(j as int),
        decreases p.len() - j,
    {
        out.push(p[j].dup());
        proof {
            assert(out@ =~= p@.take(j + 1 as int));
        }
        j += 1;
    }
    proof {
        assert(p@.take(p@.len() as int) =~= p@);
    }
    out
}

/// Clone of a list of values that provably keeps their models.
pub fn clone_values(items: &Vec<Value>) -> (r: Vec<Value>)
    ensures
        vv_list(r@) == vv_list(items@),
{
    let mut out: Vec<Value> = Vec::new();
    let mut j: usize = 0;
    while j < items.len()
        invariant
            j <= items.len(),
            out@.len() == j,
            forall|k: int| 0 <= k < j ==> vv(out@[k]) == vv(items@[k]),
        decreases items.len() - j,
    {
        out.push(items[j].deep_clone());
        j += 1;
    }
    proof {
        lemma_vv_list_props(out@);
        lemma_vv_list_props(items@);
        assert(vv_list(out@) =~= vv_list(items@));
    }
    out
}

/// Clone of a keyed structure's entries that provably keeps their models.
pub fn clone_entries(es: &Vec<(String, Value)>) -> (r: Vec<(String, Value)>)
    ensures
        vv_entries(r@) == vv_entries(es@),
{
    let mut out: Vec<(String, Value)> = Vec::new();
    let mut j: usize = 0;
    while j < es.len()
        invariant
            j <= es.len(),
            out@.len() == j,
            forall|k: int| 0 <= k < j ==> out@[k].0@ == es@[k].0@ && vv(out@[k].1) == vv(es@[k].1),
        decreases es.len() - j,
    {
        let key = es[j].0.clone();
        let val = es[j].1.deep_clone();
        out.push((key, val));
        j += 1;
    }
    proof {
        lemma_vv_entries_props(out@);
        lemma_vv_entries_props(es@);
        assert(vv_entries(out@) =~= vv_entries(es@));
    }
    out
}

} // verus!
