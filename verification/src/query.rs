//! Classification of caller-supplied matching criteria, and their evaluation
//! against a candidate node's raw value.
//!
//! A criterion arrives as an arbitrary tree value and is classified into one
//! of a fixed set of variants.  Evaluation is pure and deterministic.  The
//! wildcard ([`Query::Absent`]) matches every candidate.  The comparison
//! rules for the other variants are this library's integration contract with
//! its host:
//! - a textual query matches a candidate whose `"id"` property equals it;
//! - a list query matches a candidate whose `"id"` property is one of the
//!   list's textual items;
//! - a keyed-structure query matches a candidate that carries every queried
//!   key with a shallowly equal (textual or scalar) value;
//! - a callable query never matches here: the library cannot run host code,
//!   so invoking the callable is left to the adaptation layer.

use vstd::prelude::*;

use crate::value::clone_entries;
use crate::value::clone_values;
use crate::value::key_is;
use crate::value::lemma_vv_entries_props;
use crate::value::lemma_vv_list_props;
use crate::value::vv;
use crate::value::vv_entries;
use crate::value::vv_list;
use crate::value::Value;
use crate::value::ValueV;

verus! {

/// A classified matching criterion.
pub enum Query {
    /// Omitted or unrecognised criterion: the wildcard.
    Absent,
    /// A host-supplied callable.
    Predicate,
    /// A textual literal.
    Text(String),
    /// An ordered-list literal.
    List(Vec<Value>),
    /// A keyed-structure literal.
    Object(Vec<(String, Value)>),
}

/// Mathematical model of a [`Query`].
pub enum QueryV {
    Absent,
    Predicate,
    Text(Seq<char>),
    List(Seq<ValueV>),
    Object(Seq<(Seq<char>, ValueV)>),
}

impl View for Query {
    type V = QueryV;

    open spec fn view(&self) -> QueryV {
        match self {
            Query::Absent => QueryV::Absent,
            Query::Predicate => QueryV::Predicate,
            Query::Text(s) => QueryV::Text(s@),
            Query::List(items) => QueryV::List(vv_list(items@)),
            Query::Object(es) => QueryV::Object(vv_entries(es@)),
        }
    }
}

/// How a criterion value classifies, by precedence: absent, then callable,
/// then textual, then ordered list, then keyed structure, then the fallback
/// wildcard for anything else.
pub open spec fn classify(v: ValueV) -> QueryV {
    match v {
        ValueV::Absent => QueryV::Absent,
        ValueV::Callable => QueryV::Predicate,
        ValueV::Text(s) => QueryV::Text(s),
        ValueV::List(items) => QueryV::List(items),
        ValueV::Object(es) => QueryV::Object(es),
        ValueV::Scalar(_) => QueryV::Absent,
    }
}

/// The textual `"id"` property of a keyed structure's entries: the first
/// entry named `id` decides, and only a textual value counts.
pub open spec fn entries_id(es: Seq<(Seq<char>, ValueV)>) -> Option<Seq<char>>
    decreases es.len(),
{
    if es.len() == 0 {
        None
    } else if es[0].0 == "id"@ {
        match es[0].1 {
            ValueV::Text(t) => Some(t),
            _ => None,
        }
    } else {
        entries_id(es.drop_first())
    }
}

/// The textual id a candidate value carries, if any.
pub open spec fn id_of(v: ValueV) -> Option<Seq<char>> {
    match v {
        ValueV::Object(es) => entries_id(es),
        _ => None,
    }
}

/// First entry of a keyed structure under a given key.
pub open spec fn entries_lookup(es: Seq<(Seq<char>, ValueV)>, key: Seq<char>) -> Option<ValueV>
    decreases es.len(),
{
    if es.len() == 0 {
        None
    } else if es[0].0 == key {
        Some(es[0].1)
    } else {
        entries_lookup(es.drop_first(), key)
    }
}

/// Shallow equality: textual against textual, scalar rendering against
/// scalar rendering; composite or opaque values never compare equal.
pub open spec fn scalar_eq(a: ValueV, b: ValueV) -> bool {
    match (a, b) {
        (ValueV::Text(x), ValueV::Text(y)) => x == y,
        (ValueV::Scalar(x), ValueV::Scalar(y)) => x == y,
        _ => false,
    }
}

/// One queried entry holds of a candidate's entries.
pub open spec fn entry_matches(ces: Seq<(Seq<char>, ValueV)>, qe: (Seq<char>, ValueV)) -> bool {
    match entries_lookup(ces, qe.0) {
        Some(cv) => scalar_eq(qe.1, cv),
        None => false,
    }
}

/// Whether a query matches a candidate value.
pub open spec fn eval(q: QueryV, v: ValueV) -> bool {
    match q {
        QueryV::Absent => true,
        QueryV::Predicate => false,
        QueryV::Text(s) => id_of(v) == Some(s),
        QueryV::List(items) => match id_of(v) {
            Some(s) => exists|i: int|
                0 <= i < items.len() && items[i] == ValueV::Text(s),
            None => false,
        },
        QueryV::Object(qes) => v is Object && forall|i: int|
            0 <= i < qes.len() ==> #[trigger] entry_matches(v->Object_0, qes[i]),
    }
}

/// The candidate's textual id, as executable code.
#[verifier::loop_isolation(false)]
fn find_id(obj: &Value) -> (r: Option<String>)
    ensures
        (r is Some) == (id_of(obj@) is Some),
        r is Some ==> id_of(obj@) == Some(r->0@),
{
    match obj {
        Value::Object(entries) => {
            proof {
                lemma_vv_entries_props(entries@);
            }
            let ghost esv = vv_entries(entries@);
            proof {
                assert(esv.skip(0) =~= esv);
            }
            let mut i: usize = 0;
            while i < entries.len()
                invariant
                    i <= entries.len(),
                    entries_id(esv) == entries_id(esv.skip(i as int)),
                decreases entries.len() - i,
            {
                if key_is(&entries[i].0, "id") {
                    match &entries[i].1 {
                        Value::Text(t) => {
                            return Some(t.clone());
                        },
                        _ => {
                            return None;
                        },
                    }
                }
                proof {
                    assert(esv.skip(i as int).drop_first() =~= esv.skip(i as int + 1));
                }
                i += 1;
            }
            None
        },
        _ => None,
    }
}

/// First entry of an exec keyed structure under a key, by position.
#[verifier::loop_isolation(false)]
fn lookup_entry(entries: &Vec<(String, Value)>, key: &String) -> (r: Option<usize>)
    ensures
        (r is Some) == (entries_lookup(vv_entries(entries@), key@) is Some),
        r is Some ==> r->0 < entries.len() && entries_lookup(vv_entries(entries@), key@)
            == Some(vv(entries@[r->0 as int].1)),
{
    proof {
        lemma_vv_entries_props(entries@);
    }
    let ghost esv = vv_entries(entries@);
    proof {
        assert(esv.skip(0) =~= esv);
    }
    let mut i: usize = 0;
    while i < entries.len()
        invariant
            i <= entries.len(),
            entries_lookup(esv, key@) == entries_lookup(esv.skip(i as int), key@),
        decreases entries.len() - i,
    {
        if entries[i].0 == *key {
            return Some(i);
        }
        proof {
            assert(esv.skip(i as int).drop_first() =~= esv.skip(i as int + 1));
        }
        i += 1;
    }
    None
}

/// Shallow equality of two exec values, per [`scalar_eq`].
fn scalar_matches(qv: &Value, cv: &Value) -> (r: bool)
    ensures
        r == scalar_eq(qv@, cv@),
{
    match (qv, cv) {
        (Value::Text(a), Value::Text(b)) => *a == *b,
        (Value::Scalar(a), Value::Scalar(b)) => *a == *b,
        _ => false,
    }
}

impl Query {
    /// Classify a caller-supplied criterion value.
    pub fn new(query: &Value) -> (q: Query)
        ensures
            q@ == classify(query@),
    {
        match query {
            Value::Absent => Query::Absent,
            Value::Callable => Query::Predicate,
            Value::Text(s) => Query::Text(s.clone()),
            Value::List(items) => Query::List(clone_values(items)),
            Value::Object(es) => Query::Object(clone_entries(es)),
            Value::Scalar(_) => Query::Absent,
        }
    }

    /// Evaluate the query against a candidate node's raw value.
    #[verifier::loop_isolation(false)]
    pub fn equals(&self, obj: &Value) -> (r: bool)
        ensures
            r == eval(self@, obj@),
    {
        match self {
            Query::Absent => true,
            Query::Predicate => false,
            Query::Text(s) => {
                match find_id(obj) {
                    Some(t) => t == *s,
                    None => false,
                }
            },
            Query::List(items) => {
                match find_id(obj) {
                    None => false,
                    Some(t) => {
                        proof {
                            lemma_vv_list_props(items@);
                        }
                        let ghost iv = vv_list(items@);
                        let mut i: usize = 0;
                        let mut found = false;
                        while i < items.len()
                            invariant
                                i <= items.len(),
                                found == exists|k: int|
                                    0 <= k < i && iv[k] == ValueV::Text(t@),
                            decreases items.len() - i,
                        {
                            match &items[i] {
                                Value::Text(x) => {
                                    if *x == t {
                                        proof {
                                            assert(iv[i as int] == ValueV::Text(t@));
                                        }
                                        found = true;
                                    }
                                },
                                _ => {},
                            }
                            i += 1;
                        }
                        found
                    },
                }
            },
            Query::Object(qes) => {
                match obj {
                    Value::Object(ces) => {
                        proof {
                            lemma_vv_entries_props(qes@);
                        }
                        let ghost qv = vv_entries(qes@);
                        let ghost cv = vv_entries(ces@);
                        let mut i: usize = 0;
                        while i < qes.len()
                            invariant
                                i <= qes.len(),
                                forall|k: int| 0 <= k < i ==> #[trigger] entry_matches(cv, qv[k]),
                            decreases qes.len() - i,
                        {
                            match lookup_entry(ces, &qes[i].0) {
                                Some(idx) => {
                                    if !scalar_matches(&qes[i].1, &ces[idx].1) {
                                        proof {
                                            assert(obj@ == ValueV::Object(cv));
                                            assert(self@ == QueryV::Object(qv));
                                            assert(qv.len() == qes@.len());
                                            assert(!entry_matches(cv, qv[i as int]));
                                            assert(!entry_matches(
                                                obj@->Object_0,
                                                self@->Object_0[i as int],
                                            ));
                                            assert(!eval(self@, obj@));
                                        }
                                        return false;
                                    }
                                },
                                None => {
                                    proof {
                                        assert(obj@ == ValueV::Object(cv));
                                        assert(self@ == QueryV::Object(qv));
                                        assert(qv.len() == qes@.len());
                                        assert(!entry_matches(cv, qv[i as int]));
                                        assert(!entry_matches(
                                            obj@->Object_0,
                                            self@->Object_0[i as int],
                                        ));
                                        assert(!eval(self@, obj@));
                                    }
                                    return false;
                                },
                            }
                            proof {
                                assert(entry_matches(cv, qv[i as int]));
                            }
                            i += 1;
                        }
                        true
                    },
                    _ => false,
                }
            },
        }
    }
}

} // verus!
