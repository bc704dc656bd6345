//! An id-addressed index over tree-shaped, dynamically typed documents.
//!
//! A host hands the library whole-tree snapshots of a nested document made of
//! keyed structures, lists and scalars.  The library walks each snapshot,
//! records the path from the root to every node that carries a textual
//! `"id"` property, and answers queries about those nodes: their full path,
//! their immediate parent, the segment under which they sit in that parent,
//! and the nearest or farthest ancestor satisfying a caller-supplied
//! matching criterion.  Every ingest rebuilds the index wholesale; nothing
//! of an earlier snapshot survives.

use vstd::prelude::*;

pub mod paths;
pub mod query;
pub mod value;

pub use paths::Paths;
pub use query::Query;
pub use value::Segment;
pub use value::Value;

use crate::paths::fm_from;
use crate::paths::index_of;
use crate::paths::lm_below;
use crate::paths::parent_of_spec;
use crate::paths::parent_prop_spec;
use crate::paths::raw_spec;
use crate::paths::resolve_path_spec;
use crate::paths::sel_anc;
use crate::paths::EntryV;
use crate::query::classify;
use crate::query::eval;
use crate::query::QueryV;
use crate::value::segs_view;
use crate::value::vv;
use crate::value::ValueV;

verus! {

/// The host-facing plugin: the single slot holding the most recently
/// ingested snapshot, and the id index built from it.
pub struct CheckPathPlugin {
    name: String,
    paths: Paths,
    current: Value,
}

impl View for CheckPathPlugin {
    type V = ValueV;

    /// A plugin is modelled by the snapshot it currently serves.
    closed spec fn view(&self) -> ValueV {
        self.current@
    }
}

impl CheckPathPlugin {
    #[verifier::type_invariant]
    spec fn inv(self) -> bool {
        &&& self.paths@ == index_of(self.current@)
        &&& self.name@ == "check-path-plugin"@
    }

    /// A fresh plugin: the snapshot slot is empty and no id is known.
    pub fn new() -> (r: CheckPathPlugin)
        ensures
            r@ == ValueV::Absent,
    {
        let paths = Paths::new();
        proof {
            assert(paths::reg_seq(vv(Value::Absent), Seq::empty(), Seq::empty()) =~= Seq::<
                (Seq<char>, EntryV),
            >::empty());
            assert(index_of(vv(Value::Absent)) == paths::apply_regs(
                Map::<Seq<char>, EntryV>::empty(),
                Seq::empty(),
            ));
        }
        CheckPathPlugin { name: "check-path-plugin".to_owned(), paths, current: Value::Absent }
    }

    /// The name under which the plugin registers with its host.
    pub fn name(&self) -> (r: String)
        ensures
            r@ == "check-path-plugin"@,
    {
        proof {
            use_type_invariant(&*self);
        }
        self.name.clone()
    }

    /// Ingest one snapshot: a wholesale, synchronous rebuild of the index.
    /// Afterwards every query operation answers against this snapshot alone.
    pub fn ingest(&mut self, snapshot: Value)
        ensures
            final(self)@ == snapshot@,
    {
        proof {
            use_type_invariant(&*self);
        }
        let mut paths = Paths::new();
        paths.parse(&snapshot);
        let name = self.name.clone();
        *self = CheckPathPlugin { name, paths, current: snapshot };
    }

    /// The path recorded for an id, filtered through a criterion: the
    /// node's full path when the criterion is omitted, else the suffix of
    /// the path below the satisfying ancestor the criterion selects.
    pub fn get_path(&self, id: &str, query: &Value) -> (r: Option<Vec<Segment>>)
        ensures
            match resolve_path_spec(index_of(self@), id@, classify(query@)) {
                Some(p) => r is Some && segs_view(r->0@) == p,
                None => r is None,
            },
    {
        proof {
            use_type_invariant(&*self);
        }
        let q = Query::new(query);
        self.paths.resolve_path(id, &q)
    }

    /// The immediate parent's raw value, if it alone satisfies the
    /// criterion; the lookup never walks past the immediate parent.
    pub fn get_parent(&self, id: &str, query: &Value) -> (r: Option<Value>)
        ensures
            match parent_of_spec(index_of(self@), id@, classify(query@)) {
                Some(pv) => r is Some && r->0@ == pv,
                None => r is None,
            },
    {
        proof {
            use_type_invariant(&*self);
        }
        let q = Query::new(query);
        self.paths.resolve_parent(id, &q)
    }

    /// The key or index under which the node sits in its immediate parent;
    /// nothing for the snapshot root or an unknown id.
    pub fn get_parent_prop(&self, id: &str) -> (r: Option<Segment>)
        ensures
            match parent_prop_spec(index_of(self@), id@) {
                Some(sv) => r is Some && r->0@ == sv,
                None => r is None,
            },
    {
        proof {
            use_type_invariant(&*self);
        }
        self.paths.resolve_parent_property(id)
    }

    /// Descendant-context lookup is not a feature of this library: always
    /// false.
    pub fn has_child_context(&self) -> (r: bool)
        ensures
            !r,
    {
        false
    }

    /// Whether the immediate parent satisfies the criterion.
    pub fn has_parent_context(&self, id: &str, query: &Value) -> (r: bool)
        ensures
            r == (parent_of_spec(index_of(self@), id@, classify(query@)) is Some),
    {
        self.get_parent(id, query).is_some()
    }

    /// The raw value recorded for an id, for direct inspection.
    pub fn get_asset(&self, id: &str) -> (r: Option<Value>)
        ensures
            match raw_spec(index_of(self@), id@) {
                Some(rv) => r is Some && r->0@ == rv,
                None => r is None,
            },
    {
        proof {
            use_type_invariant(&*self);
        }
        self.paths.get_raw(id)
    }
}

/// Ingestion is idempotent: two ingests of equal snapshots serve the same
/// index, so every id resolves identically under every criterion.
pub proof fn lemma_reingest_idempotent(s1: ValueV, s2: ValueV, id: Seq<char>, q: QueryV)
    requires
        s1 == s2,
    ensures
        resolve_path_spec(index_of(s1), id, q) == resolve_path_spec(index_of(s2), id, q),
{
}

/// A rebuild discards the prior index in full: an id the newly ingested
/// snapshot does not register resolves to nothing, whatever an earlier
/// snapshot held for it.
pub proof fn lemma_rebuild_discards(s: ValueV, id: Seq<char>, q: QueryV)
    requires
        !index_of(s).contains_key(id),
    ensures
        resolve_path_spec(index_of(s), id, q) is None,
{
}

/// Parent context consults only the immediate parent: when that parent
/// fails the criterion there is no parent context, even if a farther
/// ancestor would satisfy it.
pub proof fn lemma_parent_context_immediate(
    idx: Map<Seq<char>, EntryV>,
    id: Seq<char>,
    q: QueryV,
)
    requires
        idx.contains_key(id),
        idx[id].ancs.len() > 0,
        !eval(q, idx[id].ancs[0]),
    ensures
        parent_of_spec(idx, id, q) is None,
{
}

proof fn lemma_fm_bound(q: QueryV, ancs: Seq<ValueV>, k0: int, a: int)
    requires
        0 <= k0 <= a < ancs.len(),
        eval(q, ancs[a]),
    ensures
        fm_from(q, ancs, k0) is Some,
        k0 <= fm_from(q, ancs, k0)->0 <= a,
    decreases a - k0,
{
    if !eval(q, ancs[k0]) {
        lemma_fm_bound(q, ancs, k0 + 1, a);
    }
}

proof fn lemma_lm_bound(q: QueryV, ancs: Seq<ValueV>, k0: int, b: int)
    requires
        0 <= b < k0 <= ancs.len(),
        eval(q, ancs[b]),
    ensures
        lm_below(q, ancs, k0) is Some,
        b <= lm_below(q, ancs, k0)->0 < k0,
    decreases k0,
{
    if !eval(q, ancs[k0 - 1]) {
        lemma_lm_bound(q, ancs, k0 - 1, b);
    }
}

/// The tie-break asymmetry of ancestor selection.  Among two satisfying
/// ancestors, one nearer the node at position `a` and one nearer the root
/// at position `b`, a list criterion selects at least as far as `b` (the
/// outermost match wins), while every other non-wildcard variant selects at
/// most as near as `a` (the innermost match wins).
pub proof fn lemma_tie_break(q: QueryV, ancs: Seq<ValueV>, a: int, b: int)
    requires
        0 <= a < b < ancs.len(),
        eval(q, ancs[a]),
        eval(q, ancs[b]),
    ensures
        sel_anc(q, ancs) is Some,
        q is List ==> sel_anc(q, ancs)->0 >= b,
        !(q is List) ==> sel_anc(q, ancs)->0 <= a,
{
    if q is List {
        lemma_lm_bound(q, ancs, ancs.len() as int, b);
    } else {
        lemma_fm_bound(q, ancs, 0, a);
    }
}

} // verus!
