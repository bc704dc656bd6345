//! The id index over one snapshot: the tree walk that builds it, the node
//! registry with parent links, and the ancestor-resolution operations.
//!
//! One walk of a snapshot visits every composite node with an explicit work
//! stack.  Visiting a keyed node registers each textual `"id"` property under
//! the node's path; a later registration of the same id overwrites an earlier
//! one (last write wins, in visit order).  Every composite node is stored in
//! an arena with a link to its parent node, so that queries can walk a
//! node's ancestor chain toward the root.

use vstd::prelude::*;

use crate::query::eval;
use crate::query::Query;
use crate::query::QueryV;
use crate::value::clone_path;
use crate::value::key_is;
use crate::value::lemma_vv_entries_props;
use crate::value::lemma_vv_list_props;
use crate::value::segs_view;
use crate::value::vv_entries;
use crate::value::vv_list;
use crate::value::SegV;
use crate::value::Segment;
use crate::value::Value;
use crate::value::ValueV;

verus! {

/// What the index records for one id: the node's raw value, its path from
/// the root, and the raw values of its ancestors, nearest first.
pub ghost struct EntryV {
    pub raw: ValueV,
    pub path: Seq<SegV>,
    pub ancs: Seq<ValueV>,
}

/// Model of one arena node.
pub ghost struct NodeV {
    pub raw: ValueV,
    pub path: Seq<SegV>,
    pub parent: Option<int>,
}

/// One arena node: the node's raw value, its path, and the arena position of
/// its parent (absent for the snapshot root).
struct Node {
    raw: Value,
    path: Vec<Segment>,
    parent: Option<usize>,
}

impl View for Node {
    type V = NodeV;

    closed spec fn view(&self) -> NodeV {
        (NodeV {
            raw: self.raw@,
            path: segs_view(self.path@),
            parent: match self.parent {
                Some(p) => Some(p as int),
                None => None,
            },
        })
    }
}

/// One pending unit of the tree walk.
struct WorkItem {
    value: Value,
    path: Vec<Segment>,
    parent: Option<usize>,
}

/// The id registrations a keyed node makes for its own entries from
/// position `i` on: each textual `"id"` property, in enumeration order.
pub open spec fn own_regs_from(
    es: Seq<(Seq<char>, ValueV)>,
    i: int,
    raw: ValueV,
    path: Seq<SegV>,
    ancs: Seq<ValueV>,
) -> Seq<(Seq<char>, EntryV)>
    decreases es.len() - i,
{
    if i < 0 || i >= es.len() {
        Seq::empty()
    } else {
        let rest = own_regs_from(es, i + 1, raw, path, ancs);
        if es[i].0 == "id"@ && es[i].1 is Text {
            seq![(es[i].1->Text_0, (EntryV { raw, path, ancs }))] + rest
        } else {
            rest
        }
    }
}

/// The registrations of a keyed node's subtrees from entry `i` on.  The walk
/// pushes children onto a stack in enumeration order and pops the last one
/// first, so later children register before earlier ones.
pub open spec fn obj_regs_from(
    es: Seq<(Seq<char>, ValueV)>,
    i: int,
    path: Seq<SegV>,
    cancs: Seq<ValueV>,
) -> Seq<(Seq<char>, EntryV)>
    decreases es, es.len() - i,
{
    if i < 0 || i >= es.len() {
        Seq::empty()
    } else {
        obj_regs_from(es, i + 1, path, cancs) + reg_seq(
            es[i].1,
            path.push(SegV::Text(es[i].0)),
            cancs,
        )
    }
}

/// The registrations of a list node's subtrees from item `i` on, later items
/// first, as for keyed nodes.
pub open spec fn list_regs_from(
    items: Seq<ValueV>,
    i: int,
    path: Seq<SegV>,
    cancs: Seq<ValueV>,
) -> Seq<(Seq<char>, EntryV)>
    decreases items, items.len() - i,
{
    if i < 0 || i >= items.len() {
        Seq::empty()
    } else {
        list_regs_from(items, i + 1, path, cancs) + reg_seq(
            items[i],
            path.push(SegV::Numeric(i)),
            cancs,
        )
    }
}

/// Every id registration the walk makes for the subtree rooted at `v`, in
/// visit order, given the subtree's path and its ancestors nearest first.
pub open spec fn reg_seq(v: ValueV, path: Seq<SegV>, ancs: Seq<ValueV>) -> Seq<
    (Seq<char>, EntryV),
>
    decreases v, 0int,
{
    match v {
        ValueV::Object(es) => own_regs_from(es, 0, v, path, ancs) + obj_regs_from(
            es,
            0,
            path,
            seq![v] + ancs,
        ),
        ValueV::List(items) => list_regs_from(items, 0, path, seq![v] + ancs),
        _ => Seq::empty(),
    }
}

/// Registrations applied in order to an id map: later ones overwrite.
pub open spec fn apply_regs(
    m: Map<Seq<char>, EntryV>,
    rs: Seq<(Seq<char>, EntryV)>,
) -> Map<Seq<char>, EntryV>
    decreases rs.len(),
{
    if rs.len() == 0 {
        m
    } else {
        apply_regs(m.insert(rs[0].0, rs[0].1), rs.drop_first())
    }
}

/// The id index one snapshot yields: every registration of the walk, applied
/// in visit order, last write wins.
pub open spec fn index_of(s: ValueV) -> Map<Seq<char>, EntryV> {
    apply_regs(Map::empty(), reg_seq(s, Seq::empty(), Seq::empty()))
}

pub proof fn lemma_apply_regs_append(
    m: Map<Seq<char>, EntryV>,
    a: Seq<(Seq<char>, EntryV)>,
    b: Seq<(Seq<char>, EntryV)>,
)
    ensures
        apply_regs(m, a + b) == apply_regs(apply_regs(m, a), b),
    decreases a.len(),
{
    if a.len() == 0 {
        assert(a + b =~= b);
    } else {
        assert((a + b).drop_first() =~= a.drop_first() + b);
        assert((a + b)[0] == a[0]);
        lemma_apply_regs_append(m.insert(a[0].0, a[0].1), a.drop_first(), b);
    }
}

/// The last registration of an id in a registration sequence, if any.
pub open spec fn last_reg(rs: Seq<(Seq<char>, EntryV)>, id: Seq<char>) -> Option<EntryV>
    decreases rs.len(),
{
    if rs.len() == 0 {
        None
    } else if rs.last().0 == id {
        Some(rs.last().1)
    } else {
        last_reg(rs.drop_last(), id)
    }
}

/// Applying registrations leaves, for each id, its last registered entry.
pub proof fn lemma_apply_regs_lookup(
    m: Map<Seq<char>, EntryV>,
    rs: Seq<(Seq<char>, EntryV)>,
    id: Seq<char>,
)
    ensures
        apply_regs(m, rs).contains_key(id) == (last_reg(rs, id) is Some || m.contains_key(id)),
        last_reg(rs, id) is Some ==> apply_regs(m, rs)[id] == last_reg(rs, id)->0,
        last_reg(rs, id) is None && m.contains_key(id) ==> apply_regs(m, rs)[id] == m[id],
    decreases rs.len(),
{
    if rs.len() > 0 {
        let single = seq![rs.last()];
        assert(rs =~= rs.drop_last() + single);
        lemma_apply_regs_append(m, rs.drop_last(), single);
        let m1 = apply_regs(m, rs.drop_last());
        let m2 = m1.insert(single[0].0, single[0].1);
        assert(single.drop_first() =~= Seq::<(Seq<char>, EntryV)>::empty());
        assert(apply_regs(m1, single) == apply_regs(m2, single.drop_first()));
        assert(apply_regs(m2, Seq::<(Seq<char>, EntryV)>::empty()) == m2);
        assert(single[0] == rs.last());
        assert(apply_regs(m, rs) == m1.insert(rs.last().0, rs.last().1));
        lemma_apply_regs_lookup(m, rs.drop_last(), id);
    }
}

/// The raw values along a node's parent chain, nearest first.
pub open spec fn anc_chain(ns: Seq<NodeV>, j: int) -> Seq<ValueV>
    decreases j,
{
    if 0 <= j < ns.len() && ns[j].parent is Some && 0 <= ns[j].parent->0 < j {
        seq![ns[ns[j].parent->0].raw] + anc_chain(ns, ns[j].parent->0)
    } else {
        Seq::empty()
    }
}

/// What the index records for the node at arena position `j`.
pub open spec fn entry_at(ns: Seq<NodeV>, j: int) -> EntryV {
    (EntryV { raw: ns[j].raw, path: ns[j].path, ancs: anc_chain(ns, j) })
}

/// Arena well-formedness at one position: a parent sits strictly earlier and
/// holds the node's path shorn of its last segment; only the root has none.
pub open spec fn wf_node_at(ns: Seq<NodeV>, j: int) -> bool {
    &&& (ns[j].parent is Some ==> {
        &&& 0 <= ns[j].parent->0 < j
        &&& ns[j].path.len() >= 1
        &&& ns[ns[j].parent->0].path == ns[j].path.drop_last()
    })
    &&& (ns[j].parent is None ==> ns[j].path.len() == 0)
}

pub open spec fn wf_nodes(ns: Seq<NodeV>) -> bool {
    forall|j: int| 0 <= j < ns.len() ==> #[trigger] wf_node_at(ns, j)
}

/// Models of the arena nodes.
pub open spec fn nodes_view(ns: Seq<Node>) -> Seq<NodeV> {
    ns.map_values(|n: Node| n@)
}

/// Ancestor chains ignore nodes appended later.
pub proof fn lemma_anc_chain_push(ns: Seq<NodeV>, x: NodeV, j: int)
    requires
        0 <= j < ns.len(),
    ensures
        anc_chain(ns.push(x), j) == anc_chain(ns, j),
    decreases j,
{
    if ns[j].parent is Some && 0 <= ns[j].parent->0 < j {
        lemma_anc_chain_push(ns, x, ns[j].parent->0);
    }
}

/// In a well-formed arena, a node has one ancestor per path segment.
pub proof fn lemma_anc_chain_len(ns: Seq<NodeV>, j: int)
    requires
        wf_nodes(ns),
        0 <= j < ns.len(),
    ensures
        anc_chain(ns, j).len() == ns[j].path.len(),
    decreases j,
{
    assert(wf_node_at(ns, j));
    if ns[j].parent is Some {
        lemma_anc_chain_len(ns, ns[j].parent->0);
    }
}

/// The registrations recorded by the id vector, in order.
pub open spec fn ids_regs(ids: Seq<(String, usize)>, ns: Seq<NodeV>) -> Seq<
    (Seq<char>, EntryV),
> {
    ids.map_values(|p: (String, usize)| (p.0@, entry_at(ns, p.1 as int)))
}

/// The id map the vectors of the registry denote.
pub open spec fn ids_map(ids: Seq<(String, usize)>, ns: Seq<NodeV>) -> Map<Seq<char>, EntryV> {
    apply_regs(Map::empty(), ids_regs(ids, ns))
}

pub open spec fn ids_in_bounds(ids: Seq<(String, usize)>, ns: Seq<NodeV>) -> bool {
    forall|k: int| 0 <= k < ids.len() ==> (#[trigger] ids[k].1 as int) < ns.len()
}

/// Recorded registrations ignore nodes appended later.
pub proof fn lemma_ids_regs_push(ids: Seq<(String, usize)>, ns: Seq<NodeV>, x: NodeV)
    requires
        ids_in_bounds(ids, ns),
    ensures
        ids_regs(ids, ns.push(x)) == ids_regs(ids, ns),
{
    assert forall|k: int| 0 <= k < ids.len() implies #[trigger] ids_regs(ids, ns.push(x))[k]
        == ids_regs(ids, ns)[k] by {
        lemma_anc_chain_push(ns, x, ids[k].1 as int);
    }
    assert(ids_regs(ids, ns.push(x)) =~= ids_regs(ids, ns));
}

proof fn lemma_apply_regs_one(m: Map<Seq<char>, EntryV>, r: (Seq<char>, EntryV))
    ensures
        apply_regs(m, seq![r]) == m.insert(r.0, r.1),
{
    let single = seq![r];
    assert(single.drop_first() =~= Seq::<(Seq<char>, EntryV)>::empty());
    assert(apply_regs(m, single) == apply_regs(
        m.insert(single[0].0, single[0].1),
        single.drop_first(),
    ));
    assert(apply_regs(m.insert(r.0, r.1), Seq::<(Seq<char>, EntryV)>::empty()) == m.insert(
        r.0,
        r.1,
    ));
    assert(single[0] == r);
}

proof fn lemma_apply_regs_cons(
    m: Map<Seq<char>, EntryV>,
    r: (Seq<char>, EntryV),
    t: Seq<(Seq<char>, EntryV)>,
)
    ensures
        apply_regs(m, seq![r] + t) == apply_regs(m.insert(r.0, r.1), t),
{
    lemma_apply_regs_append(m, seq![r], t);
    lemma_apply_regs_one(m, r);
}

/// Pushing a registration mirrors inserting its entry into the denoted map.
proof fn lemma_ids_map_reg(ids: Seq<(String, usize)>, ns: Seq<NodeV>, s: String, j: usize)
    ensures
        ids_map(ids.push((s, j)), ns) == ids_map(ids, ns).insert(s@, entry_at(ns, j as int)),
{
    let r = (s@, entry_at(ns, j as int));
    assert(ids_regs(ids.push((s, j)), ns) =~= ids_regs(ids, ns) + seq![r]);
    lemma_apply_regs_append(Map::empty(), ids_regs(ids, ns), seq![r]);
    lemma_apply_regs_one(ids_map(ids, ns), r);
}

proof fn lemma_ids_push_stable(ids: Seq<(String, usize)>, ns: Seq<NodeV>, x: NodeV)
    requires
        ids_in_bounds(ids, ns),
    ensures
        ids_in_bounds(ids, ns.push(x)),
        ids_map(ids, ns.push(x)) == ids_map(ids, ns),
{
    lemma_ids_regs_push(ids, ns, x);
}

/// The ancestor raw values of the node a pending work item will create.
spec fn item_ancs(ns: Seq<NodeV>, it: WorkItem) -> Seq<ValueV> {
    match it.parent {
        Some(p) => seq![ns[p as int].raw] + anc_chain(ns, p as int),
        None => Seq::empty(),
    }
}

/// The registrations a pending work item still owes.
spec fn item_regs(ns: Seq<NodeV>, it: WorkItem) -> Seq<(Seq<char>, EntryV)> {
    reg_seq(it.value@, segs_view(it.path@), item_ancs(ns, it))
}

spec fn item_wf(ns: Seq<NodeV>, it: WorkItem) -> bool {
    match it.parent {
        Some(p) => {
            &&& (p as int) < ns.len()
            &&& segs_view(it.path@).len() >= 1
            &&& ns[p as int].path == segs_view(it.path@).drop_last()
        },
        None => it.path@.len() == 0,
    }
}

spec fn items_wf(ns: Seq<NodeV>, st: Seq<WorkItem>) -> bool {
    forall|k: int| 0 <= k < st.len() ==> #[trigger] item_wf(ns, st[k])
}

/// All registrations the stack still owes, next-popped first.
spec fn remaining(ns: Seq<NodeV>, st: Seq<WorkItem>) -> Seq<(Seq<char>, EntryV)>
    decreases st.len(),
{
    if st.len() == 0 {
        Seq::empty()
    } else {
        item_regs(ns, st.last()) + remaining(ns, st.drop_last())
    }
}

proof fn lemma_item_push(ns: Seq<NodeV>, x: NodeV, it: WorkItem)
    requires
        item_wf(ns, it),
    ensures
        item_wf(ns.push(x), it),
        item_regs(ns.push(x), it) == item_regs(ns, it),
{
    if it.parent is Some {
        lemma_anc_chain_push(ns, x, it.parent->0 as int);
    }
}

/// What the stack owes does not change when a node is appended.
proof fn lemma_remaining_push(ns: Seq<NodeV>, x: NodeV, st: Seq<WorkItem>)
    requires
        items_wf(ns, st),
    ensures
        items_wf(ns.push(x), st),
        remaining(ns.push(x), st) == remaining(ns, st),
    decreases st.len(),
{
    assert forall|k: int| 0 <= k < st.len() implies #[trigger] item_wf(ns.push(x), st[k]) by {
        assert(item_wf(ns, st[k]));
        lemma_item_push(ns, x, st[k]);
    }
    if st.len() > 0 {
        assert(item_wf(ns, st.last()));
        lemma_item_push(ns, x, st.last());
        assert forall|k: int| 0 <= k < st.drop_last().len() implies #[trigger] item_wf(
            ns,
            st.drop_last()[k],
        ) by {
            assert(st.drop_last()[k] == st[k]);
            assert(item_wf(ns, st[k]));
        }
        lemma_remaining_push(ns, x, st.drop_last());
    }
}

/// Size of a subtree: the number of values in it, itself included.
spec fn vsize(v: ValueV) -> nat
    decreases v, 0int,
{
    match v {
        ValueV::Object(es) => 1 + entries_vsize(es, 0),
        ValueV::List(items) => 1 + items_vsize(items, 0),
        _ => 1,
    }
}

spec fn entries_vsize(es: Seq<(Seq<char>, ValueV)>, i: int) -> nat
    decreases es, es.len() - i,
{
    if i < 0 || i >= es.len() {
        0
    } else {
        vsize(es[i].1) + entries_vsize(es, i + 1)
    }
}

spec fn items_vsize(items: Seq<ValueV>, i: int) -> nat
    decreases items, items.len() - i,
{
    if i < 0 || i >= items.len() {
        0
    } else {
        vsize(items[i]) + items_vsize(items, i + 1)
    }
}

proof fn lemma_vsize_pos(v: ValueV)
    ensures
        vsize(v) >= 1,
{
    match v {
        ValueV::Object(es) => {
            assert(vsize(v) == 1 + entries_vsize(es, 0));
        },
        ValueV::List(items) => {
            assert(vsize(v) == 1 + items_vsize(items, 0));
        },
        _ => {
            assert(vsize(v) == 1);
        },
    }
}

/// The work the stack still holds, measured in subtree sizes.
spec fn stack_size(st: Seq<WorkItem>) -> nat
    decreases st.len(),
{
    if st.len() == 0 {
        0
    } else {
        vsize(st.last().value@) + stack_size(st.drop_last())
    }
}

/// The id→path→node registry built from the last ingested snapshot.
pub struct Paths {
    nodes: Vec<Node>,
    ids: Vec<(String, usize)>,
}

impl View for Paths {
    type V = Map<Seq<char>, EntryV>;

    closed spec fn view(&self) -> Map<Seq<char>, EntryV> {
        ids_map(self.ids@, nodes_view(self.nodes@))
    }
}

impl Paths {
    #[verifier::type_invariant]
    spec fn wf(self) -> bool {
        &&& wf_nodes(nodes_view(self.nodes@))
        &&& ids_in_bounds(self.ids@, nodes_view(self.nodes@))
    }

    /// An empty registry: no snapshot walked yet, no id known.
    pub fn new() -> (r: Paths)
        ensures
            r@ == Map::<Seq<char>, EntryV>::empty(),
    {
        let r = Paths { nodes: Vec::new(), ids: Vec::new() };
        proof {
            assert(ids_regs(r.ids@, nodes_view(r.nodes@)) =~= Seq::<(Seq<char>, EntryV)>::empty());
        }
        r
    }

    /// The arena position recorded for an id: the last registration wins.
    #[verifier::loop_isolation(false)]
    fn find(&self, id: &str) -> (r: Option<usize>)
        requires
            self.wf(),
        ensures
            match r {
                Some(j) => {
                    &&& j < self.nodes@.len()
                    &&& self@.contains_key(id@)
                    &&& entry_at(nodes_view(self.nodes@), j as int) == self@[id@]
                },
                None => !self@.contains_key(id@),
            },
    {
        let ghost ns = nodes_view(self.nodes@);
        let ghost regs = ids_regs(self.ids@, ns);
        proof {
            lemma_apply_regs_lookup(Map::empty(), regs, id@);
            assert(regs.take(self.ids@.len() as int) =~= regs);
        }
        let mut k: usize = self.ids.len();
        while k > 0
            invariant
                k <= self.ids@.len(),
                last_reg(regs, id@) == last_reg(regs.take(k as int), id@),
            decreases k,
        {
            if key_is(&self.ids[k - 1].0, id) {
                proof {
                    assert(regs.take(k as int).last() == regs[k - 1]);
                }
                return Some(self.ids[k - 1].1);
            }
            proof {
                assert(regs.take(k as int).drop_last() =~= regs.take(k - 1 as int));
            }
            k = k - 1;
        }
        proof {
            assert(regs.take(0int) =~= Seq::<(Seq<char>, EntryV)>::empty());
        }
        None
    }

    /// Walk one snapshot and rebuild the registry wholesale: the previous
    /// arena and id map are discarded, never merged.  Afterwards the
    /// registry denotes exactly the id index of the walked snapshot.
    #[verifier::loop_isolation(false)]
    pub fn parse(&mut self, root: &Value)
        ensures
            final(self)@ == index_of(root@),
    {
        let mut nodes: Vec<Node> = Vec::new();
        let mut ids: Vec<(String, usize)> = Vec::new();
        let mut stack: Vec<WorkItem> = Vec::new();
        stack.push(WorkItem { value: root.deep_clone(), path: Vec::new(), parent: None });
        proof {
            let ns0 = nodes_view(nodes@);
            assert(ns0 =~= Seq::<NodeV>::empty());
            assert(ids_regs(ids@, ns0) =~= Seq::<(Seq<char>, EntryV)>::empty());
            assert(stack@.drop_last() =~= Seq::<WorkItem>::empty());
            assert(segs_view(stack@.last().path@) =~= Seq::<SegV>::empty());
            assert(item_regs(ns0, stack@.last()) == reg_seq(root@, Seq::empty(), Seq::empty()));
            assert(remaining(ns0, stack@) == item_regs(ns0, stack@.last()) + remaining(
                ns0,
                stack@.drop_last(),
            ));
            assert(remaining(ns0, Seq::<WorkItem>::empty()) == Seq::<(Seq<char>, EntryV)>::empty());
            assert(remaining(ns0, stack@) =~= reg_seq(root@, Seq::empty(), Seq::empty()));
        }
        while stack.len() > 0
            invariant
                wf_nodes(nodes_view(nodes@)),
                ids_in_bounds(ids@, nodes_view(nodes@)),
                items_wf(nodes_view(nodes@), stack@),
                apply_regs(
                    ids_map(ids@, nodes_view(nodes@)),
                    remaining(nodes_view(nodes@), stack@),
                ) == index_of(root@),
            decreases stack_size(stack@),
        {
            let ghost st_begin = stack@;
            let item = stack.pop().unwrap();
            let ghost g_item = item;
            let ghost st_pop = stack@;
            let ghost old_ns = nodes_view(nodes@);
            proof {
                assert(item_wf(old_ns, g_item));
                assert(stack_size(st_begin) == vsize(g_item.value@) + stack_size(st_pop));
                lemma_vsize_pos(g_item.value@);
            }
            let WorkItem { value, path, parent } = item;
            let ghost gv = g_item.value@;
            let ghost pv = segs_view(g_item.path@);
            let ghost pancs = item_ancs(old_ns, g_item);
            let composite = match &value {
                Value::List(_) | Value::Object(_) => true,
                _ => false,
            };
            if !composite {
                proof {
                    assert(!(gv is Object) && !(gv is List));
                    assert(item_regs(old_ns, g_item) =~= Seq::<(Seq<char>, EntryV)>::empty());
                    assert(
                        Seq::<(Seq<char>, EntryV)>::empty() + remaining(old_ns, stack@)
                        =~= remaining(old_ns, stack@)
                    );
                }
                continue;
            }
            let n0 = nodes.len();
            nodes.push(Node { raw: value, path, parent });
            let ghost nv = nodes_view(nodes@);
            proof {
                assert(nv =~= old_ns.push(nv[n0 as int]));
                assert(nv[n0 as int].raw == gv);
                assert(nv[n0 as int].path == pv);
                // the old arena, the stack and the id map ignore the appended node
                lemma_remaining_push(old_ns, nv[n0 as int], stack@);
                lemma_ids_push_stable(ids@, old_ns, nv[n0 as int]);
                // the new node is well formed, so the whole arena still is
                assert(wf_node_at(nv, n0 as int));
                assert forall|j: int| 0 <= j < nv.len() implies #[trigger] wf_node_at(nv, j) by {
                    if j < n0 as int {
                        assert(wf_node_at(old_ns, j));
                    }
                }
                // its ancestor chain is the one the work item recorded
                if g_item.parent is Some {
                    let p = g_item.parent->0 as int;
                    lemma_anc_chain_push(old_ns, nv[n0 as int], p);
                    assert(nv[p] == old_ns[p]);
                    assert(anc_chain(nv, n0 as int) == seq![nv[p].raw] + anc_chain(nv, p));
                }
                assert(anc_chain(nv, n0 as int) == pancs);
                assert(entry_at(nv, n0 as int) == (EntryV { raw: gv, path: pv, ancs: pancs }));
            }
            match &nodes[n0].raw {
                Value::Object(entries) => {
                    proof {
                        lemma_vv_entries_props(entries@);
                        assert(gv == ValueV::Object(vv_entries(entries@)));
                    }
                    let ghost esv = vv_entries(entries@);
                    let ghost cancs = seq![gv] + pancs;
                    proof {
                        assert(vsize(gv) == 1 + entries_vsize(esv, 0));
                        assert(reg_seq(gv, pv, pancs) == own_regs_from(esv, 0, gv, pv, pancs)
                            + obj_regs_from(esv, 0, pv, cancs));
                        assert(
                            (own_regs_from(esv, 0, gv, pv, pancs)
                                + obj_regs_from(esv, 0, pv, cancs)) + remaining(nv, stack@)
                            =~= own_regs_from(esv, 0, gv, pv, pancs)
                                + (obj_regs_from(esv, 0, pv, cancs) + remaining(nv, stack@))
                        );
                    }
                    let mut i: usize = 0;
                    while i < entries.len()
                        invariant
                            i <= entries.len(),
                            ids_in_bounds(ids@, nv),
                            items_wf(nv, stack@),
                            apply_regs(
                                ids_map(ids@, nv),
                                own_regs_from(esv, i as int, gv, pv, pancs) + (obj_regs_from(
                                    esv,
                                    i as int,
                                    pv,
                                    cancs,
                                ) + remaining(nv, stack@)),
                            ) == index_of(root@),
                            stack_size(stack@) + entries_vsize(esv, i as int) <= stack_size(st_pop)
                                + entries_vsize(esv, 0),
                        decreases entries.len() - i,
                    {
                        proof {
                            assert(entries_vsize(esv, i as int) == vsize(esv[i as int].1)
                                + entries_vsize(esv, i + 1 as int));
                        }
                        let ghost own_rest = own_regs_from(esv, i + 1 as int, gv, pv, pancs);
                        let ghost obj_rest = obj_regs_from(esv, i + 1 as int, pv, cancs);
                        let key_matches = key_is(&entries[i].0, "id");
                        if key_matches {
                            match &entries[i].1 {
                                Value::Text(s) => {
                                    proof {
                                        assert(esv[i as int].1 == ValueV::Text(s@));
                                    }
                                    let ghost m0 = ids_map(ids@, nv);
                                    let ghost ids0 = ids@;
                                    let ghost head = (s@, (EntryV { raw: gv, path: pv, ancs: pancs }));
                                    let sc = s.clone();
                                    ids.push((sc, n0));
                                    proof {
                                        lemma_ids_map_reg(ids0, nv, sc, n0);
                                        assert(ids0.push((sc, n0)) =~= ids@);
                                        assert(head == (sc@, entry_at(nv, n0 as int)));
                                        assert(ids_map(ids@, nv) == m0.insert(head.0, head.1));
                                        assert(own_regs_from(esv, i as int, gv, pv, pancs)
                                            == seq![head] + own_rest);
                                        assert(
                                            (seq![head] + own_rest) + (obj_regs_from(esv, i as int, pv, cancs)
                                                + remaining(nv, stack@))
                                            =~= seq![head] + (own_rest + (obj_regs_from(esv, i as int, pv, cancs)
                                                + remaining(nv, stack@)))
                                        );
                                        lemma_apply_regs_cons(
                                            m0,
                                            head,
                                            own_rest + (obj_regs_from(esv, i as int, pv, cancs)
                                                + remaining(nv, stack@)),
                                        );
                                    }
                                },
                                _ => {
                                    proof {
                                        assert(!(esv[i as int].1 is Text));
                                        assert(own_regs_from(esv, i as int, gv, pv, pancs) == own_rest);
                                    }
                                },
                            }
                        } else {
                            proof {
                                assert(esv[i as int].0 != "id"@);
                                assert(own_regs_from(esv, i as int, gv, pv, pancs) == own_rest);
                            }
                        }
                        let ghost child_seg = SegV::Text(esv[i as int].0);
                        let ghost child_regs = reg_seq(esv[i as int].1, pv.push(child_seg), cancs);
                        proof {
                            assert(obj_regs_from(esv, i as int, pv, cancs) == obj_rest + child_regs);
                        }
                        let child_composite = match &entries[i].1 {
                            Value::List(_) | Value::Object(_) => true,
                            _ => false,
                        };
                        if child_composite {
                            let mut cpath = clone_path(&nodes[n0].path);
                            cpath.push(Segment::Text(entries[i].0.clone()));
                            let ghost st0 = stack@;
                            stack.push(WorkItem {
                                value: entries[i].1.deep_clone(),
                                path: cpath,
                                parent: Some(n0),
                            });
                            proof {
                                let it = stack@.last();
                                assert(stack@.drop_last() =~= st0);
                                assert(stack_size(stack@) == vsize(it.value@) + stack_size(st0));
                                assert(segs_view(it.path@) =~= pv.push(child_seg));
                                assert(it.value@ == esv[i as int].1);
                                assert(item_ancs(nv, it) == cancs);
                                assert(item_regs(nv, it) == child_regs);
                                assert(remaining(nv, stack@) == child_regs + remaining(nv, st0));
                                assert(pv.push(child_seg).drop_last() =~= pv);
                                assert(item_wf(nv, it));
                                assert forall|k: int| 0 <= k < stack@.len() implies #[trigger] item_wf(
                                    nv,
                                    stack@[k],
                                ) by {
                                    if k < st0.len() {
                                        assert(stack@[k] == st0[k]);
                                        assert(item_wf(nv, st0[k]));
                                    }
                                }
                                assert(
                                    own_rest + ((obj_rest + child_regs) + remaining(nv, st0))
                                    =~= own_rest + (obj_rest + (child_regs + remaining(nv, st0)))
                                );
                            }
                        } else {
                            proof {
                                let cv = esv[i as int].1;
                                assert(!(cv is Object) && !(cv is List));
                                assert(child_regs =~= Seq::<(Seq<char>, EntryV)>::empty());
                                assert(
                                    own_rest + ((obj_rest + child_regs) + remaining(nv, stack@))
                                    =~= own_rest + (obj_rest + remaining(nv, stack@))
                                );
                            }
                        }
                        i += 1;
                    }
                    proof {
                        assert(own_regs_from(esv, entries@.len() as int, gv, pv, pancs)
                            =~= Seq::<(Seq<char>, EntryV)>::empty());
                        assert(obj_regs_from(esv, entries@.len() as int, pv, cancs)
                            =~= Seq::<(Seq<char>, EntryV)>::empty());
                        assert(
                            Seq::<(Seq<char>, EntryV)>::empty() + (Seq::<(Seq<char>, EntryV)>::empty()
                                + remaining(nv, stack@))
                            =~= remaining(nv, stack@)
                        );
                        assert(entries_vsize(esv, entries@.len() as int) == 0);
                        assert(stack_size(stack@) < stack_size(st_begin));
                    }
                },
                Value::List(items) => {
                    proof {
                        lemma_vv_list_props(items@);
                        assert(gv == ValueV::List(vv_list(items@)));
                    }
                    let ghost iv = vv_list(items@);
                    let ghost cancs = seq![gv] + pancs;
                    proof {
                        assert(vsize(gv) == 1 + items_vsize(iv, 0));
                        assert(reg_seq(gv, pv, pancs) == list_regs_from(iv, 0, pv, cancs));
                    }
                    let mut i: usize = 0;
                    while i < items.len()
                        invariant
                            i <= items.len(),
                            ids_in_bounds(ids@, nv),
                            items_wf(nv, stack@),
                            apply_regs(
                                ids_map(ids@, nv),
                                list_regs_from(iv, i as int, pv, cancs) + remaining(nv, stack@),
                            ) == index_of(root@),
                            stack_size(stack@) + items_vsize(iv, i as int) <= stack_size(st_pop)
                                + items_vsize(iv, 0),
                        decreases items.len() - i,
                    {
                        proof {
                            assert(items_vsize(iv, i as int) == vsize(iv[i as int])
                                + items_vsize(iv, i + 1 as int));
                        }
                        let ghost list_rest = list_regs_from(iv, i + 1 as int, pv, cancs);
                        let ghost child_seg = SegV::Numeric(i as int);
                        let ghost child_regs = reg_seq(iv[i as int], pv.push(child_seg), cancs);
                        proof {
                            assert(list_regs_from(iv, i as int, pv, cancs) == list_rest + child_regs);
                        }
                        let child_composite = match &items[i] {
                            Value::List(_) | Value::Object(_) => true,
                            _ => false,
                        };
                        if child_composite {
                            let mut cpath = clone_path(&nodes[n0].path);
                            cpath.push(Segment::Numeric(i));
                            let ghost st0 = stack@;
                            stack.push(WorkItem {
                                value: items[i].deep_clone(),
                                path: cpath,
                                parent: Some(n0),
                            });
                            proof {
                                let it = stack@.last();
                                assert(stack@.drop_last() =~= st0);
                                assert(stack_size(stack@) == vsize(it.value@) + stack_size(st0));
                                assert(segs_view(it.path@) =~= pv.push(child_seg));
                                assert(it.value@ == iv[i as int]);
                                assert(item_ancs(nv, it) == cancs);
                                assert(item_regs(nv, it) == child_regs);
                                assert(remaining(nv, stack@) == child_regs + remaining(nv, st0));
                                assert(pv.push(child_seg).drop_last() =~= pv);
                                assert(item_wf(nv, it));
                                assert forall|k: int| 0 <= k < stack@.len() implies #[trigger] item_wf(
                                    nv,
                                    stack@[k],
                                ) by {
                                    if k < st0.len() {
                                        assert(stack@[k] == st0[k]);
                                        assert(item_wf(nv, st0[k]));
                                    }
                                }
                                assert(
                                    (list_rest + child_regs) + remaining(nv, st0)
                                    =~= list_rest + (child_regs + remaining(nv, st0))
                                );
                            }
                        } else {
                            proof {
                                let cv = iv[i as int];
                                assert(!(cv is Object) && !(cv is List));
                                assert(child_regs =~= Seq::<(Seq<char>, EntryV)>::empty());
                                assert(
                                    (list_rest + child_regs) + remaining(nv, stack@)
                                    =~= list_rest + remaining(nv, stack@)
                                );
                            }
                        }
                        i += 1;
                    }
                    proof {
                        assert(list_regs_from(iv, items@.len() as int, pv, cancs)
                            =~= Seq::<(Seq<char>, EntryV)>::empty());
                        assert(
                            Seq::<(Seq<char>, EntryV)>::empty() + remaining(nv, stack@)
                            =~= remaining(nv, stack@)
                        );
                        assert(items_vsize(iv, items@.len() as int) == 0);
                        assert(stack_size(stack@) < stack_size(st_begin));
                    }
                },
                _ => {
                    proof {
                        assert(false);
                    }
                },
            }
        }
        proof {
            assert(remaining(nodes_view(nodes@), stack@) =~= Seq::<(Seq<char>, EntryV)>::empty());
        }
        *self = Paths { nodes, ids };
    }

    /// The exact path recorded for an id in the latest walk, or nothing if
    /// the id was not seen in the current snapshot.
    pub fn get(&self, id: &str) -> (r: Option<Vec<Segment>>)
        ensures
            self@.contains_key(id@) ==> r is Some && segs_view(r->0@) == self@[id@].path,
            !self@.contains_key(id@) ==> r is None,
    {
        proof {
            use_type_invariant(&*self);
        }
        match self.find(id) {
            Some(j) => Some(clone_path(&self.nodes[j].path)),
            None => None,
        }
    }
}

/// The first (nearest) ancestor at or after position `k` that satisfies the
/// query, walking away from the node.
pub open spec fn fm_from(q: QueryV, ancs: Seq<ValueV>, k: int) -> Option<int>
    decreases ancs.len() - k,
{
    if k < 0 || k >= ancs.len() {
        None
    } else if eval(q, ancs[k]) {
        Some(k)
    } else {
        fm_from(q, ancs, k + 1)
    }
}

/// The last (farthest, nearest the root) ancestor before position `k` that
/// satisfies the query.
pub open spec fn lm_below(q: QueryV, ancs: Seq<ValueV>, k: int) -> Option<int>
    decreases k,
{
    if k <= 0 || k > ancs.len() {
        None
    } else if eval(q, ancs[k - 1]) {
        Some(k - 1)
    } else {
        lm_below(q, ancs, k - 1)
    }
}

/// Which satisfying ancestor a query selects: a list query takes the
/// farthest match, every other variant the nearest.  This asymmetry is part
/// of the resolution contract.
pub open spec fn sel_anc(q: QueryV, ancs: Seq<ValueV>) -> Option<int> {
    if q is List {
        lm_below(q, ancs, ancs.len() as int)
    } else {
        fm_from(q, ancs, 0)
    }
}

/// What resolving an id against a query yields: nothing for an unknown id;
/// the node's full path for the wildcard; otherwise the suffix of the
/// node's path below the selected satisfying ancestor, or nothing when no
/// ancestor satisfies the query.
pub open spec fn resolve_path_spec(
    idx: Map<Seq<char>, EntryV>,
    id: Seq<char>,
    q: QueryV,
) -> Option<Seq<SegV>> {
    if !idx.contains_key(id) {
        None
    } else {
        let e = idx[id];
        if q is Absent {
            Some(e.path)
        } else {
            match sel_anc(q, e.ancs) {
                Some(k) => Some(e.path.subrange(e.path.len() - 1 - k, e.path.len() as int)),
                None => None,
            }
        }
    }
}

/// The immediate parent's raw value, if and only if the id is known, has a
/// parent, and that parent alone satisfies the query.
pub open spec fn parent_of_spec(
    idx: Map<Seq<char>, EntryV>,
    id: Seq<char>,
    q: QueryV,
) -> Option<ValueV> {
    if idx.contains_key(id) && idx[id].ancs.len() > 0 && eval(q, idx[id].ancs[0]) {
        Some(idx[id].ancs[0])
    } else {
        None
    }
}

/// The segment under which the node sits in its immediate parent: the last
/// segment of its path; nothing for the root or an unknown id.
pub open spec fn parent_prop_spec(idx: Map<Seq<char>, EntryV>, id: Seq<char>) -> Option<SegV> {
    if idx.contains_key(id) && idx[id].ancs.len() > 0 && idx[id].path.len() > 0 {
        Some(idx[id].path.last())
    } else {
        None
    }
}

/// The raw value recorded for an id.
pub open spec fn raw_spec(idx: Map<Seq<char>, EntryV>, id: Seq<char>) -> Option<ValueV> {
    if idx.contains_key(id) {
        Some(idx[id].raw)
    } else {
        None
    }
}

impl Paths {
    /// Resolve an id against a query: the node's own path for the wildcard,
    /// else the path suffix below the satisfying ancestor the query selects.
    #[verifier::loop_isolation(false)]
    pub fn resolve_path(&self, id: &str, query: &Query) -> (r: Option<Vec<Segment>>)
        ensures
            match resolve_path_spec(self@, id@, query@) {
                Some(p) => r is Some && segs_view(r->0@) == p,
                None => r is None,
            },
    {
        proof {
            use_type_invariant(&*self);
        }
        let j = match self.find(id) {
            None => {
                return None;
            },
            Some(j) => j,
        };
        if let Query::Absent = query {
            return Some(clone_path(&self.nodes[j].path));
        }
        let ghost ns = nodes_view(self.nodes@);
        let ghost e = self@[id@];
        let ghost q = query@;
        let d = self.nodes[j].path.len();
        proof {
            lemma_anc_chain_len(ns, j as int);
            assert(e.ancs.len() == d);
            assert(e.path.len() == d);
            assert(wf_node_at(ns, j as int));
            assert(e.path.take(d as int) =~= e.path);
            assert(e.ancs.skip(0) =~= e.ancs);
        }
        let mut cur = self.nodes[j].parent;
        let ghost mut k: int = 0;
        let mut first_len: Option<usize> = None;
        let mut last_len: Option<usize> = None;
        let ghost mut kf: int = 0;
        let ghost mut kl: int = 0;
        proof {
            if self.nodes@[j as int].parent is Some {
                assert(anc_chain(ns, j as int) == e.ancs);
            }
        }
        loop
            invariant
                0 <= k <= e.ancs.len(),
                match cur {
                    Some(p) => {
                        &&& k < e.ancs.len()
                        &&& (p as int) < ns.len()
                        &&& seq![ns[p as int].raw] + anc_chain(ns, p as int) == e.ancs.skip(k)
                        &&& ns[p as int].path == e.path.take(d - 1 - k)
                    },
                    None => k == e.ancs.len(),
                },
                match first_len {
                    Some(fl) => {
                        &&& 0 <= kf < k
                        &&& fm_from(q, e.ancs, 0) == Some(kf)
                        &&& (fl as int) == d - 1 - kf
                    },
                    None => fm_from(q, e.ancs, 0) == fm_from(q, e.ancs, k),
                },
                match last_len {
                    Some(ll) => {
                        &&& 0 <= kl < k
                        &&& lm_below(q, e.ancs, k) == Some(kl)
                        &&& (ll as int) == d - 1 - kl
                    },
                    None => lm_below(q, e.ancs, k) is None,
                },
            decreases (match cur {
                Some(p) => p as int + 1,
                None => 0int,
            }),
        {
            let p = match cur {
                None => {
                    break;
                },
                Some(p) => p,
            };
            proof {
                assert(e.ancs.skip(k)[0] == e.ancs[k]);
                assert(ns[p as int].raw == e.ancs[k]);
            }
            let hit = query.equals(&self.nodes[p].raw);
            let plen = self.nodes[p].path.len();
            proof {
                assert(segs_view(self.nodes@[p as int].path@).len() == plen);
                assert((plen as int) == d - 1 - k);
            }
            if hit {
                if first_len.is_none() {
                    first_len = Some(plen);
                    proof {
                        kf = k;
                    }
                }
                last_len = Some(plen);
                proof {
                    kl = k;
                }
            }
            proof {
                assert(wf_node_at(ns, p as int));
                assert(e.ancs.skip(k).drop_first() =~= e.ancs.skip(k + 1));
                if ns[p as int].parent is Some {
                    let p2 = ns[p as int].parent->0;
                    assert(anc_chain(ns, p as int) == seq![ns[p2].raw] + anc_chain(ns, p2));
                    assert(ns[p2].path =~= e.path.take(d - 1 - (k + 1)));
                } else {
                    assert(anc_chain(ns, p as int) == Seq::<ValueV>::empty());
                    assert(ns[p as int].path.len() == 0);
                    assert(d - 1 - k == 0);
                }
            }
            cur = self.nodes[p].parent;
            proof {
                k = k + 1;
            }
        }
        let ghost sel = sel_anc(q, e.ancs);
        let is_list = match query {
            Query::List(_) => true,
            _ => false,
        };
        let chosen = if is_list {
            last_len
        } else {
            first_len
        };
        proof {
            match chosen {
                Some(cl) => {
                    assert(sel == Some(if q is List { kl } else { kf }));
                },
                None => {
                    assert(sel is None);
                },
            }
        }
        match chosen {
            None => None,
            Some(start) => {
                let ghost ks = if q is List {
                    kl
                } else {
                    kf
                };
                let mut out: Vec<Segment> = Vec::new();
                let mut t = start;
                proof {
                    assert(segs_view(out@) =~= e.path.subrange(start as int, start as int));
                }
                while t < d
                    invariant
                        start <= t <= d,
                        segs_view(out@) == e.path.subrange(start as int, t as int),
                    decreases d - t,
                {
                    out.push(self.nodes[j].path[t].dup());
                    proof {
                        assert(segs_view(out@) =~= e.path.subrange(start as int, t + 1 as int));
                    }
                    t += 1;
                }
                proof {
                    assert(segs_view(out@) == e.path.subrange(
                        e.path.len() - 1 - ks,
                        e.path.len() as int,
                    ));
                }
                Some(out)
            },
        }
    }

    /// The immediate parent's raw value, if it alone satisfies the query;
    /// the walk never looks past the immediate parent.
    pub fn resolve_parent(&self, id: &str, query: &Query) -> (r: Option<Value>)
        ensures
            match parent_of_spec(self@, id@, query@) {
                Some(pv) => r is Some && r->0@ == pv,
                None => r is None,
            },
    {
        proof {
            use_type_invariant(&*self);
        }
        let j = match self.find(id) {
            None => {
                return None;
            },
            Some(j) => j,
        };
        let ghost ns = nodes_view(self.nodes@);
        proof {
            assert(wf_node_at(ns, j as int));
        }
        let p = match self.nodes[j].parent {
            None => {
                proof {
                    assert(self@[id@].ancs.len() == 0);
                }
                return None;
            },
            Some(p) => p,
        };
        proof {
            assert(self@[id@].ancs[0] == ns[p as int].raw);
        }
        if query.equals(&self.nodes[p].raw) {
            Some(self.nodes[p].raw.deep_clone())
        } else {
            None
        }
    }

    /// The key or index under which the node sits in its immediate parent;
    /// nothing for the root or an unknown id.
    pub fn resolve_parent_property(&self, id: &str) -> (r: Option<Segment>)
        ensures
            match parent_prop_spec(self@, id@) {
                Some(sv) => r is Some && r->0@ == sv,
                None => r is None,
            },
    {
        proof {
            use_type_invariant(&*self);
        }
        let j = match self.find(id) {
            None => {
                return None;
            },
            Some(j) => j,
        };
        let ghost ns = nodes_view(self.nodes@);
        proof {
            assert(wf_node_at(ns, j as int));
        }
        match self.nodes[j].parent {
            None => {
                proof {
                    assert(self@[id@].ancs.len() == 0);
                }
                None
            },
            Some(_) => {
                proof {
                    lemma_anc_chain_len(ns, j as int);
                    assert(self@[id@].path.len() >= 1);
                }
                let d = self.nodes[j].path.len();
                Some(self.nodes[j].path[d - 1].dup())
            },
        }
    }

    /// Whether the immediate parent satisfies the query; deliberately a
    /// check on the immediate parent only, never the transitive chain.
    pub fn has_ancestor_matching(&self, id: &str, query: &Query) -> (r: bool)
        ensures
            r == (parent_of_spec(self@, id@, query@) is Some),
    {
        self.resolve_parent(id, query).is_some()
    }

    /// The raw value recorded for an id, for direct inspection.
    pub fn get_raw(&self, id: &str) -> (r: Option<Value>)
        ensures
            match raw_spec(self@, id@) {
                Some(rv) => r is Some && r->0@ == rv,
                None => r is None,
            },
    {
        proof {
            use_type_invariant(&*self);
        }
        match self.find(id) {
            None => None,
            Some(j) => Some(self.nodes[j].raw.deep_clone()),
        }
    }
}

} // verus!
