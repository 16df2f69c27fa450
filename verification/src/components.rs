//! Splitting a layered graph into its connected components.
//!
//! A depth-first search marks the nodes it visits with scratch number 1 and
//! collects them; every unvisited node of the graph starts a new component,
//! which becomes a graph of its own.

use vstd::prelude::*;
use crate::layered_options::{
    consider_model_order_components, consider_model_order_components_id, ext_port_connections,
    ext_port_connections_id, ext_port_side, ext_port_side_id, graph_properties, graph_properties_id,
    node_size_minimum, node_size_minimum_id, port_constraints, port_constraints_id,
    separate_connected_components, separate_connected_components_id, priority, priority_id,
    compaction_connected_components, compaction_connected_components_id,
};
use crate::lgraph::{
    arena_wf, connected, incoming_neighbor, links_consistent, node_with_graph, node_with_id, outgoing_neighbor, LEdge,
    LGraph, LGraphArena, LGraphId, LNode, LNodeId, LPort, LPortId,
};
use crate::options::{order_fixed, ComponentOrderingStrategy, GraphProperties, NodeType, PortConstraints, PortSide};
use crate::properties::{index_of, EnumSet};
use crate::property_map::{erase, put, put_all, read, PropValue, PropertyMap, StoredValue};

verus! {

/// Splits a layered graph into its connected components and gathers them
/// back after layout.
pub struct ComponentsProcessor;

/// How many nodes still carry scratch number 0.
pub open spec fn unvisited_count(nodes: Seq<LNode>) -> nat
    decreases nodes.len(),
{
    if nodes.len() == 0 {
        0
    } else {
        unvisited_count(nodes.drop_last()) + if nodes.last().id == 0 {
            1nat
        } else {
            0nat
        }
    }
}

/// `b` has `a`'s ports and edges, and each node keeps its ports, type,
/// nested graph and properties: only scratch numbers and owning graphs may
/// differ.
pub open spec fn same_links(a: &LGraphArena, b: &LGraphArena) -> bool {
    &&& b.nodes@.len() == a.nodes@.len()
    &&& b.ports@ == a.ports@
    &&& b.edges@ == a.edges@
    &&& forall|n: int|
        0 <= n < a.nodes@.len() ==> {
            &&& (#[trigger] b.nodes@[n]).ports == a.nodes@[n].ports
            &&& b.nodes@[n].node_type == a.nodes@[n].node_type
            &&& b.nodes@[n].nested_graph == a.nodes@[n].nested_graph
            &&& b.nodes@[n].properties == a.nodes@[n].properties
        }
}

/// The nodes of `b` are those of `a`, except that the nodes listed in `s`
/// carry scratch number 1.
pub open spec fn marked(a: &LGraphArena, b: &LGraphArena, s: Seq<LNodeId>) -> bool {
    &&& b.nodes@.len() == a.nodes@.len()
    &&& forall|n: int|
        0 <= n < a.nodes@.len() ==> #[trigger] b.nodes@[n] == node_with_id(
            a.nodes@[n],
            if s.contains(LNodeId(n as usize)) {
                1i32
            } else {
                a.nodes@[n].id
            },
        )
}

/// `p` is a walk along `connected` steps whose nodes all belong to `s`.
pub open spec fn walk_in(a: &LGraphArena, p: Seq<LNodeId>, s: Seq<LNodeId>) -> bool {
    &&& p.len() > 0
    &&& forall|i: int| 0 <= i < p.len() ==> s.contains(#[trigger] p[i])
    &&& forall|i: int| 0 <= i < p.len() - 1 ==> #[trigger] connected(a, p[i], p[i + 1])
}

/// `y` can be reached from `x` by a walk that stays within `s`.
pub open spec fn linked_within(a: &LGraphArena, x: LNodeId, y: LNodeId, s: Seq<LNodeId>) -> bool {
    exists|p: Seq<LNodeId>| #[trigger] walk_in(a, p, s) && p[0] == x && p.last() == y
}

/// The side of the graph an external-port dummy stands for: its
/// `externalPortSide` property, UNDEFINED if unset.
pub open spec fn ext_side_of(n: LNode) -> PortSide {
    match read::<PortSide>(n.properties@, ext_port_side_id()) {
        Some(s) => s,
        None => PortSide::UNDEFINED,
    }
}

/// The sides of the external-port dummies among the nodes `s`.
pub open spec fn ext_sides(nodes: Seq<LNode>, s: Seq<LNodeId>) -> Set<PortSide>
    decreases s.len(),
{
    if s.len() == 0 {
        Set::empty()
    } else {
        let rest = ext_sides(nodes, s.drop_last());
        let n = nodes[s.last().0 as int];
        if n.node_type == NodeType::EXTERNAL_PORT {
            rest.insert(ext_side_of(n))
        } else {
            rest
        }
    }
}

/// The links of an arena: each node's port list, the ports and the edges.
pub open spec fn links_of(a: &LGraphArena) -> (Seq<Seq<LPortId>>, Seq<LPort>, Seq<LEdge>) {
    (Seq::new(a.nodes@.len(), |n: int| a.nodes@[n].ports@), a.ports@, a.edges@)
}

/// The indices of the nodes with a nonzero scratch number.
pub open spec fn visited_set(a: &LGraphArena) -> Set<int> {
    Set::new(|n: int| 0 <= n < a.nodes@.len() && a.nodes@[n].id != 0)
}

/// The node at the other end of the `k`-th incoming edge of port `p`.
pub open spec fn link_in(lk: (Seq<Seq<LPortId>>, Seq<LPort>, Seq<LEdge>), p: LPortId, k: int) -> Option<LNodeId> {
    match lk.2[lk.1[p.0 as int].incoming_edges@[k].0 as int].source {
        Some(q) => lk.1[q.0 as int].node,
        None => None,
    }
}

/// The node at the other end of the `k`-th outgoing edge of port `p`.
pub open spec fn link_out(lk: (Seq<Seq<LPortId>>, Seq<LPort>, Seq<LEdge>), p: LPortId, k: int) -> Option<LNodeId> {
    match lk.2[lk.1[p.0 as int].outgoing_edges@[k].0 as int].target {
        Some(q) => lk.1[q.0 as int].node,
        None => None,
    }
}

/// The depth-first search from `x` with the nodes `m` already visited: the
/// nodes visited afterwards, and the nodes found, in the order they are
/// found. Per node the ports are taken in order, and per port the sources
/// of the incoming edges before the targets of the outgoing ones; `f`
/// bounds the depth.
pub open spec fn dfs_visit(lk: (Seq<Seq<LPortId>>, Seq<LPort>, Seq<LEdge>), m: Set<int>, x: LNodeId, f: nat) -> (Set<int>, Seq<LNodeId>)
    decreases f, 0int, 0int, 0int,
{
    if m.contains(x.0 as int) || f == 0 {
        (m, Seq::empty())
    } else {
        let r = dfs_ports(lk, m.insert(x.0 as int), x, 0, (f - 1) as nat);
        (r.0, seq![x] + r.1)
    }
}

/// The search through the ports of `x` from the `i`-th on.
pub open spec fn dfs_ports(lk: (Seq<Seq<LPortId>>, Seq<LPort>, Seq<LEdge>), m: Set<int>, x: LNodeId, i: int, f: nat) -> (Set<int>, Seq<LNodeId>)
    decreases f, lk.0[x.0 as int].len() + 1 - i, 2int, 0int,
{
    if i < 0 || i >= lk.0[x.0 as int].len() {
        (m, Seq::empty())
    } else {
        dfs_in(lk, m, x, i, 0, f)
    }
}

/// The search through the incoming edges of the `i`-th port of `x` from the
/// `k`-th on, then on.
pub open spec fn dfs_in(lk: (Seq<Seq<LPortId>>, Seq<LPort>, Seq<LEdge>), m: Set<int>, x: LNodeId, i: int, k: int, f: nat) -> (Set<int>, Seq<LNodeId>)
    decreases f, lk.0[x.0 as int].len() + 1 - i, 1int, lk.1[lk.0[x.0 as int][i].0 as int].incoming_edges@.len() + 1 - k,
{
    if i < 0 || i >= lk.0[x.0 as int].len() || k < 0 {
        (m, Seq::empty())
    } else if k >= lk.1[lk.0[x.0 as int][i].0 as int].incoming_edges@.len() {
        dfs_out(lk, m, x, i, 0, f)
    } else {
        let r1 = match link_in(lk, lk.0[x.0 as int][i], k) {
            Some(y) => dfs_visit(lk, m, y, f),
            None => (m, Seq::empty()),
        };
        let r2 = dfs_in(lk, r1.0, x, i, k + 1, f);
        (r2.0, r1.1 + r2.1)
    }
}

/// The search through the outgoing edges of the `i`-th port of `x` from the
/// `k`-th on, then on.
pub open spec fn dfs_out(lk: (Seq<Seq<LPortId>>, Seq<LPort>, Seq<LEdge>), m: Set<int>, x: LNodeId, i: int, k: int, f: nat) -> (Set<int>, Seq<LNodeId>)
    decreases f, lk.0[x.0 as int].len() + 1 - i, 0int, lk.1[lk.0[x.0 as int][i].0 as int].outgoing_edges@.len() + 1 - k,
{
    if i < 0 || i >= lk.0[x.0 as int].len() || k < 0 {
        (m, Seq::empty())
    } else if k >= lk.1[lk.0[x.0 as int][i].0 as int].outgoing_edges@.len() {
        dfs_ports(lk, m, x, i + 1, f)
    } else {
        let r1 = match link_out(lk, lk.0[x.0 as int][i], k) {
            Some(y) => dfs_visit(lk, m, y, f),
            None => (m, Seq::empty()),
        };
        let r2 = dfs_out(lk, r1.0, x, i, k + 1, f);
        (r2.0, r1.1 + r2.1)
    }
}

/// What a depth-first search from `root` has done when it turned `a0` into
/// `a1` and appended `added`: exactly the nodes reachable from `root` through
/// nodes unvisited in `a0` are appended (`root` first) and marked, nothing
/// else changes.
pub open spec fn search_done(a0: &LGraphArena, a1: &LGraphArena, root: LNodeId, added: Seq<LNodeId>) -> bool {
    &&& a1.graphs@ == a0.graphs@
    &&& a1.ports@ == a0.ports@
    &&& a1.edges@ == a0.edges@
    &&& a1.labels@ == a0.labels@
    &&& marked(a0, a1, added)
    &&& added.no_duplicates()
    &&& forall|j: int|
        0 <= j < added.len() ==> (#[trigger] added[j]).0 < a0.nodes@.len() && a0.nodes@[added[j].0 as int].id == 0
    &&& (a0.nodes@[root.0 as int].id == 0 ==> added.len() > 0 && added[0] == root)
    &&& (a0.nodes@[root.0 as int].id != 0 ==> added.len() == 0)
    &&& forall|j: int| 0 <= j < added.len() ==> linked_within(a0, root, #[trigger] added[j], added)
    &&& forall|j: int, y: LNodeId|
        0 <= j < added.len() && #[trigger] connected(a0, added[j], y) ==> a1.nodes@[y.0 as int].id != 0
}

/// A search from `root` in progress: `root` and the nodes after it in
/// `added` are marked, and the neighbours of every node but `root` are
/// visited.
spec fn search_progress(a0: &LGraphArena, cur: &LGraphArena, root: LNodeId, added: Seq<LNodeId>) -> bool {
    &&& cur.graphs@ == a0.graphs@
    &&& cur.ports@ == a0.ports@
    &&& cur.edges@ == a0.edges@
    &&& cur.labels@ == a0.labels@
    &&& marked(a0, cur, added)
    &&& added.no_duplicates()
    &&& forall|j: int|
        0 <= j < added.len() ==> (#[trigger] added[j]).0 < a0.nodes@.len() && a0.nodes@[added[j].0 as int].id == 0
    &&& added.len() > 0
    &&& added[0] == root
    &&& forall|j: int| 0 <= j < added.len() ==> linked_within(a0, root, #[trigger] added[j], added)
    &&& forall|j: int, y: LNodeId|
        1 <= j < added.len() && #[trigger] connected(a0, added[j], y) ==> cur.nodes@[y.0 as int].id != 0
}

/// The neighbours of `root` found through the ports before `i`, and through
/// the first `kin` incoming and `kout` outgoing edges of port `i`, are
/// visited in `cur`.
spec fn handled(a0: &LGraphArena, cur: &LGraphArena, root: LNodeId, i: int, kin: int, kout: int) -> bool {
    let ports = a0.nodes@[root.0 as int].ports@;
    &&& forall|i2: int, k2: int|
        0 <= i2 < ports.len() && 0 <= k2 < a0.ports@[ports[i2].0 as int].incoming_edges@.len() && (i2 < i
            || (i2 == i && k2 < kin)) ==> (#[trigger] incoming_neighbor(a0, ports[i2], k2) matches Some(y)
            ==> cur.nodes@[y.0 as int].id != 0)
    &&& forall|i2: int, k2: int|
        0 <= i2 < ports.len() && 0 <= k2 < a0.ports@[ports[i2].0 as int].outgoing_edges@.len() && (i2 < i
            || (i2 == i && k2 < kout)) ==> (#[trigger] outgoing_neighbor(a0, ports[i2], k2) matches Some(y)
            ==> cur.nodes@[y.0 as int].id != 0)
}

proof fn lemma_unvisited_count_mono(s: Seq<LNode>, t: Seq<LNode>, k: int)
    requires
        s.len() == t.len(),
        forall|i: int| 0 <= i < t.len() && (#[trigger] t[i]).id == 0 ==> s[i].id == 0,
    ensures
        unvisited_count(t) <= unvisited_count(s),
        0 <= k < s.len() && s[k].id == 0 && t[k].id != 0 ==> unvisited_count(t) < unvisited_count(s),
    decreases s.len(),
{
    if s.len() > 0 {
        let s2 = s.drop_last();
        let t2 = t.drop_last();
        assert forall|i: int| 0 <= i < t2.len() && (#[trigger] t2[i]).id == 0 implies s2[i].id == 0 by {
            assert(t2[i] == t[i]);
        }
        lemma_unvisited_count_mono(s2, t2, k);
        assert(t.last() == t[t.len() - 1]);
    }
}

/// Connectivity depends only on what `same_links` keeps.
pub proof fn lemma_connected_same(a: &LGraphArena, b: &LGraphArena, x: LNodeId, y: LNodeId)
    requires
        same_links(a, b),
        x.0 < a.nodes@.len(),
    ensures
        connected(a, x, y) == connected(b, x, y),
{
    let ports = a.nodes@[x.0 as int].ports@;
    assert(b.nodes@[x.0 as int].ports@ == ports);
    assert forall|p: crate::lgraph::LPortId, k: int|
        #[trigger] incoming_neighbor(a, p, k) == incoming_neighbor(b, p, k)
            && outgoing_neighbor(a, p, k) == outgoing_neighbor(b, p, k) by {}
    if exists|i: int, k: int|
        0 <= i < ports.len() && 0 <= k < a.ports@[ports[i].0 as int].incoming_edges@.len()
            && #[trigger] incoming_neighbor(a, ports[i], k) == Some(y) {
        let (i, k) = choose|i: int, k: int|
            0 <= i < ports.len() && 0 <= k < a.ports@[ports[i].0 as int].incoming_edges@.len()
                && #[trigger] incoming_neighbor(a, ports[i], k) == Some(y);
        assert(incoming_neighbor(b, b.nodes@[x.0 as int].ports@[i], k) == Some(y));
    }
    if exists|i: int, k: int|
        0 <= i < ports.len() && 0 <= k < a.ports@[ports[i].0 as int].outgoing_edges@.len()
            && #[trigger] outgoing_neighbor(a, ports[i], k) == Some(y) {
        let (i, k) = choose|i: int, k: int|
            0 <= i < ports.len() && 0 <= k < a.ports@[ports[i].0 as int].outgoing_edges@.len()
                && #[trigger] outgoing_neighbor(a, ports[i], k) == Some(y);
        assert(outgoing_neighbor(b, b.nodes@[x.0 as int].ports@[i], k) == Some(y));
    }
    if exists|i: int, k: int|
        0 <= i < ports.len() && 0 <= k < b.ports@[ports[i].0 as int].incoming_edges@.len()
            && #[trigger] incoming_neighbor(b, ports[i], k) == Some(y) {
        let (i, k) = choose|i: int, k: int|
            0 <= i < ports.len() && 0 <= k < b.ports@[ports[i].0 as int].incoming_edges@.len()
                && #[trigger] incoming_neighbor(b, ports[i], k) == Some(y);
        assert(incoming_neighbor(a, a.nodes@[x.0 as int].ports@[i], k) == Some(y));
    }
    if exists|i: int, k: int|
        0 <= i < ports.len() && 0 <= k < b.ports@[ports[i].0 as int].outgoing_edges@.len()
            && #[trigger] outgoing_neighbor(b, ports[i], k) == Some(y) {
        let (i, k) = choose|i: int, k: int|
            0 <= i < ports.len() && 0 <= k < b.ports@[ports[i].0 as int].outgoing_edges@.len()
                && #[trigger] outgoing_neighbor(b, ports[i], k) == Some(y);
        assert(outgoing_neighbor(a, a.nodes@[x.0 as int].ports@[i], k) == Some(y));
    }
}

/// A neighbour of a node of a well-formed arena is a node of the arena.
pub proof fn lemma_connected_in_range(a: &LGraphArena, x: LNodeId, y: LNodeId)
    requires
        arena_wf(a),
        x.0 < a.nodes@.len(),
        connected(a, x, y),
    ensures
        y.0 < a.nodes@.len(),
{
    let ports = a.nodes@[x.0 as int].ports@;
    if exists|i: int, k: int|
        0 <= i < ports.len() && 0 <= k < a.ports@[ports[i].0 as int].incoming_edges@.len()
            && #[trigger] incoming_neighbor(a, ports[i], k) == Some(y) {
        let (i, k) = choose|i: int, k: int|
            0 <= i < ports.len() && 0 <= k < a.ports@[ports[i].0 as int].incoming_edges@.len()
                && #[trigger] incoming_neighbor(a, ports[i], k) == Some(y);
        let p = ports[i];
        assert(a.nodes@[x.0 as int].ports@[i] == p);
        let e = a.ports@[p.0 as int].incoming_edges@[k];
        let q = a.edges@[e.0 as int].source->0;
        assert(a.ports@[q.0 as int].node == Some(y));
    } else {
        let (i, k) = choose|i: int, k: int|
            0 <= i < ports.len() && 0 <= k < a.ports@[ports[i].0 as int].outgoing_edges@.len()
                && #[trigger] outgoing_neighbor(a, ports[i], k) == Some(y);
        let p = ports[i];
        assert(a.nodes@[x.0 as int].ports@[i] == p);
        let e = a.ports@[p.0 as int].outgoing_edges@[k];
        let q = a.edges@[e.0 as int].target->0;
        assert(a.ports@[q.0 as int].node == Some(y));
    }
}

/// Well-formedness survives a change of scratch numbers.
proof fn lemma_wf_marked(a: &LGraphArena, b: &LGraphArena, s: Seq<LNodeId>)
    requires
        arena_wf(a),
        marked(a, b, s),
        b.graphs@ == a.graphs@,
        b.ports@ == a.ports@,
        b.edges@ == a.edges@,
        b.labels@ == a.labels@,
    ensures
        arena_wf(b),
        same_links(a, b),
{
    assert forall|n: int| 0 <= n < a.nodes@.len() implies #[trigger] b.nodes@[n].graph == a.nodes@[n].graph
        && b.nodes@[n].ports == a.nodes@[n].ports && b.nodes@[n].nested_graph == a.nodes@[n].nested_graph by {
        assert(b.nodes@[n] == node_with_id(a.nodes@[n], b.nodes@[n].id));
    }
}

proof fn lemma_ext_sides_concat(nodes: Seq<LNode>, s: Seq<LNodeId>, t: Seq<LNodeId>)
    ensures
        ext_sides(nodes, s + t) == ext_sides(nodes, s).union(ext_sides(nodes, t)),
    decreases t.len(),
{
    if t.len() == 0 {
        assert(s + t =~= s);
        assert(ext_sides(nodes, s).union(Set::empty()) =~= ext_sides(nodes, s));
    } else {
        lemma_ext_sides_concat(nodes, s, t.drop_last());
        assert((s + t).drop_last() =~= s + t.drop_last());
        assert((s + t).last() == t.last());
        let n = nodes[t.last().0 as int];
        if n.node_type == NodeType::EXTERNAL_PORT {
            assert(ext_sides(nodes, s + t) =~= ext_sides(nodes, s).union(ext_sides(nodes, t)));
        } else {
            assert(ext_sides(nodes, s + t) =~= ext_sides(nodes, s).union(ext_sides(nodes, t)));
        }
    }
}

proof fn lemma_ext_sides_same(a: &LGraphArena, b: &LGraphArena, s: Seq<LNodeId>)
    requires
        same_links(a, b),
        forall|j: int| 0 <= j < s.len() ==> (#[trigger] s[j]).0 < a.nodes@.len(),
    ensures
        ext_sides(a.nodes@, s) == ext_sides(b.nodes@, s),
    decreases s.len(),
{
    if s.len() > 0 {
        let s2 = s.drop_last();
        assert forall|j: int| 0 <= j < s2.len() implies (#[trigger] s2[j]).0 < a.nodes@.len() by {
            assert(s2[j] == s[j]);
        }
        lemma_ext_sides_same(a, b, s2);
        let x = s.last().0 as int;
        assert(s[s.len() - 1] == s.last());
        assert(b.nodes@[x].properties == a.nodes@[x].properties);
    }
}

proof fn lemma_ext_sides_one(nodes: Seq<LNode>, x: LNodeId)
    ensures
        ext_sides(nodes, seq![x]) == (if nodes[x.0 as int].node_type == NodeType::EXTERNAL_PORT {
            set![ext_side_of(nodes[x.0 as int])]
        } else {
            Set::empty()
        }),
{
    assert(seq![x].drop_last() =~= Seq::<LNodeId>::empty());
    assert(seq![x].last() == x);
    assert(ext_sides(nodes, Seq::<LNodeId>::empty()) == Set::<PortSide>::empty());
    assert(ext_sides(nodes, seq![x]) =~= (if nodes[x.0 as int].node_type == NodeType::EXTERNAL_PORT {
        set![ext_side_of(nodes[x.0 as int])]
    } else {
        Set::empty()
    }));
}

/// A walk within `s` is a walk within any `t` that holds `s`.
proof fn lemma_linked_widen(a: &LGraphArena, x: LNodeId, y: LNodeId, s: Seq<LNodeId>, t: Seq<LNodeId>)
    requires
        linked_within(a, x, y, s),
        forall|z: LNodeId| s.contains(z) ==> #[trigger] t.contains(z),
    ensures
        linked_within(a, x, y, t),
{
    let p = choose|p: Seq<LNodeId>| #[trigger] walk_in(a, p, s) && p[0] == x && p.last() == y;
    assert forall|i: int| 0 <= i < p.len() implies t.contains(#[trigger] p[i]) by {
        assert(s.contains(p[i]));
    }
    assert(walk_in(a, p, t));
}

/// A walk found in a later state, prefixed by a step from `root`.
proof fn lemma_linked_through(
    a0: &LGraphArena,
    mid: &LGraphArena,
    root: LNodeId,
    n: LNodeId,
    y: LNodeId,
    new: Seq<LNodeId>,
    all: Seq<LNodeId>,
)
    requires
        same_links(a0, mid),
        connected(a0, root, n),
        all.contains(root),
        forall|z: LNodeId| new.contains(z) ==> #[trigger] all.contains(z) && z.0 < a0.nodes@.len(),
        linked_within(mid, n, y, new),
    ensures
        linked_within(a0, root, y, all),
{
    let p = choose|p: Seq<LNodeId>| #[trigger] walk_in(mid, p, new) && p[0] == n && p.last() == y;
    let q = seq![root] + p;
    assert forall|i: int| 0 <= i < q.len() implies all.contains(#[trigger] q[i]) by {
        if i > 0 {
            assert(q[i] == p[i - 1]);
            assert(new.contains(p[i - 1]));
        }
    }
    assert forall|i: int| 0 <= i < q.len() - 1 implies #[trigger] connected(a0, q[i], q[i + 1]) by {
        if i > 0 {
            assert(q[i] == p[i - 1]);
            assert(q[i + 1] == p[i]);
            assert(connected(mid, p[i - 1], p[(i - 1) + 1]));
            assert(new.contains(p[i - 1]));
            lemma_connected_same(a0, mid, p[i - 1], p[i]);
        } else {
            assert(q[1] == p[0]);
        }
    }
    assert(q.last() == p.last());
    assert(walk_in(a0, q, all));
}

/// Folding the result of a nested search from neighbour `n` into the search
/// from `root`.
#[verifier::spinoff_prover]
#[verifier::rlimit(40)]
proof fn lemma_visit_step(
    a0: &LGraphArena,
    mid: &LGraphArena,
    a1: &LGraphArena,
    root: LNodeId,
    added: Seq<LNodeId>,
    n: LNodeId,
    new: Seq<LNodeId>,
)
    requires
        arena_wf(a0),
        root.0 < a0.nodes@.len(),
        search_progress(a0, mid, root, added),
        connected(a0, root, n),
        n.0 < a0.nodes@.len(),
        search_done(mid, a1, n, new),
    ensures
        search_progress(a0, a1, root, added + new),
        a1.nodes@[n.0 as int].id != 0,
        forall|y: int| 0 <= y < a0.nodes@.len() && mid.nodes@[y].id != 0 ==> #[trigger] a1.nodes@[y].id != 0,
        ext_sides(a0.nodes@, added + new) == ext_sides(a0.nodes@, added).union(ext_sides(mid.nodes@, new)),
{
    broadcast use vstd::seq_lib::lemma_seq_concat_contains_all_elements;
    lemma_wf_marked(a0, mid, added);
    let all = added + new;
    assert forall|j: int| 0 <= j < new.len() implies !added.contains(#[trigger] new[j]) && a0.nodes@[new[j].0 as int].id == 0 by {
        let x = new[j].0 as int;
        assert(mid.nodes@[x] == node_with_id(a0.nodes@[x], if added.contains(LNodeId(x as usize)) { 1i32 } else { a0.nodes@[x].id }));
        assert(LNodeId(x as usize) == new[j]);
    }
    assert forall|m: int| 0 <= m < a0.nodes@.len() implies #[trigger] a1.nodes@[m] == node_with_id(
        a0.nodes@[m],
        if all.contains(LNodeId(m as usize)) { 1i32 } else { a0.nodes@[m].id },
    ) by {
        assert(a1.nodes@[m] == node_with_id(mid.nodes@[m], if new.contains(LNodeId(m as usize)) { 1i32 } else { mid.nodes@[m].id }));
        assert(mid.nodes@[m] == node_with_id(a0.nodes@[m], if added.contains(LNodeId(m as usize)) { 1i32 } else { a0.nodes@[m].id }));
    }
    assert forall|i: int, j: int| 0 <= i < added.len() && 0 <= j < new.len() implies added[i] != new[j] by {
        assert(!added.contains(new[j]));
    }
    vstd::seq_lib::lemma_no_dup_in_concat(added, new);
    assert forall|j: int| 0 <= j < all.len() implies (#[trigger] all[j]).0 < a0.nodes@.len() && a0.nodes@[all[j].0 as int].id == 0 by {
        if j >= added.len() {
            assert(all[j] == new[j - added.len()]);
        }
    }
    assert forall|z: LNodeId| added.contains(z) implies #[trigger] all.contains(z) by {}
    assert forall|z: LNodeId| new.contains(z) implies #[trigger] all.contains(z) && z.0 < a0.nodes@.len() by {
        let j = choose|j: int| 0 <= j < new.len() && new[j] == z;
        assert(new[j].0 < mid.nodes@.len());
    }
    assert(all.contains(root)) by {
        assert(added[0] == root);
        assert(added.contains(root));
    }
    assert forall|j: int| 0 <= j < all.len() implies linked_within(a0, root, #[trigger] all[j], all) by {
        if j < added.len() {
            assert(all[j] == added[j]);
            lemma_linked_widen(a0, root, added[j], added, all);
        } else {
            let jj = j - added.len();
            assert(all[j] == new[jj]);
            assert(linked_within(mid, n, new[jj], new));
            lemma_linked_through(a0, mid, root, n, new[jj], new, all);
        }
    }
    assert forall|y: int| 0 <= y < a0.nodes@.len() && mid.nodes@[y].id != 0 implies #[trigger] a1.nodes@[y].id != 0 by {
        assert(a1.nodes@[y] == node_with_id(mid.nodes@[y], if new.contains(LNodeId(y as usize)) { 1i32 } else { mid.nodes@[y].id }));
    }
    assert forall|j: int, y: LNodeId| 1 <= j < all.len() && #[trigger] connected(a0, all[j], y) implies a1.nodes@[y.0 as int].id != 0 by {
        if j < added.len() {
            assert(all[j] == added[j]);
            assert(connected(a0, added[j], y));
            lemma_connected_in_range(a0, added[j], y);
        } else {
            let jj = j - added.len();
            assert(all[j] == new[jj]);
            lemma_connected_same(a0, mid, new[jj], y);
            assert(connected(mid, new[jj], y));
        }
    }
    lemma_connected_in_range(a0, root, n);
    assert(all[0] == added[0]);
    lemma_ext_sides_concat(a0.nodes@, added, new);
    assert forall|j: int| 0 <= j < new.len() implies (#[trigger] new[j]).0 < a0.nodes@.len() by {}
    lemma_ext_sides_same(a0, mid, new);
}

/// Once every port of `root` is handled, all its neighbours are visited.
proof fn lemma_root_closed(a0: &LGraphArena, cur: &LGraphArena, root: LNodeId)
    requires
        handled(a0, cur, root, a0.nodes@[root.0 as int].ports@.len() as int, 0, 0),
    ensures
        forall|y: LNodeId| #[trigger] connected(a0, root, y) ==> cur.nodes@[y.0 as int].id != 0,
{
    let ports = a0.nodes@[root.0 as int].ports@;
    assert forall|y: LNodeId| #[trigger] connected(a0, root, y) implies cur.nodes@[y.0 as int].id != 0 by {
        if exists|i: int, k: int|
            0 <= i < ports.len() && 0 <= k < a0.ports@[ports[i].0 as int].incoming_edges@.len()
                && #[trigger] incoming_neighbor(a0, ports[i], k) == Some(y) {
            let (i, k) = choose|i: int, k: int|
                0 <= i < ports.len() && 0 <= k < a0.ports@[ports[i].0 as int].incoming_edges@.len()
                    && #[trigger] incoming_neighbor(a0, ports[i], k) == Some(y);
            assert(incoming_neighbor(a0, ports[i], k) matches Some(z) ==> cur.nodes@[z.0 as int].id != 0);
        } else {
            let (i, k) = choose|i: int, k: int|
                0 <= i < ports.len() && 0 <= k < a0.ports@[ports[i].0 as int].outgoing_edges@.len()
                    && #[trigger] outgoing_neighbor(a0, ports[i], k) == Some(y);
            assert(outgoing_neighbor(a0, ports[i], k) matches Some(z) ==> cur.nodes@[z.0 as int].id != 0);
        }
    }
}

/// Visiting more nodes keeps handled neighbours handled.
proof fn lemma_handled_mono(a0: &LGraphArena, mid: &LGraphArena, a1: &LGraphArena, root: LNodeId, i: int, kin: int, kout: int)
    requires
        arena_wf(a0),
        root.0 < a0.nodes@.len(),
        handled(a0, mid, root, i, kin, kout),
        forall|y: int| 0 <= y < a0.nodes@.len() && mid.nodes@[y].id != 0 ==> #[trigger] a1.nodes@[y].id != 0,
    ensures
        handled(a0, a1, root, i, kin, kout),
{
    let ports = a0.nodes@[root.0 as int].ports@;
    assert forall|i2: int, k2: int|
        0 <= i2 < ports.len() && 0 <= k2 < a0.ports@[ports[i2].0 as int].incoming_edges@.len() && (i2 < i
            || (i2 == i && k2 < kin)) implies (#[trigger] incoming_neighbor(a0, ports[i2], k2) matches Some(y)
            ==> a1.nodes@[y.0 as int].id != 0) by {
        if let Some(y) = incoming_neighbor(a0, ports[i2], k2) {
            assert(a0.nodes@[root.0 as int].ports@[i2] == ports[i2]);
            let e = a0.ports@[ports[i2].0 as int].incoming_edges@[k2];
            let q = a0.edges@[e.0 as int].source->0;
            assert(a0.ports@[q.0 as int].node == Some(y));
            assert(mid.nodes@[y.0 as int].id != 0);
        }
    }
    assert forall|i2: int, k2: int|
        0 <= i2 < ports.len() && 0 <= k2 < a0.ports@[ports[i2].0 as int].outgoing_edges@.len() && (i2 < i
            || (i2 == i && k2 < kout)) implies (#[trigger] outgoing_neighbor(a0, ports[i2], k2) matches Some(y)
            ==> a1.nodes@[y.0 as int].id != 0) by {
        if let Some(y) = outgoing_neighbor(a0, ports[i2], k2) {
            assert(a0.nodes@[root.0 as int].ports@[i2] == ports[i2]);
            let e = a0.ports@[ports[i2].0 as int].outgoing_edges@[k2];
            let q = a0.edges@[e.0 as int].target->0;
            assert(a0.ports@[q.0 as int].node == Some(y));
            assert(mid.nodes@[y.0 as int].id != 0);
        }
    }
}

proof fn lemma_skip_split(c: Seq<LNodeId>, m: Seq<LNodeId>, c0: Seq<LNodeId>)
    requires
        c.len() >= m.len(),
        c.take(m.len() as int) == m,
        m.len() >= c0.len(),
        m.take(c0.len() as int) == c0,
    ensures
        c.take(c0.len() as int) == c0,
        c.skip(c0.len() as int) == m.skip(c0.len() as int) + c.skip(m.len() as int),
{
    assert(c.take(c0.len() as int) =~= m.take(c0.len() as int));
    assert(c.skip(c0.len() as int) =~= m.skip(c0.len() as int) + c.skip(m.len() as int));
}

/// The links depend only on what `same_links` keeps.
proof fn lemma_links_same(a: &LGraphArena, b: &LGraphArena)
    requires
        same_links(a, b),
    ensures
        links_of(a) == links_of(b),
{
    assert(links_of(a).0 =~= links_of(b).0);
}

/// The nodes appended after the first `j` of a list that grew from `m` to `c`.
proof fn lemma_skip_join(c: Seq<LNodeId>, m: Seq<LNodeId>, j: int)
    requires
        c.len() >= m.len(),
        c.take(m.len() as int) == m,
        0 <= j <= m.len(),
    ensures
        c.skip(j) == m.skip(j) + c.skip(m.len() as int),
{
    assert(c.skip(j) =~= m.skip(j) + c.skip(m.len() as int));
}

/// One incoming edge of port `i` of `x`: the search through its other end
/// (if any) continues the order found so far.
proof fn lemma_order_in_step(
    lk: (Seq<Seq<LPortId>>, Seq<LPort>, Seq<LEdge>),
    m1: Set<int>,
    x: LNodeId,
    i: int,
    k: int,
    u: nat,
    done: Seq<LNodeId>,
    mc: Set<int>,
    ma: Set<int>,
    new: Seq<LNodeId>,
)
    requires
        0 <= i < lk.0[x.0 as int].len(),
        0 <= k < lk.1[lk.0[x.0 as int][i].0 as int].incoming_edges@.len(),
        forall|g: nat| g >= u ==> #[trigger] dfs_ports(lk, m1, x, 0, g) == (
            dfs_in(lk, mc, x, i, k, g).0, done + dfs_in(lk, mc, x, i, k, g).1),
        link_in(lk, lk.0[x.0 as int][i], k) matches Some(y) ==> forall|g: nat| g >= u ==> #[trigger] dfs_visit(lk, mc, y, g) == (ma, new),
        link_in(lk, lk.0[x.0 as int][i], k) is None ==> ma == mc && new == Seq::<LNodeId>::empty(),
    ensures
        forall|g: nat| g >= u ==> #[trigger] dfs_ports(lk, m1, x, 0, g) == (
            dfs_in(lk, ma, x, i, k + 1, g).0, (done + new) + dfs_in(lk, ma, x, i, k + 1, g).1),
{
    assert forall|g: nat| g >= u implies #[trigger] dfs_ports(lk, m1, x, 0, g) == (
        dfs_in(lk, ma, x, i, k + 1, g).0, (done + new) + dfs_in(lk, ma, x, i, k + 1, g).1) by {
        let r1 = match link_in(lk, lk.0[x.0 as int][i], k) {
            Some(y) => dfs_visit(lk, mc, y, g),
            None => (mc, Seq::<LNodeId>::empty()),
        };
        assert(r1 == (ma, new));
        let r2 = dfs_in(lk, ma, x, i, k + 1, g);
        assert(dfs_in(lk, mc, x, i, k, g) == (r2.0, new + r2.1));
        assert(done + (new + r2.1) =~= (done + new) + r2.1);
    }
}

/// One outgoing edge of port `i` of `x`: the search through its other end
/// (if any) continues the order found so far.
proof fn lemma_order_out_step(
    lk: (Seq<Seq<LPortId>>, Seq<LPort>, Seq<LEdge>),
    m1: Set<int>,
    x: LNodeId,
    i: int,
    k: int,
    u: nat,
    done: Seq<LNodeId>,
    mc: Set<int>,
    ma: Set<int>,
    new: Seq<LNodeId>,
)
    requires
        0 <= i < lk.0[x.0 as int].len(),
        0 <= k < lk.1[lk.0[x.0 as int][i].0 as int].outgoing_edges@.len(),
        forall|g: nat| g >= u ==> #[trigger] dfs_ports(lk, m1, x, 0, g) == (
            dfs_out(lk, mc, x, i, k, g).0, done + dfs_out(lk, mc, x, i, k, g).1),
        link_out(lk, lk.0[x.0 as int][i], k) matches Some(y) ==> forall|g: nat| g >= u ==> #[trigger] dfs_visit(lk, mc, y, g) == (ma, new),
        link_out(lk, lk.0[x.0 as int][i], k) is None ==> ma == mc && new == Seq::<LNodeId>::empty(),
    ensures
        forall|g: nat| g >= u ==> #[trigger] dfs_ports(lk, m1, x, 0, g) == (
            dfs_out(lk, ma, x, i, k + 1, g).0, (done + new) + dfs_out(lk, ma, x, i, k + 1, g).1),
{
    assert forall|g: nat| g >= u implies #[trigger] dfs_ports(lk, m1, x, 0, g) == (
        dfs_out(lk, ma, x, i, k + 1, g).0, (done + new) + dfs_out(lk, ma, x, i, k + 1, g).1) by {
        let r1 = match link_out(lk, lk.0[x.0 as int][i], k) {
            Some(y) => dfs_visit(lk, mc, y, g),
            None => (mc, Seq::<LNodeId>::empty()),
        };
        assert(r1 == (ma, new));
        let r2 = dfs_out(lk, ma, x, i, k + 1, g);
        assert(dfs_out(lk, mc, x, i, k, g) == (r2.0, new + r2.1));
        assert(done + (new + r2.1) =~= (done + new) + r2.1);
    }
}

/// The neighbours of `root` reached through the `k`-th incoming edge of its
/// `i`-th port.
fn incoming_neighbor_of(a: &LGraphArena, root: LNodeId, i: usize, k: usize) -> (r: Option<LNodeId>)
    requires
        arena_wf(a),
        root.0 < a.nodes@.len(),
        i < a.nodes@[root.0 as int].ports@.len(),
        k < a.ports@[a.nodes@[root.0 as int].ports@[i as int].0 as int].incoming_edges@.len(),
    ensures
        r == incoming_neighbor(a, a.nodes@[root.0 as int].ports@[i as int], k as int),
        r matches Some(y) ==> y.0 < a.nodes@.len(),
{
    let port = a.nodes[root.0].ports[i];
    let edge = a.ports[port.0].incoming_edges[k];
    match a.edges[edge.0].source {
        Some(src) => a.ports[src.0].node,
        None => None,
    }
}

/// The neighbours of `root` reached through the `k`-th outgoing edge of its
/// `i`-th port.
fn outgoing_neighbor_of(a: &LGraphArena, root: LNodeId, i: usize, k: usize) -> (r: Option<LNodeId>)
    requires
        arena_wf(a),
        root.0 < a.nodes@.len(),
        i < a.nodes@[root.0 as int].ports@.len(),
        k < a.ports@[a.nodes@[root.0 as int].ports@[i as int].0 as int].outgoing_edges@.len(),
    ensures
        r == outgoing_neighbor(a, a.nodes@[root.0 as int].ports@[i as int], k as int),
        r matches Some(y) ==> y.0 < a.nodes@.len(),
{
    let port = a.nodes[root.0].ports[i];
    let edge = a.ports[port.0].outgoing_edges[k];
    match a.edges[edge.0].target {
        Some(tgt) => a.ports[tgt.0].node,
        None => None,
    }
}

/// Adds the side of `node` to `ext_port_sides` if it is an external-port
/// dummy.
fn note_ext_side(a: &LGraphArena, node: LNodeId, ext_port_sides: &mut EnumSet<PortSide>)
    requires
        node.0 < a.nodes@.len(),
    ensures
        final(ext_port_sides)@ == old(ext_port_sides)@.union(ext_sides(a.nodes@, seq![node])),
{
    proof {
        lemma_ext_sides_one(a.nodes@, node);
    }
    if a.nodes[node.0].node_type == NodeType::EXTERNAL_PORT {
        let side = a.nodes[node.0].properties.get(&ext_port_side());
        ext_port_sides.add(side);
        proof {
            assert(final(ext_port_sides)@ =~= old(ext_port_sides)@.union(ext_sides(a.nodes@, seq![node])));
        }
    } else {
        proof {
            assert(old(ext_port_sides)@.union(Set::<PortSide>::empty()) =~= old(ext_port_sides)@);
        }
    }
}

impl ComponentsProcessor {
    /// Depth-first search from `node` through unvisited nodes (scratch number
    /// 0): each node reached is marked with 1 and appended to `component`, and
    /// the sides of the external-port dummies among them are added to
    /// `ext_port_sides`. Per node, the ports are taken in order, and per port the
    /// sources of the incoming edges before the targets of the outgoing ones.
    pub fn dfs(a: &mut LGraphArena, node: LNodeId, component: &mut Vec<LNodeId>, ext_port_sides: &mut EnumSet<PortSide>)
        requires
            arena_wf(old(a)),
            node.0 < old(a).nodes@.len(),
        ensures
            arena_wf(final(a)),
            final(component)@.len() >= old(component)@.len(),
            final(component)@.take(old(component)@.len() as int) == old(component)@,
            search_done(old(a), final(a), node, final(component)@.skip(old(component)@.len() as int)),
            final(ext_port_sides)@ == old(ext_port_sides)@.union(
                ext_sides(old(a).nodes@, final(component)@.skip(old(component)@.len() as int)),
            ),
            forall|f: nat| f > unvisited_count(old(a).nodes@) ==> #[trigger] dfs_visit(links_of(old(a)), visited_set(old(a)), node, f)
                == (visited_set(final(a)), final(component)@.skip(old(component)@.len() as int)),
        decreases unvisited_count(old(a).nodes@),
    {
        let ghost a0 = *a;
        let ghost c0 = component@;
        let ghost e0 = ext_port_sides@;
        let ghost lk = links_of(&a0);
        let ghost u0 = unvisited_count(a0.nodes@);
        if a.nodes[node.0].id != 0 {
            proof {
                assert(component@.skip(c0.len() as int) =~= Seq::<LNodeId>::empty());
                assert(component@.take(c0.len() as int) =~= c0);
                assert(ext_sides(a0.nodes@, Seq::<LNodeId>::empty()) == Set::<PortSide>::empty());
                assert(e0.union(Set::<PortSide>::empty()) =~= e0);
                assert forall|n: int| 0 <= n < a0.nodes@.len() implies #[trigger] a.nodes@[n] == node_with_id(
                    a0.nodes@[n],
                    if Seq::<LNodeId>::empty().contains(LNodeId(n as usize)) { 1i32 } else { a0.nodes@[n].id },
                ) by {}
                assert(visited_set(&a0).contains(node.0 as int));
            }
            return;
        }
        a.set_node_id(node, 1);
        component.push(node);
        note_ext_side(a, node, ext_port_sides);
        let ghost m1 = visited_set(a);
        proof {
            let added = component@.skip(c0.len() as int);
            assert(added =~= seq![node]);
            assert(component@.take(c0.len() as int) =~= c0);
            assert forall|n: int| 0 <= n < a0.nodes@.len() implies #[trigger] a.nodes@[n] == node_with_id(
                a0.nodes@[n],
                if added.contains(LNodeId(n as usize)) { 1i32 } else { a0.nodes@[n].id },
            ) by {
                assert(n < a0.nodes.len());
                if n == node.0 {
                    assert(added[0] == LNodeId(n as usize));
                } else {
                    assert(added[0] == node);
                    assert(node != LNodeId(n as usize));
                    assert(!added.contains(LNodeId(n as usize)));
                }
            }
            assert(walk_in(&a0, seq![node], added));
            assert(linked_within(&a0, node, added[0], added));
            assert(ext_sides(a.nodes@, seq![node]) == ext_sides(a0.nodes@, added)) by {
                lemma_ext_sides_one(a.nodes@, node);
                lemma_ext_sides_one(a0.nodes@, node);
            }
            lemma_wf_marked(&a0, a, added);
            assert(m1 =~= visited_set(&a0).insert(node.0 as int));
            assert(component@.skip(c0.len() as int + 1) =~= Seq::<LNodeId>::empty());
            assert forall|g: nat| g >= u0 implies #[trigger] dfs_ports(lk, m1, node, 0, g) == (
                dfs_ports(lk, visited_set(a), node, 0, g).0,
                component@.skip(c0.len() as int + 1) + dfs_ports(lk, visited_set(a), node, 0, g).1) by {
                assert(Seq::<LNodeId>::empty() + dfs_ports(lk, m1, node, 0, g).1 =~= dfs_ports(lk, m1, node, 0, g).1);
            }
        }
        let nports = a.nodes[node.0].ports.len();
        let mut i: usize = 0;
        while i < nports
            invariant
                arena_wf(&a0),
                arena_wf(a),
                old(a).nodes@ == a0.nodes@,
                lk == links_of(&a0),
                u0 == unvisited_count(a0.nodes@),
                node.0 < a0.nodes@.len(),
                a0.nodes@[node.0 as int].id == 0,
                nports == a0.nodes@[node.0 as int].ports@.len(),
                i <= nports,
                component@.len() > c0.len(),
                component@.take(c0.len() as int) == c0,
                search_progress(&a0, a, node, component@.skip(c0.len() as int)),
                ext_port_sides@ == e0.union(ext_sides(a0.nodes@, component@.skip(c0.len() as int))),
                handled(&a0, a, node, i as int, 0, 0),
                forall|g: nat| g >= u0 ==> #[trigger] dfs_ports(lk, m1, node, 0, g) == (
                    dfs_ports(lk, visited_set(a), node, i as int, g).0,
                    component@.skip(c0.len() as int + 1) + dfs_ports(lk, visited_set(a), node, i as int, g).1),
            decreases nports - i,
        {
            let nin = a.ports[a.nodes[node.0].ports[i].0].incoming_edges.len();
            proof {
                assert(lk.0[node.0 as int] == a0.nodes@[node.0 as int].ports@);
                let mc = visited_set(a);
                assert forall|g: nat| g >= u0 implies #[trigger] dfs_ports(lk, m1, node, 0, g) == (
                    dfs_in(lk, mc, node, i as int, 0, g).0,
                    component@.skip(c0.len() as int + 1) + dfs_in(lk, mc, node, i as int, 0, g).1) by {
                    assert(dfs_ports(lk, mc, node, i as int, g) == dfs_in(lk, mc, node, i as int, 0, g));
                }
            }
            let mut k: usize = 0;
            while k < nin
                invariant
                    arena_wf(&a0),
                    arena_wf(a),
                    old(a).nodes@ == a0.nodes@,
                    lk == links_of(&a0),
                    u0 == unvisited_count(a0.nodes@),
                    node.0 < a0.nodes@.len(),
                    a0.nodes@[node.0 as int].id == 0,
                    nports == a0.nodes@[node.0 as int].ports@.len(),
                    i < nports,
                    nin == a0.ports@[a0.nodes@[node.0 as int].ports@[i as int].0 as int].incoming_edges@.len(),
                    k <= nin,
                    component@.len() > c0.len(),
                    component@.take(c0.len() as int) == c0,
                    search_progress(&a0, a, node, component@.skip(c0.len() as int)),
                    ext_port_sides@ == e0.union(ext_sides(a0.nodes@, component@.skip(c0.len() as int))),
                    handled(&a0, a, node, i as int, k as int, 0),
                    forall|g: nat| g >= u0 ==> #[trigger] dfs_ports(lk, m1, node, 0, g) == (
                        dfs_in(lk, visited_set(a), node, i as int, k as int, g).0,
                        component@.skip(c0.len() as int + 1) + dfs_in(lk, visited_set(a), node, i as int, k as int, g).1),
                decreases nin - k,
            {
                proof {
                    lemma_wf_marked(&a0, a, component@.skip(c0.len() as int));
                }
                let found = incoming_neighbor_of(a, node, i, k);
                let ghost mid = *a;
                let ghost mc = component@;
                let ghost added = component@.skip(c0.len() as int);
                if let Some(n) = found {
                    proof {
                        let ports = a0.nodes@[node.0 as int].ports@;
                        assert(incoming_neighbor(&a0, ports[i as int], k as int) == Some(n));
                        assert(connected(&a0, node, n));
                        assert(added[0] == node);
                        assert(added.contains(node));
                        assert(a.nodes@[node.0 as int] == node_with_id(a0.nodes@[node.0 as int], 1i32));
                        lemma_unvisited_count_mono(a0.nodes@, a.nodes@, node.0 as int);
                        assert(unvisited_count(a.nodes@) < unvisited_count(a0.nodes@));
                    }
                    Self::dfs(a, n, component, ext_port_sides);
                    proof {
                        lemma_skip_split(component@, mc, c0);
                        lemma_visit_step(&a0, &mid, a, node, added, n, component@.skip(mc.len() as int));
                        lemma_handled_mono(&a0, &mid, a, node, i as int, k as int, 0);
                    }
                }
                proof {
                    let new = component@.skip(mc.len() as int);
                    lemma_links_same(&a0, &mid);
                    if found is None {
                        assert(component@.take(mc.len() as int) =~= mc);
                    }
                    lemma_skip_join(component@, mc, c0.len() as int + 1);
                    assert(lk.0[node.0 as int] == a0.nodes@[node.0 as int].ports@);
                    assert(link_in(lk, lk.0[node.0 as int][i as int], k as int) == found);
                    if let Some(n) = found {
                        assert forall|g: nat| g >= u0 implies #[trigger] dfs_visit(lk, visited_set(&mid), n, g) == (visited_set(a), new) by {
                            assert(dfs_visit(links_of(&mid), visited_set(&mid), n, g) == (visited_set(a), new));
                        }
                    } else {
                        assert(new =~= Seq::<LNodeId>::empty());
                    }
                    lemma_order_in_step(lk, m1, node, i as int, k as int, u0, mc.skip(c0.len() as int + 1), visited_set(&mid), visited_set(a), new);
                }
                k = k + 1;
            }
            let nout = a.ports[a.nodes[node.0].ports[i].0].outgoing_edges.len();
            proof {
                let mc = visited_set(a);
                assert forall|g: nat| g >= u0 implies #[trigger] dfs_ports(lk, m1, node, 0, g) == (
                    dfs_out(lk, mc, node, i as int, 0, g).0,
                    component@.skip(c0.len() as int + 1) + dfs_out(lk, mc, node, i as int, 0, g).1) by {
                    assert(dfs_in(lk, mc, node, i as int, nin as int, g) == dfs_out(lk, mc, node, i as int, 0, g));
                }
            }
            let mut k: usize = 0;
            while k < nout
                invariant
                    arena_wf(&a0),
                    arena_wf(a),
                    old(a).nodes@ == a0.nodes@,
                    lk == links_of(&a0),
                    u0 == unvisited_count(a0.nodes@),
                    node.0 < a0.nodes@.len(),
                    a0.nodes@[node.0 as int].id == 0,
                    nports == a0.nodes@[node.0 as int].ports@.len(),
                    i < nports,
                    nin == a0.ports@[a0.nodes@[node.0 as int].ports@[i as int].0 as int].incoming_edges@.len(),
                    nout == a0.ports@[a0.nodes@[node.0 as int].ports@[i as int].0 as int].outgoing_edges@.len(),
                    k <= nout,
                    component@.len() > c0.len(),
                    component@.take(c0.len() as int) == c0,
                    search_progress(&a0, a, node, component@.skip(c0.len() as int)),
                    ext_port_sides@ == e0.union(ext_sides(a0.nodes@, component@.skip(c0.len() as int))),
                    handled(&a0, a, node, i as int, nin as int, k as int),
                    forall|g: nat| g >= u0 ==> #[trigger] dfs_ports(lk, m1, node, 0, g) == (
                        dfs_out(lk, visited_set(a), node, i as int, k as int, g).0,
                        component@.skip(c0.len() as int + 1) + dfs_out(lk, visited_set(a), node, i as int, k as int, g).1),
                decreases nout - k,
            {
                proof {
                    lemma_wf_marked(&a0, a, component@.skip(c0.len() as int));
                }
                let found = outgoing_neighbor_of(a, node, i, k);
                let ghost mid = *a;
                let ghost mc = component@;
                let ghost added = component@.skip(c0.len() as int);
                if let Some(n) = found {
                    proof {
                        let ports = a0.nodes@[node.0 as int].ports@;
                        assert(outgoing_neighbor(&a0, ports[i as int], k as int) == Some(n));
                        assert(connected(&a0, node, n));
                        assert(added[0] == node);
                        assert(added.contains(node));
                        assert(a.nodes@[node.0 as int] == node_with_id(a0.nodes@[node.0 as int], 1i32));
                        lemma_unvisited_count_mono(a0.nodes@, a.nodes@, node.0 as int);
                        assert(unvisited_count(a.nodes@) < unvisited_count(a0.nodes@));
                    }
                    Self::dfs(a, n, component, ext_port_sides);
                    proof {
                        lemma_skip_split(component@, mc, c0);
                        lemma_visit_step(&a0, &mid, a, node, added, n, component@.skip(mc.len() as int));
                        lemma_handled_mono(&a0, &mid, a, node, i as int, nin as int, k as int);
                    }
                }
                proof {
                    let new = component@.skip(mc.len() as int);
                    lemma_links_same(&a0, &mid);
                    if found is None {
                        assert(component@.take(mc.len() as int) =~= mc);
                    }
                    lemma_skip_join(component@, mc, c0.len() as int + 1);
                    assert(lk.0[node.0 as int] == a0.nodes@[node.0 as int].ports@);
                    assert(link_out(lk, lk.0[node.0 as int][i as int], k as int) == found);
                    if let Some(n) = found {
                        assert forall|g: nat| g >= u0 implies #[trigger] dfs_visit(lk, visited_set(&mid), n, g) == (visited_set(a), new) by {
                            assert(dfs_visit(links_of(&mid), visited_set(&mid), n, g) == (visited_set(a), new));
                        }
                    } else {
                        assert(new =~= Seq::<LNodeId>::empty());
                    }
                    lemma_order_out_step(lk, m1, node, i as int, k as int, u0, mc.skip(c0.len() as int + 1), visited_set(&mid), visited_set(a), new);
                }
                k = k + 1;
            }
            proof {
                let mc = visited_set(a);
                assert(lk.0[node.0 as int] == a0.nodes@[node.0 as int].ports@);
                assert forall|g: nat| g >= u0 implies #[trigger] dfs_ports(lk, m1, node, 0, g) == (
                    dfs_ports(lk, mc, node, i as int + 1, g).0,
                    component@.skip(c0.len() as int + 1) + dfs_ports(lk, mc, node, i as int + 1, g).1) by {
                    assert(dfs_out(lk, mc, node, i as int, nout as int, g) == dfs_ports(lk, mc, node, i as int + 1, g));
                }
            }
            i = i + 1;
        }
        proof {
            let added = component@.skip(c0.len() as int);
            lemma_root_closed(&a0, a, node);
            assert forall|j: int, y: LNodeId| 0 <= j < added.len() && #[trigger] connected(&a0, added[j], y) implies a.nodes@[y.0 as int].id != 0 by {
                if j == 0 {
                    assert(connected(&a0, node, y));
                }
            }
            lemma_wf_marked(&a0, a, added);
            assert(lk.0[node.0 as int] == a0.nodes@[node.0 as int].ports@);
            assert(added =~= seq![node] + component@.skip(c0.len() as int + 1));
            assert forall|f: nat| f > u0 implies #[trigger] dfs_visit(lk, visited_set(&a0), node, f)
                == (visited_set(a), added) by {
                let g = (f - 1) as nat;
                assert(dfs_ports(lk, visited_set(a), node, nports as int, g) == (visited_set(a), Seq::<LNodeId>::empty()));
                assert(dfs_ports(lk, m1, node, 0, g) == (visited_set(a), component@.skip(c0.len() as int + 1) + Seq::<LNodeId>::empty()));
                assert(component@.skip(c0.len() as int + 1) + Seq::<LNodeId>::empty() =~= component@.skip(c0.len() as int + 1));
            }
        }
    }
}

/// The properties of a component graph split off a graph with properties
/// `p`: a copy of `p`, with the external-port sides `sides` stored and the
/// minimal node size removed.
pub open spec fn component_properties(
    p: Seq<(Seq<char>, StoredValue)>,
    sides: EnumSet<PortSide>,
) -> Seq<(Seq<char>, StoredValue)> {
    erase(
        put(put_all(Seq::empty(), p), ext_port_connections_id(), sides.stored_spec()),
        node_size_minimum_id(),
    )
}

/// Adds a graph built from `component`: its nodes move to the new graph,
/// whose properties are those of `source` with `sides` as the external-port
/// connections and no minimal node size.
fn make_component_graph(a: &mut LGraphArena, source: LGraphId, component: &Vec<LNodeId>, sides: EnumSet<PortSide>) -> (r: LGraphId)
    requires
        source.0 < old(a).graphs@.len(),
        forall|m: int| 0 <= m < component@.len() ==> (#[trigger] component@[m]).0 < old(a).nodes@.len(),
    ensures
        r.0 == old(a).graphs@.len(),
        final(a).graphs@.len() == old(a).graphs@.len() + 1,
        final(a).graphs@.drop_last() == old(a).graphs@,
        final(a).graphs@.last().id == 0,
        final(a).graphs@.last().layerless_nodes@ == component@,
        final(a).graphs@.last().properties@ == component_properties(old(a).graphs@[index_of(source.0)].properties@, sides),
        final(a).nodes@.len() == old(a).nodes@.len(),
        forall|n: int| 0 <= n < old(a).nodes@.len() ==> #[trigger] final(a).nodes@[n] == if component@.contains(LNodeId(n as usize)) {
            node_with_graph(old(a).nodes@[n], Some(r))
        } else {
            old(a).nodes@[n]
        },
        final(a).ports@ == old(a).ports@,
        final(a).edges@ == old(a).edges@,
        final(a).labels@ == old(a).labels@,
{
    let ghost a0 = *a;
    let r = a.create_graph();
    proof {
        assert(a.graphs@[index_of(source.0)] == a0.graphs@[index_of(source.0)]);
    }
    let mut g = a.take_graph(r);
    proof {
        assert(a.graphs@[index_of(source.0)] == a0.graphs@[index_of(source.0)]);
        assert(g.properties@ =~= Seq::<(Seq<char>, StoredValue)>::empty());
        assert(g.layerless_nodes@ =~= component@.take(0));
    }
    g.properties.copy_from(&a.graphs[source.0].properties);
    g.properties.set(&ext_port_connections(), sides);
    g.properties.unset(&node_size_minimum());
    let mut j: usize = 0;
    while j < component.len()
        invariant
            j <= component@.len(),
            forall|m: int| 0 <= m < component@.len() ==> (#[trigger] component@[m]).0 < a0.nodes@.len(),
            g.layerless_nodes@ == component@.take(j as int),
            g.id == 0,
            g.properties@ == component_properties(a0.graphs@[index_of(source.0)].properties@, sides),
            a.graphs@.len() == a0.graphs@.len() + 1,
            a.graphs@.drop_last() == a0.graphs@,
            r.0 == a0.graphs@.len(),
            a.nodes@.len() == a0.nodes@.len(),
            forall|n: int| 0 <= n < a0.nodes@.len() ==> #[trigger] a.nodes@[n] == if component@.take(j as int).contains(LNodeId(n as usize)) {
                node_with_graph(a0.nodes@[n], Some(r))
            } else {
                a0.nodes@[n]
            },
            a.ports@ == a0.ports@,
            a.edges@ == a0.edges@,
            a.labels@ == a0.labels@,
        decreases component@.len() - j,
    {
        let node = component[j];
        g.layerless_nodes.push(node);
        a.set_node_graph(node, Some(r));
        proof {
            broadcast use vstd::seq_lib::lemma_seq_contains_after_push;
            let t = component@.take(j as int + 1);
            assert(t =~= component@.take(j as int).push(node));
            assert(g.layerless_nodes@ =~= t);
            assert forall|n: int| 0 <= n < a0.nodes@.len() implies #[trigger] a.nodes@[n] == if t.contains(LNodeId(n as usize)) {
                node_with_graph(a0.nodes@[n], Some(r))
            } else {
                a0.nodes@[n]
            } by {
                assert(t.contains(LNodeId(n as usize)) == (component@.take(j as int).contains(LNodeId(n as usize)) || node == LNodeId(n as usize)));
                assert(n < a0.nodes.len());
            }
        }
        j = j + 1;
    }
    proof {
        assert(component@.take(component@.len() as int) =~= component@);
    }
    a.put_graph(r, g);
    proof {
        assert(a.graphs@.drop_last() =~= a0.graphs@);
    }
    r
}

/// Whether connected components are laid out separately (default: yes).
pub open spec fn separates(p: Seq<(Seq<char>, StoredValue)>) -> bool {
    match read::<bool>(p, separate_connected_components_id()) {
        Some(b) => b,
        None => true,
    }
}

/// Whether the graph properties list external ports.
pub open spec fn has_external_ports(p: Seq<(Seq<char>, StoredValue)>) -> bool {
    match read::<EnumSet<GraphProperties>>(p, graph_properties_id()) {
        Some(s) => s@.contains(GraphProperties::EXTERNAL_PORTS),
        None => false,
    }
}

/// Whether the port constraints fix the order of the ports.
pub open spec fn port_order_fixed(p: Seq<(Seq<char>, StoredValue)>) -> bool {
    match read::<PortConstraints>(p, port_constraints_id()) {
        Some(c) => order_fixed(c),
        None => order_fixed(PortConstraints::UNDEFINED),
    }
}

/// Whether the components are to be ordered by the model order.
pub open spec fn orders_components(p: Seq<(Seq<char>, StoredValue)>) -> bool {
    match read::<ComponentOrderingStrategy>(p, consider_model_order_components_id()) {
        Some(s) => s != ComponentOrderingStrategy::NONE,
        None => false,
    }
}

/// Whether a graph with properties `p` is separated into its components.
pub open spec fn splits(p: Seq<(Seq<char>, StoredValue)>) -> bool {
    separates(p) && (!port_order_fixed(p) || !has_external_ports(p))
}

/// The graph a node was moved to, if it is one of the graphs added after
/// the first `n0`.
pub open spec fn moved_to(a: &LGraphArena, x: LNodeId, n0: nat) -> Option<int> {
    match a.nodes@[x.0 as int].graph {
        Some(g) => if g.0 >= n0 {
            Some(g.0 as int)
        } else {
            None
        },
        None => None,
    }
}

/// Node `n` of `a0` once the nodes `l` of the graph being split are reset
/// to scratch number 0.
pub open spec fn reset_node(a0: &LGraphArena, l: Seq<LNodeId>, n: int) -> LNode {
    node_with_id(a0.nodes@[n], if l.contains(LNodeId(n as usize)) { 0i32 } else { a0.nodes@[n].id })
}

/// The graphs `n0 .. n0 + k` of `cur` (`n0` being the number of graphs of
/// `a0`) are the components split off graph `graph` of `a0`, built as
/// `split` builds them, and the nodes in none of them are as in `a0` apart
/// from the reset scratch numbers.
pub open spec fn components_built(a0: &LGraphArena, cur: &LGraphArena, graph: LGraphId, k: int) -> bool {
    let n0 = a0.graphs@.len();
    let l = a0.graphs@[graph.0 as int].layerless_nodes@;
    let p = a0.graphs@[graph.0 as int].properties@;
    &&& 0 <= k
    &&& cur.ports@ == a0.ports@
    &&& cur.edges@ == a0.edges@
    &&& cur.labels@ == a0.labels@
    &&& cur.nodes@.len() == a0.nodes@.len()
    &&& cur.graphs@.len() == n0 + k
    &&& cur.graphs@.take(n0 as int) == a0.graphs@
    &&& forall|g: int| n0 <= g < n0 + k ==> {
        let c = (#[trigger] cur.graphs@[g]).layerless_nodes@;
        &&& c.len() > 0
        &&& c.no_duplicates()
        &&& cur.graphs@[g].id == 0
        &&& exists|sides: EnumSet<PortSide>|
            sides@ == ext_sides(a0.nodes@, c) && #[trigger] component_properties(p, sides) == cur.graphs@[g].properties@
    }
    &&& forall|g: int, m: int| n0 <= g < n0 + k && 0 <= m < cur.graphs@[g].layerless_nodes@.len() ==> {
        let x = #[trigger] cur.graphs@[g].layerless_nodes@[m];
        &&& x.0 < a0.nodes@.len()
        &&& cur.nodes@[x.0 as int] == node_with_graph(node_with_id(a0.nodes@[x.0 as int], 1i32), cur.nodes@[x.0 as int].graph)
        &&& moved_to(cur, x, n0) == Some(g)
        &&& l.contains(x) || a0.nodes@[x.0 as int].id == 0
        &&& linked_within(a0, cur.graphs@[g].layerless_nodes@[0], x, cur.graphs@[g].layerless_nodes@)
    }
    &&& forall|n: int| 0 <= n < a0.nodes@.len() ==> (#[trigger] moved_to(cur, LNodeId(n as usize), n0) matches Some(g)
        ==> n0 <= g < n0 + k && cur.graphs@[g].layerless_nodes@.contains(LNodeId(n as usize)))
    &&& forall|n: int| 0 <= n < a0.nodes@.len() && moved_to(cur, LNodeId(n as usize), n0) is None ==> #[trigger] cur.nodes@[n] == reset_node(a0, l, n)
    &&& forall|g: int, m: int, y: LNodeId| n0 <= g < n0 + k && 0 <= m < cur.graphs@[g].layerless_nodes@.len()
        && #[trigger] connected(a0, cur.graphs@[g].layerless_nodes@[m], y) ==> (moved_to(cur, y, n0) matches Some(h) && h <= g)
        || (!l.contains(y) && a0.nodes@[y.0 as int].id != 0)
}

/// The first `i` nodes of the graph have been handled: each lies in a
/// component, and each component started at the first node of the graph
/// that lay in no earlier component.
pub open spec fn components_started(a0: &LGraphArena, cur: &LGraphArena, graph: LGraphId, i: int, k: int) -> bool {
    let n0 = a0.graphs@.len();
    let l = a0.graphs@[graph.0 as int].layerless_nodes@;
    &&& forall|t: int| 0 <= t < i ==> #[trigger] moved_to(cur, l[t], n0) is Some
    &&& forall|g: int| #![trigger cur.graphs@[g]] n0 <= g < n0 + k ==> exists|t: int| 0 <= t < i && #[trigger] l[t] == cur.graphs@[g].layerless_nodes@[0]
        && forall|t2: int| 0 <= t2 < t ==> (#[trigger] moved_to(cur, l[t2], n0) matches Some(h) && h < g)
}

/// A walk in one arena is a walk in any arena with the same links.
proof fn lemma_linked_same(a: &LGraphArena, b: &LGraphArena, x: LNodeId, y: LNodeId, s: Seq<LNodeId>)
    requires
        same_links(a, b),
        forall|z: LNodeId| #[trigger] s.contains(z) ==> z.0 < a.nodes@.len(),
        linked_within(b, x, y, s),
    ensures
        linked_within(a, x, y, s),
{
    let p = choose|p: Seq<LNodeId>| #[trigger] walk_in(b, p, s) && p[0] == x && p.last() == y;
    assert forall|i: int| 0 <= i < p.len() - 1 implies #[trigger] connected(a, p[i], p[i + 1]) by {
        assert(s.contains(p[i]));
        assert(connected(b, p[i], p[i + 1]));
        lemma_connected_same(a, b, p[i], p[i + 1]);
    }
    assert(walk_in(a, p, s));
}

/// The nodes of a split in progress keep their links.
proof fn lemma_built_same_links(a0: &LGraphArena, cur: &LGraphArena, graph: LGraphId, k: int)
    requires
        components_built(a0, cur, graph, k),
    ensures
        same_links(a0, cur),
{
    let n0 = a0.graphs@.len();
    assert forall|n: int| 0 <= n < a0.nodes@.len() implies {
        &&& (#[trigger] cur.nodes@[n]).ports == a0.nodes@[n].ports
        &&& cur.nodes@[n].node_type == a0.nodes@[n].node_type
        &&& cur.nodes@[n].nested_graph == a0.nodes@[n].nested_graph
        &&& cur.nodes@[n].properties == a0.nodes@[n].properties
    } by {
        let x = LNodeId(n as usize);
        assert(n < a0.nodes.len());
        if let Some(g) = moved_to(cur, x, n0) {
            let c = cur.graphs@[g].layerless_nodes@;
            assert(c.contains(x));
            let m = choose|m: int| 0 <= m < c.len() && c[m] == x;
            assert(cur.graphs@[g].layerless_nodes@[m] == x);
        } else {
            assert(cur.nodes@[n] == reset_node(a0, a0.graphs@[graph.0 as int].layerless_nodes@, n));
        }
    }
}

/// A split in progress keeps the arena well formed.
proof fn lemma_built_wf(a0: &LGraphArena, cur: &LGraphArena, graph: LGraphId, k: int)
    requires
        arena_wf(a0),
        graph.0 < a0.graphs@.len(),
        components_built(a0, cur, graph, k),
    ensures
        arena_wf(cur),
{
    let n0 = a0.graphs@.len();
    lemma_built_same_links(a0, cur, graph, k);
    assert forall|g: int| 0 <= g < n0 implies #[trigger] cur.graphs@[g] == a0.graphs@[g] by {
        assert(cur.graphs@.take(n0 as int)[g] == cur.graphs@[g]);
    }
    assert forall|g: int, m: int| 0 <= g < cur.graphs@.len() && 0 <= m < cur.graphs@[g].layerless_nodes@.len() implies (
        #[trigger] cur.graphs@[g].layerless_nodes@[m]).0 < cur.nodes@.len() by {
        if g < n0 {
            assert(a0.graphs@[g].layerless_nodes@[m] == cur.graphs@[g].layerless_nodes@[m]);
        }
    }
    assert forall|n: int| 0 <= n < cur.nodes@.len() implies (#[trigger] cur.nodes@[n].graph matches Some(g) ==> g.0 < cur.graphs@.len()) by {
        let x = LNodeId(n as usize);
        assert(n < a0.nodes.len());
        if moved_to(cur, x, n0) is None {
            assert(cur.nodes@[n] == reset_node(a0, a0.graphs@[graph.0 as int].layerless_nodes@, n));
        }
    }
    assert forall|n: int| 0 <= n < cur.nodes@.len() implies (#[trigger] cur.nodes@[n].nested_graph matches Some(g) ==> g.0 < cur.graphs@.len()) by {
        assert(cur.nodes@[n].nested_graph == a0.nodes@[n].nested_graph);
    }
    assert forall|n: int, k2: int| 0 <= n < cur.nodes@.len() && 0 <= k2 < cur.nodes@[n].ports@.len() implies (
        #[trigger] cur.nodes@[n].ports@[k2]).0 < cur.ports@.len() by {
        assert(cur.nodes@[n].ports == a0.nodes@[n].ports);
        assert(a0.nodes@[n].ports@[k2] == cur.nodes@[n].ports@[k2]);
    }
}

/// A search from a node that already lies in a component changes nothing.
#[verifier::spinoff_prover]
proof fn lemma_split_skip(a0: &LGraphArena, cur: &LGraphArena, mid: &LGraphArena, graph: LGraphId, i: int, k: int)
    requires
        arena_wf(a0),
        graph.0 < a0.graphs@.len(),
        0 <= i < a0.graphs@[graph.0 as int].layerless_nodes@.len(),
        components_built(a0, cur, graph, k),
        components_started(a0, cur, graph, i, k),
        search_done(cur, mid, a0.graphs@[graph.0 as int].layerless_nodes@[i], Seq::<LNodeId>::empty()),
    ensures
        components_built(a0, mid, graph, k),
        components_started(a0, mid, graph, i + 1, k),
{
    let n0 = a0.graphs@.len();
    let l = a0.graphs@[graph.0 as int].layerless_nodes@;
    let x = l[i];
    assert(mid.nodes@ =~= cur.nodes@) by {
        assert forall|n: int| 0 <= n < cur.nodes@.len() implies mid.nodes@[n] == cur.nodes@[n] by {
            assert(mid.nodes@[n] == node_with_id(cur.nodes@[n], cur.nodes@[n].id));
        }
    }
    assert(x.0 < a0.nodes@.len()) by {
        assert(a0.graphs@[graph.0 as int].layerless_nodes@[i] == x);
    }
    assert(l.contains(x));
    if moved_to(cur, x, n0) is None {
        assert(x.0 < a0.nodes.len());
        assert(LNodeId(x.0 as usize) == x);
        assert(cur.nodes@[x.0 as int] == reset_node(a0, l, x.0 as int));
    }
    assert forall|t: int| 0 <= t < i + 1 implies #[trigger] moved_to(mid, l[t], n0) is Some by {
        assert(moved_to(cur, l[t], n0) is Some);
    }
    assert forall|g: int| #![trigger mid.graphs@[g]] n0 <= g < n0 + k implies exists|t: int| 0 <= t < i + 1 && #[trigger] l[t] == mid.graphs@[g].layerless_nodes@[0]
        && forall|t2: int| 0 <= t2 < t ==> (#[trigger] moved_to(mid, l[t2], n0) matches Some(h) && h < g) by {
        assert(cur.graphs@[g] == mid.graphs@[g]);
        let t = choose|t: int| 0 <= t < i && #[trigger] l[t] == cur.graphs@[g].layerless_nodes@[0]
            && forall|t2: int| 0 <= t2 < t ==> (#[trigger] moved_to(cur, l[t2], n0) matches Some(h) && h < g);
        assert forall|t2: int| 0 <= t2 < t implies (#[trigger] moved_to(mid, l[t2], n0) matches Some(h) && h < g) by {
            assert(moved_to(cur, l[t2], n0) matches Some(h) && h < g);
        }
    }
}

/// The components that searches from the nodes of `l`, the `i`-th on, find
/// one after the other with the nodes `m` visited: each search that finds
/// anything gives a component, its nodes in the order they were found.
pub open spec fn split_order(
    lk: (Seq<Seq<LPortId>>, Seq<LPort>, Seq<LEdge>),
    m: Set<int>,
    l: Seq<LNodeId>,
    i: int,
    f: nat,
) -> Seq<Seq<LNodeId>>
    decreases l.len() - i,
{
    if i < 0 || i >= l.len() {
        Seq::empty()
    } else {
        let r = dfs_visit(lk, m, l[i], f);
        let rest = split_order(lk, r.0, l, i + 1, f);
        if r.1.len() > 0 {
            seq![r.1] + rest
        } else {
            rest
        }
    }
}

/// The nodes counted as visited when the search for components starts: those
/// outside `l` with a nonzero scratch number.
pub open spec fn split_start(a: &LGraphArena, l: Seq<LNodeId>) -> Set<int> {
    Set::new(|n: int| 0 <= n < a.nodes@.len() && !l.contains(LNodeId(n as usize)) && a.nodes@[n].id != 0)
}

/// The node lists of the graphs `n0 .. n0 + k`.
pub open spec fn component_lists(a: &LGraphArena, n0: int, k: int) -> Seq<Seq<LNodeId>> {
    Seq::new(k as nat, |j: int| a.graphs@[n0 + j].layerless_nodes@)
}

proof fn lemma_unvisited_count_le(nodes: Seq<LNode>)
    ensures
        unvisited_count(nodes) <= nodes.len(),
    decreases nodes.len(),
{
    if nodes.len() > 0 {
        lemma_unvisited_count_le(nodes.drop_last());
    }
}

/// One search of `split` in terms of `split_order`: the components found so
/// far followed by those still to be found stay the same.
#[verifier::spinoff_prover]
proof fn lemma_split_order_step(
    a0: &LGraphArena,
    cur: &LGraphArena,
    mid: &LGraphArena,
    after: &LGraphArena,
    graph: LGraphId,
    i: int,
    k: int,
    total: Seq<Seq<LNodeId>>,
    added: Seq<LNodeId>,
)
    requires
        components_built(a0, cur, graph, k),
        0 <= i < a0.graphs@[graph.0 as int].layerless_nodes@.len(),
        total == component_lists(cur, a0.graphs@.len() as int, k) + split_order(
            links_of(a0), visited_set(cur), a0.graphs@[graph.0 as int].layerless_nodes@, i, (a0.nodes@.len() + 1) as nat),
        forall|f: nat| f > unvisited_count(cur.nodes@) ==> #[trigger] dfs_visit(links_of(cur), visited_set(cur),
            a0.graphs@[graph.0 as int].layerless_nodes@[i], f) == (visited_set(mid), added),
        mid.graphs@ == cur.graphs@,
        added.len() == 0 ==> after == mid,
        added.len() > 0 ==> {
            &&& after.graphs@.len() == mid.graphs@.len() + 1
            &&& after.graphs@.drop_last() == mid.graphs@
            &&& after.graphs@.last().layerless_nodes@ == added
            &&& after.nodes@.len() == mid.nodes@.len()
            &&& forall|n: int| 0 <= n < mid.nodes@.len() ==> (#[trigger] after.nodes@[n]).id == mid.nodes@[n].id
        },
    ensures
        total == component_lists(after, a0.graphs@.len() as int, if added.len() > 0 { k + 1 } else { k })
            + split_order(links_of(a0), visited_set(after), a0.graphs@[graph.0 as int].layerless_nodes@, i + 1,
            (a0.nodes@.len() + 1) as nat),
{
    let n0 = a0.graphs@.len() as int;
    let l = a0.graphs@[graph.0 as int].layerless_nodes@;
    let ff = (a0.nodes@.len() + 1) as nat;
    lemma_built_same_links(a0, cur, graph, k);
    lemma_links_same(a0, cur);
    lemma_unvisited_count_le(cur.nodes@);
    assert(dfs_visit(links_of(cur), visited_set(cur), l[i], ff) == (visited_set(mid), added));
    let rest = split_order(links_of(a0), visited_set(mid), l, i + 1, ff);
    if added.len() > 0 {
        assert(visited_set(after) =~= visited_set(mid));
        assert(component_lists(after, n0, k + 1) =~= component_lists(cur, n0, k).push(added)) by {
            assert forall|j: int| 0 <= j < k implies #[trigger] after.graphs@[n0 + j] == cur.graphs@[n0 + j] by {
                assert(after.graphs@.drop_last()[n0 + j] == after.graphs@[n0 + j]);
            }
            assert(after.graphs@.last() == after.graphs@[n0 + k]);
        }
        assert(component_lists(cur, n0, k) + (seq![added] + rest) =~= component_lists(cur, n0, k).push(added) + rest);
    } else {
        assert(component_lists(after, n0, k) =~= component_lists(cur, n0, k));
    }
}

/// The arena after a new component `added` was built in graph `gid`: the
/// nodes of `added` move to `gid`, nothing else changes.
pub open spec fn component_added(
    cur: &LGraphArena,
    after: &LGraphArena,
    source: LGraphId,
    added: Seq<LNodeId>,
    sides: EnumSet<PortSide>,
    gid: LGraphId,
) -> bool {
    &&& gid.0 == cur.graphs@.len()
    &&& after.graphs@.len() == cur.graphs@.len() + 1
    &&& after.graphs@.drop_last() == cur.graphs@
    &&& after.graphs@.last().id == 0
    &&& after.graphs@.last().layerless_nodes@ == added
    &&& after.graphs@.last().properties@ == component_properties(cur.graphs@[source.0 as int].properties@, sides)
    &&& after.nodes@.len() == cur.nodes@.len()
    &&& forall|n: int| 0 <= n < cur.nodes@.len() ==> #[trigger] after.nodes@[n] == if added.contains(LNodeId(n as usize)) {
        node_with_graph(node_with_id(cur.nodes@[n], 1i32), Some(gid))
    } else {
        cur.nodes@[n]
    }
    &&& after.ports@ == cur.ports@
    &&& after.edges@ == cur.edges@
    &&& after.labels@ == cur.labels@
}

/// What a search from an unvisited node of the graph means for the nodes:
/// the nodes it found were in no component and had scratch number 0.
proof fn lemma_found_fresh(a0: &LGraphArena, cur: &LGraphArena, mid: &LGraphArena, graph: LGraphId, k: int, root: LNodeId, added: Seq<LNodeId>)
    requires
        components_built(a0, cur, graph, k),
        search_done(cur, mid, root, added),
    ensures
        forall|j: int| 0 <= j < added.len() ==> {
            &&& moved_to(cur, #[trigger] added[j], a0.graphs@.len()) is None
            &&& cur.nodes@[added[j].0 as int] == reset_node(a0, a0.graphs@[graph.0 as int].layerless_nodes@, added[j].0 as int)
            &&& a0.graphs@[graph.0 as int].layerless_nodes@.contains(added[j]) || a0.nodes@[added[j].0 as int].id == 0
        },
{
    let n0 = a0.graphs@.len();
    let l = a0.graphs@[graph.0 as int].layerless_nodes@;
    assert forall|j: int| 0 <= j < added.len() implies {
        &&& moved_to(cur, #[trigger] added[j], n0) is None
        &&& cur.nodes@[added[j].0 as int] == reset_node(a0, l, added[j].0 as int)
        &&& l.contains(added[j]) || a0.nodes@[added[j].0 as int].id == 0
    } by {
        let x = added[j];
        let n = x.0 as int;
        assert(n < a0.nodes.len());
        assert(LNodeId(n as usize) == x);
        if let Some(g) = moved_to(cur, x, n0) {
            let c = cur.graphs@[g].layerless_nodes@;
            assert(c.contains(x));
            let m = choose|m: int| 0 <= m < c.len() && c[m] == x;
            assert(cur.graphs@[g].layerless_nodes@[m] == x);
            assert(cur.nodes@[n].id == 1);
        }
        assert(cur.nodes@[n] == reset_node(a0, l, n));
    }
}

/// The situation after a search found the new component `added` and its
/// graph `gid` was built.
spec fn grow_facts(
    a0: &LGraphArena,
    cur: &LGraphArena,
    mid: &LGraphArena,
    after: &LGraphArena,
    graph: LGraphId,
    i: int,
    k: int,
    added: Seq<LNodeId>,
    sides: EnumSet<PortSide>,
    gid: LGraphId,
) -> bool {
    &&& arena_wf(a0)
    &&& graph.0 < a0.graphs@.len()
    &&& 0 <= i < a0.graphs@[graph.0 as int].layerless_nodes@.len()
    &&& components_built(a0, cur, graph, k)
    &&& components_started(a0, cur, graph, i, k)
    &&& search_done(cur, mid, a0.graphs@[graph.0 as int].layerless_nodes@[i], added)
    &&& added.len() > 0
    &&& sides@ == ext_sides(cur.nodes@, added)
    &&& component_added(cur, after, graph, added, sides, gid)
}

/// How the nodes and graphs change when a component is added.
#[verifier::spinoff_prover]
#[verifier::rlimit(40)]
proof fn lemma_grow_nodes(
    a0: &LGraphArena, cur: &LGraphArena, mid: &LGraphArena, after: &LGraphArena, graph: LGraphId,
    i: int, k: int, added: Seq<LNodeId>, sides: EnumSet<PortSide>, gid: LGraphId,
)
    requires
        grow_facts(a0, cur, mid, after, graph, i, k, added, sides, gid),
    ensures
        same_links(a0, cur),
        gid.0 == a0.graphs@.len() + k,
        added[0] == a0.graphs@[graph.0 as int].layerless_nodes@[i],
        forall|g: int| 0 <= g < a0.graphs@.len() + k ==> #[trigger] after.graphs@[g] == cur.graphs@[g],
        after.graphs@[a0.graphs@.len() + k] == after.graphs@.last(),
        after.graphs@.take(a0.graphs@.len() as int) == a0.graphs@,
        forall|z: LNodeId| #[trigger] added.contains(z) ==> z.0 < a0.nodes@.len(),
        forall|n: int| 0 <= n < a0.nodes@.len() && moved_to(cur, LNodeId(n as usize), a0.graphs@.len()) is Some ==>
            !added.contains(LNodeId(n as usize)) && #[trigger] after.nodes@[n] == cur.nodes@[n],
        forall|n: int| 0 <= n < a0.nodes@.len() && added.contains(LNodeId(n as usize)) ==>
            #[trigger] after.nodes@[n] == node_with_graph(node_with_id(a0.nodes@[n], 1i32), Some(gid)),
        forall|j: int| 0 <= j < added.len() ==> {
            &&& moved_to(cur, #[trigger] added[j], a0.graphs@.len()) is None
            &&& cur.nodes@[added[j].0 as int] == reset_node(a0, a0.graphs@[graph.0 as int].layerless_nodes@, added[j].0 as int)
            &&& a0.graphs@[graph.0 as int].layerless_nodes@.contains(added[j]) || a0.nodes@[added[j].0 as int].id == 0
        },
{
    let n0 = a0.graphs@.len();
    let l = a0.graphs@[graph.0 as int].layerless_nodes@;
    let root = l[i];
    lemma_built_same_links(a0, cur, graph, k);
    lemma_found_fresh(a0, cur, mid, graph, k, root, added);
    assert(root.0 < a0.nodes@.len()) by {
        assert(a0.graphs@[graph.0 as int].layerless_nodes@[i] == root);
    }
    assert forall|g: int| 0 <= g < n0 + k implies #[trigger] after.graphs@[g] == cur.graphs@[g] by {
        assert(after.graphs@.drop_last()[g] == after.graphs@[g]);
    }
    assert(after.graphs@.take(n0 as int) =~= a0.graphs@) by {
        assert forall|g: int| 0 <= g < n0 implies after.graphs@.take(n0 as int)[g] == a0.graphs@[g] by {
            assert(cur.graphs@.take(n0 as int)[g] == cur.graphs@[g]);
        }
    }
    assert forall|n: int| 0 <= n < a0.nodes@.len() && moved_to(cur, LNodeId(n as usize), n0) is Some implies
        !added.contains(LNodeId(n as usize)) && #[trigger] after.nodes@[n] == cur.nodes@[n] by {
        if added.contains(LNodeId(n as usize)) {
            let j = choose|j: int| 0 <= j < added.len() && added[j] == LNodeId(n as usize);
            assert(moved_to(cur, added[j], n0) is None);
        }
    }
    assert forall|n: int| 0 <= n < a0.nodes@.len() && added.contains(LNodeId(n as usize)) implies
        #[trigger] after.nodes@[n] == node_with_graph(node_with_id(a0.nodes@[n], 1i32), Some(gid)) by {
        let j = choose|j: int| 0 <= j < added.len() && added[j] == LNodeId(n as usize);
        assert(n < a0.nodes.len());
        assert(added[j].0 as int == n);
        assert(cur.nodes@[n] == reset_node(a0, l, n));
    }
    assert forall|z: LNodeId| #[trigger] added.contains(z) implies z.0 < a0.nodes@.len() by {
        let j = choose|j: int| 0 <= j < added.len() && added[j] == z;
        assert(added[j].0 < cur.nodes@.len());
    }
}

/// The component graphs after one was added.
#[verifier::spinoff_prover]
#[verifier::rlimit(40)]
proof fn lemma_grow_graphs(
    a0: &LGraphArena, cur: &LGraphArena, mid: &LGraphArena, after: &LGraphArena, graph: LGraphId,
    i: int, k: int, added: Seq<LNodeId>, sides: EnumSet<PortSide>, gid: LGraphId,
)
    requires
        grow_facts(a0, cur, mid, after, graph, i, k, added, sides, gid),
    ensures
        forall|g: int| a0.graphs@.len() <= g < a0.graphs@.len() + k + 1 ==> {
            let c = (#[trigger] after.graphs@[g]).layerless_nodes@;
            &&& c.len() > 0
            &&& c.no_duplicates()
            &&& after.graphs@[g].id == 0
            &&& exists|sd: EnumSet<PortSide>|
                sd@ == ext_sides(a0.nodes@, c) && #[trigger] component_properties(a0.graphs@[graph.0 as int].properties@, sd) == after.graphs@[g].properties@
        },
        forall|g: int, m: int| a0.graphs@.len() <= g < a0.graphs@.len() + k + 1 && 0 <= m < after.graphs@[g].layerless_nodes@.len() ==> {
            let x = #[trigger] after.graphs@[g].layerless_nodes@[m];
            &&& x.0 < a0.nodes@.len()
            &&& after.nodes@[x.0 as int] == node_with_graph(node_with_id(a0.nodes@[x.0 as int], 1i32), after.nodes@[x.0 as int].graph)
            &&& moved_to(after, x, a0.graphs@.len()) == Some(g)
            &&& a0.graphs@[graph.0 as int].layerless_nodes@.contains(x) || a0.nodes@[x.0 as int].id == 0
            &&& linked_within(a0, after.graphs@[g].layerless_nodes@[0], x, after.graphs@[g].layerless_nodes@)
        },
{
    let n0 = a0.graphs@.len();
    let l = a0.graphs@[graph.0 as int].layerless_nodes@;
    let p = a0.graphs@[graph.0 as int].properties@;
    let ng = n0 + k;
    let root = l[i];
    lemma_grow_nodes(a0, cur, mid, after, graph, i, k, added, sides, gid);
    let c = added;
    assert(after.graphs@[ng].layerless_nodes@ == c);
    assert(ext_sides(cur.nodes@, added) == ext_sides(a0.nodes@, added)) by {
        lemma_ext_sides_same(a0, cur, added);
    }
    assert(cur.graphs@[graph.0 as int] == a0.graphs@[graph.0 as int]) by {
        assert(cur.graphs@.take(n0 as int)[graph.0 as int] == cur.graphs@[graph.0 as int]);
    }
    assert(component_properties(p, sides) == after.graphs@[ng].properties@);
    assert forall|g: int| n0 <= g < ng + 1 implies {
        let cg = (#[trigger] after.graphs@[g]).layerless_nodes@;
        &&& cg.len() > 0
        &&& cg.no_duplicates()
        &&& after.graphs@[g].id == 0
        &&& exists|sd: EnumSet<PortSide>|
            sd@ == ext_sides(a0.nodes@, cg) && #[trigger] component_properties(p, sd) == after.graphs@[g].properties@
    } by {
        if g < ng {
            assert(after.graphs@[g] == cur.graphs@[g]);
        }
    }
    assert forall|g: int, m: int| n0 <= g < ng + 1 && 0 <= m < after.graphs@[g].layerless_nodes@.len() implies {
        let x = #[trigger] after.graphs@[g].layerless_nodes@[m];
        &&& x.0 < a0.nodes@.len()
        &&& after.nodes@[x.0 as int] == node_with_graph(node_with_id(a0.nodes@[x.0 as int], 1i32), after.nodes@[x.0 as int].graph)
        &&& moved_to(after, x, n0) == Some(g)
        &&& l.contains(x) || a0.nodes@[x.0 as int].id == 0
        &&& linked_within(a0, after.graphs@[g].layerless_nodes@[0], x, after.graphs@[g].layerless_nodes@)
    } by {
        if g < ng {
            assert(after.graphs@[g] == cur.graphs@[g]);
            let x = cur.graphs@[g].layerless_nodes@[m];
            assert(LNodeId(x.0 as usize) == x);
            assert(moved_to(cur, x, n0) == Some(g));
            assert(after.nodes@[x.0 as int] == cur.nodes@[x.0 as int]);
        } else {
            let x = c[m];
            assert(x.0 < cur.nodes@.len());
            assert(LNodeId(x.0 as usize) == x);
            assert(c.contains(x));
            assert(after.nodes@[x.0 as int] == node_with_graph(node_with_id(a0.nodes@[x.0 as int], 1i32), Some(gid)));
            assert(linked_within(cur, root, c[m], added));
            lemma_linked_same(a0, cur, root, x, added);
        }
    }
}

/// Membership and untouched nodes after a component was added.
#[verifier::spinoff_prover]
#[verifier::rlimit(40)]
proof fn lemma_grow_members(
    a0: &LGraphArena, cur: &LGraphArena, mid: &LGraphArena, after: &LGraphArena, graph: LGraphId,
    i: int, k: int, added: Seq<LNodeId>, sides: EnumSet<PortSide>, gid: LGraphId,
)
    requires
        grow_facts(a0, cur, mid, after, graph, i, k, added, sides, gid),
    ensures
        forall|n: int| 0 <= n < a0.nodes@.len() ==> (#[trigger] moved_to(after, LNodeId(n as usize), a0.graphs@.len()) matches Some(g)
            ==> a0.graphs@.len() <= g < a0.graphs@.len() + k + 1 && after.graphs@[g].layerless_nodes@.contains(LNodeId(n as usize))),
        forall|n: int| 0 <= n < a0.nodes@.len() && moved_to(after, LNodeId(n as usize), a0.graphs@.len()) is None ==>
            #[trigger] after.nodes@[n] == reset_node(a0, a0.graphs@[graph.0 as int].layerless_nodes@, n),
{
    let n0 = a0.graphs@.len();
    let l = a0.graphs@[graph.0 as int].layerless_nodes@;
    lemma_grow_nodes(a0, cur, mid, after, graph, i, k, added, sides, gid);
    assert forall|n: int| 0 <= n < a0.nodes@.len() implies (#[trigger] moved_to(after, LNodeId(n as usize), n0) matches Some(g)
        ==> n0 <= g < n0 + k + 1 && after.graphs@[g].layerless_nodes@.contains(LNodeId(n as usize))) by {
        let x = LNodeId(n as usize);
        assert(n < a0.nodes.len());
        assert(x.0 as int == n);
        if added.contains(x) {
        } else if moved_to(cur, x, n0) is Some {
            assert(after.nodes@[n] == cur.nodes@[n]);
        } else {
            assert(after.nodes@[n] == cur.nodes@[n]);
            assert(cur.nodes@[n] == reset_node(a0, l, n));
        }
    }
    assert forall|n: int| 0 <= n < a0.nodes@.len() && moved_to(after, LNodeId(n as usize), n0) is None implies #[trigger] after.nodes@[n] == reset_node(a0, l, n) by {
        let x = LNodeId(n as usize);
        assert(n < a0.nodes.len());
        assert(x.0 as int == n);
        if added.contains(x) {
            assert(after.nodes@[n] == node_with_graph(node_with_id(a0.nodes@[n], 1i32), Some(gid)));
        } else {
            assert(after.nodes@[n] == cur.nodes@[n]);
            if moved_to(cur, x, n0) is None {
                assert(cur.nodes@[n] == reset_node(a0, l, n));
            }
        }
    }
}

/// The neighbours of every component after one was added.
#[verifier::spinoff_prover]
#[verifier::rlimit(40)]
proof fn lemma_grow_closed(
    a0: &LGraphArena, cur: &LGraphArena, mid: &LGraphArena, after: &LGraphArena, graph: LGraphId,
    i: int, k: int, added: Seq<LNodeId>, sides: EnumSet<PortSide>, gid: LGraphId,
)
    requires
        grow_facts(a0, cur, mid, after, graph, i, k, added, sides, gid),
    ensures
        forall|g: int, m: int, y: LNodeId| a0.graphs@.len() <= g < a0.graphs@.len() + k + 1 && 0 <= m < after.graphs@[g].layerless_nodes@.len()
            && #[trigger] connected(a0, after.graphs@[g].layerless_nodes@[m], y) ==> (moved_to(after, y, a0.graphs@.len()) matches Some(h) && h <= g)
            || (!a0.graphs@[graph.0 as int].layerless_nodes@.contains(y) && a0.nodes@[y.0 as int].id != 0),
{
    let n0 = a0.graphs@.len();
    let l = a0.graphs@[graph.0 as int].layerless_nodes@;
    let ng = n0 + k;
    lemma_grow_nodes(a0, cur, mid, after, graph, i, k, added, sides, gid);
    lemma_grow_graphs(a0, cur, mid, after, graph, i, k, added, sides, gid);
    assert forall|g: int, m: int, y: LNodeId| n0 <= g < n0 + k + 1 && 0 <= m < after.graphs@[g].layerless_nodes@.len()
        && #[trigger] connected(a0, after.graphs@[g].layerless_nodes@[m], y) implies (moved_to(after, y, n0) matches Some(h) && h <= g)
        || (!l.contains(y) && a0.nodes@[y.0 as int].id != 0) by {
        let x = after.graphs@[g].layerless_nodes@[m];
        assert(x.0 < a0.nodes@.len());
        lemma_connected_in_range(a0, x, y);
        assert(LNodeId(y.0 as usize) == y);
        if g < ng {
            assert(after.graphs@[g] == cur.graphs@[g]);
            assert(connected(a0, cur.graphs@[g].layerless_nodes@[m], y));
            if moved_to(cur, y, n0) is Some {
                assert(after.nodes@[y.0 as int] == cur.nodes@[y.0 as int]);
            }
        } else {
            assert(added[m] == x);
            lemma_connected_same(a0, cur, x, y);
            assert(connected(cur, added[m], y));
            assert(mid.nodes@[y.0 as int].id != 0);
            if !added.contains(y) {
                assert(mid.nodes@[y.0 as int] == node_with_id(cur.nodes@[y.0 as int], cur.nodes@[y.0 as int].id));
                assert(after.nodes@[y.0 as int] == cur.nodes@[y.0 as int]);
                if moved_to(cur, y, n0) is None {
                    assert(cur.nodes@[y.0 as int] == reset_node(a0, l, y.0 as int));
                }
            }
        }
    }
}

/// The nodes of the graph that lie in a component, after one was added.
#[verifier::spinoff_prover]
proof fn lemma_grow_started_moved(
    a0: &LGraphArena, cur: &LGraphArena, mid: &LGraphArena, after: &LGraphArena, graph: LGraphId,
    i: int, k: int, added: Seq<LNodeId>, sides: EnumSet<PortSide>, gid: LGraphId,
)
    requires
        grow_facts(a0, cur, mid, after, graph, i, k, added, sides, gid),
    ensures
        forall|t: int| 0 <= t < i + 1 ==> #[trigger] moved_to(after, a0.graphs@[graph.0 as int].layerless_nodes@[t], a0.graphs@.len()) is Some,
        forall|t: int| 0 <= t < i ==> #[trigger] moved_to(after, a0.graphs@[graph.0 as int].layerless_nodes@[t], a0.graphs@.len())
            == moved_to(cur, a0.graphs@[graph.0 as int].layerless_nodes@[t], a0.graphs@.len()),
{
    let n0 = a0.graphs@.len();
    let l = a0.graphs@[graph.0 as int].layerless_nodes@;
    let root = l[i];
    lemma_grow_nodes(a0, cur, mid, after, graph, i, k, added, sides, gid);
    assert forall|t: int| 0 <= t < i + 1 implies #[trigger] moved_to(after, l[t], n0) is Some && (t < i ==> moved_to(after, l[t], n0) == moved_to(cur, l[t], n0)) by {
        assert(l[t].0 < a0.nodes@.len()) by {
            assert(a0.graphs@[graph.0 as int].layerless_nodes@[t] == l[t]);
        }
        assert(LNodeId(l[t].0 as usize) == l[t]);
        if t < i {
            assert(moved_to(cur, l[t], n0) is Some);
            assert(after.nodes@[l[t].0 as int] == cur.nodes@[l[t].0 as int]);
        } else {
            assert(added.contains(root));
        }
    }
}

/// Where the components start, after one was added.
#[verifier::spinoff_prover]
proof fn lemma_grow_started(
    a0: &LGraphArena, cur: &LGraphArena, mid: &LGraphArena, after: &LGraphArena, graph: LGraphId,
    i: int, k: int, added: Seq<LNodeId>, sides: EnumSet<PortSide>, gid: LGraphId,
)
    requires
        grow_facts(a0, cur, mid, after, graph, i, k, added, sides, gid),
    ensures
        components_started(a0, after, graph, i + 1, k + 1),
{
    let n0 = a0.graphs@.len();
    let l = a0.graphs@[graph.0 as int].layerless_nodes@;
    let ng = n0 + k;
    lemma_grow_started_moved(a0, cur, mid, after, graph, i, k, added, sides, gid);
    assert forall|g: int| 0 <= g < ng implies #[trigger] after.graphs@[g] == cur.graphs@[g] by {
        assert(after.graphs@.drop_last()[g] == after.graphs@[g]);
    }
    assert forall|g: int| #![trigger after.graphs@[g]] n0 <= g < n0 + k + 1 implies exists|t: int| 0 <= t < i + 1 && #[trigger] l[t] == after.graphs@[g].layerless_nodes@[0]
        && forall|t2: int| 0 <= t2 < t ==> (#[trigger] moved_to(after, l[t2], n0) matches Some(h) && h < g) by {
        if g < ng {
            assert(after.graphs@[g] == cur.graphs@[g]);
            assert(cur.graphs@[g] == cur.graphs@[g]);
            let t = choose|t: int| 0 <= t < i && #[trigger] l[t] == cur.graphs@[g].layerless_nodes@[0]
                && forall|t2: int| 0 <= t2 < t ==> (#[trigger] moved_to(cur, l[t2], n0) matches Some(h) && h < g);
            assert forall|t2: int| 0 <= t2 < t implies (#[trigger] moved_to(after, l[t2], n0) matches Some(h) && h < g) by {
                assert(moved_to(cur, l[t2], n0) matches Some(h) && h < g);
                assert(moved_to(after, l[t2], n0) == moved_to(cur, l[t2], n0));
            }
            assert(0 <= t < i + 1 && l[t] == after.graphs@[g].layerless_nodes@[0]);
        } else {
            assert(after.graphs@[g] == after.graphs@.last());
            assert(added[0] == l[i]);
            assert(l[i] == after.graphs@[g].layerless_nodes@[0]);
            assert forall|t2: int| 0 <= t2 < i implies (#[trigger] moved_to(after, l[t2], n0) matches Some(h) && h < g) by {
                assert(moved_to(after, l[t2], n0) == moved_to(cur, l[t2], n0));
                assert(l[t2].0 < a0.nodes@.len()) by {
                    assert(a0.graphs@[graph.0 as int].layerless_nodes@[t2] == l[t2]);
                }
                assert(l[t2].0 < a0.nodes.len());
                assert(LNodeId(l[t2].0 as usize) == l[t2]);
                assert(moved_to(cur, l[t2], n0) is Some);
            }
        }
    }
}

/// A search that found the new component `added`, followed by building its
/// graph, extends a split in progress by one component.
proof fn lemma_split_grow(
    a0: &LGraphArena, cur: &LGraphArena, mid: &LGraphArena, after: &LGraphArena, graph: LGraphId,
    i: int, k: int, added: Seq<LNodeId>, sides: EnumSet<PortSide>, gid: LGraphId,
)
    requires
        grow_facts(a0, cur, mid, after, graph, i, k, added, sides, gid),
    ensures
        components_built(a0, after, graph, k + 1),
        components_started(a0, after, graph, i + 1, k + 1),
{
    lemma_grow_nodes(a0, cur, mid, after, graph, i, k, added, sides, gid);
    lemma_grow_graphs(a0, cur, mid, after, graph, i, k, added, sides, gid);
    lemma_grow_members(a0, cur, mid, after, graph, i, k, added, sides, gid);
    lemma_grow_closed(a0, cur, mid, after, graph, i, k, added, sides, gid);
    lemma_grow_started(a0, cur, mid, after, graph, i, k, added, sides, gid);
}

/// A search from an unvisited node followed by building the graph of what it
/// found is one `component_added` step.
proof fn lemma_compose_added(
    cur: &LGraphArena,
    mid: &LGraphArena,
    after: &LGraphArena,
    source: LGraphId,
    root: LNodeId,
    added: Seq<LNodeId>,
    sides: EnumSet<PortSide>,
    gid: LGraphId,
)
    requires
        search_done(cur, mid, root, added),
        gid.0 == mid.graphs@.len(),
        after.graphs@.len() == mid.graphs@.len() + 1,
        after.graphs@.drop_last() == mid.graphs@,
        after.graphs@.last().id == 0,
        after.graphs@.last().layerless_nodes@ == added,
        after.graphs@.last().properties@ == component_properties(mid.graphs@[source.0 as int].properties@, sides),
        after.nodes@.len() == mid.nodes@.len(),
        forall|n: int| 0 <= n < mid.nodes@.len() ==> #[trigger] after.nodes@[n] == if added.contains(LNodeId(n as usize)) {
            node_with_graph(mid.nodes@[n], Some(gid))
        } else {
            mid.nodes@[n]
        },
        after.ports@ == mid.ports@,
        after.edges@ == mid.edges@,
        after.labels@ == mid.labels@,
    ensures
        component_added(cur, after, source, added, sides, gid),
{
    assert forall|n: int| 0 <= n < cur.nodes@.len() implies #[trigger] after.nodes@[n] == if added.contains(LNodeId(n as usize)) {
        node_with_graph(node_with_id(cur.nodes@[n], 1i32), Some(gid))
    } else {
        cur.nodes@[n]
    } by {
        assert(mid.nodes@[n] == node_with_id(cur.nodes@[n], if added.contains(LNodeId(n as usize)) { 1i32 } else { cur.nodes@[n].id }));
    }
}

impl ComponentsProcessor {
    /// Splits a graph into its connected components: when they are to be
    /// laid out separately (and, for a graph with external ports, its port
    /// order is not fixed), each component becomes a new graph appended to
    /// the arena, with a copy of the graph's properties and the sides of its
    /// external ports; otherwise the graph itself is the only part.
    ///
    /// Components are searched from the graph's nodes in order; a component's
    /// nodes move to its graph, in the order the depth-first search visits
    /// them. Ordering the components by the model order is not supported: it
    /// is an error.
    pub fn split(a: &mut LGraphArena, graph: LGraphId) -> (r: Result<Vec<LGraphId>, String>)
        requires
            arena_wf(old(a)),
            graph.0 < old(a).graphs@.len(),
        ensures
            arena_wf(final(a)),
            r is Err <==> orders_components(old(a).graphs@[graph.0 as int].properties@),
            !splits(old(a).graphs@[graph.0 as int].properties@) ==> {
                &&& final(a).graphs@ == old(a).graphs@
                &&& final(a).nodes@ == old(a).nodes@
                &&& final(a).ports@ == old(a).ports@
                &&& final(a).edges@ == old(a).edges@
                &&& final(a).labels@ == old(a).labels@
                &&& r matches Ok(v) ==> v@ == seq![graph]
            },
            splits(old(a).graphs@[graph.0 as int].properties@) ==> {
                let k = final(a).graphs@.len() - old(a).graphs@.len();
                &&& components_built(old(a), final(a), graph, k)
                &&& components_started(old(a), final(a), graph, old(a).graphs@[graph.0 as int].layerless_nodes@.len() as int, k)
                &&& component_lists(final(a), old(a).graphs@.len() as int, k) == split_order(
                    links_of(old(a)),
                    split_start(old(a), old(a).graphs@[graph.0 as int].layerless_nodes@),
                    old(a).graphs@[graph.0 as int].layerless_nodes@,
                    0,
                    (old(a).nodes@.len() + 1) as nat,
                )
                &&& r matches Ok(v) ==> v@.len() == k && forall|j: int| 0 <= j < v@.len() ==> (#[trigger] v@[j]).0 == old(a).graphs@.len() + j
            },
    {
        let ghost a0 = *a;
        let ghost n0 = a0.graphs@.len();
        let ghost l = a0.graphs@[graph.0 as int].layerless_nodes@;
        let separate = a.graphs[graph.0].properties.get(&separate_connected_components());
        let graph_props = a.graphs[graph.0].properties.get(&graph_properties());
        let ext_ports = graph_props.contains(GraphProperties::EXTERNAL_PORTS);
        let constraints = a.graphs[graph.0].properties.get(&port_constraints());
        let compatible = !constraints.is_order_fixed();
        let mut result: Vec<LGraphId> = Vec::new();
        if separate && (compatible || !ext_ports) {
            let n = a.graphs[graph.0].layerless_nodes.len();
            let mut i: usize = 0;
            while i < n
                invariant
                    arena_wf(&a0),
                    graph.0 < n0,
                    n0 == a0.graphs@.len(),
                    l == a0.graphs@[graph.0 as int].layerless_nodes@,
                    n == l.len(),
                    i <= n,
                    a.graphs@ == a0.graphs@,
                    a.ports@ == a0.ports@,
                    a.edges@ == a0.edges@,
                    a.labels@ == a0.labels@,
                    a.nodes@.len() == a0.nodes@.len(),
                    forall|m: int| 0 <= m < a0.nodes@.len() ==> #[trigger] a.nodes@[m] == node_with_id(
                        a0.nodes@[m],
                        if l.take(i as int).contains(LNodeId(m as usize)) { 0i32 } else { a0.nodes@[m].id },
                    ),
                decreases n - i,
            {
                let node = a.graphs[graph.0].layerless_nodes[i];
                proof {
                    assert(l[i as int] == node);
                }
                a.set_node_id(node, 0);
                proof {
                    broadcast use vstd::seq_lib::lemma_seq_contains_after_push;
                    let t = l.take(i as int + 1);
                    assert(t =~= l.take(i as int).push(node));
                    assert forall|m: int| 0 <= m < a0.nodes@.len() implies #[trigger] a.nodes@[m] == node_with_id(
                        a0.nodes@[m],
                        if t.contains(LNodeId(m as usize)) { 0i32 } else { a0.nodes@[m].id },
                    ) by {
                        assert(m < a0.nodes.len());
                        if m == node.0 {
                            assert(LNodeId(m as usize) == node);
                        }
                    }
                }
                i = i + 1;
            }
            let ghost total = split_order(links_of(&a0), split_start(&a0, l), l, 0, (a0.nodes@.len() + 1) as nat);
            proof {
                assert(l.take(n as int) =~= l);
                assert(a.graphs@.take(n0 as int) =~= a0.graphs@);
                assert forall|x: int| 0 <= x < a0.nodes@.len() implies #[trigger] moved_to(a, LNodeId(x as usize), n0) is None by {
                    assert(x < a0.nodes.len());
                    assert(a.nodes@[x].graph == a0.nodes@[x].graph);
                }
                assert(components_built(&a0, a, graph, 0));
                lemma_built_wf(&a0, a, graph, 0);
                assert(visited_set(a) =~= split_start(&a0, l));
                assert(component_lists(a, n0 as int, 0) =~= Seq::<Seq<LNodeId>>::empty());
                assert(total =~= component_lists(a, n0 as int, 0) + total);
            }
            let mut i: usize = 0;
            while i < n
                invariant
                    arena_wf(&a0),
                    arena_wf(a),
                    total == split_order(links_of(&a0), split_start(&a0, l), l, 0, (a0.nodes@.len() + 1) as nat),
                    total == component_lists(a, n0 as int, result@.len() as int) + split_order(
                        links_of(&a0), visited_set(a), l, i as int, (a0.nodes@.len() + 1) as nat),
                    graph.0 < n0,
                    n0 == a0.graphs@.len(),
                    l == a0.graphs@[graph.0 as int].layerless_nodes@,
                    n == l.len(),
                    i <= n,
                    components_built(&a0, a, graph, result@.len() as int),
                    components_started(&a0, a, graph, i as int, result@.len() as int),
                    forall|j: int| 0 <= j < result@.len() ==> (#[trigger] result@[j]).0 == n0 + j,
                decreases n - i,
            {
                proof {
                    assert(a.graphs@.take(n0 as int)[graph.0 as int] == a.graphs@[graph.0 as int]);
                }
                let node = a.graphs[graph.0].layerless_nodes[i];
                let mut component: Vec<LNodeId> = Vec::new();
                let mut sides = EnumSet::none();
                let ghost cur = *a;
                proof {
                    assert(l[i as int] == node);
                    assert(node.0 < a0.nodes@.len());
                }
                Self::dfs(a, node, &mut component, &mut sides);
                let ghost mid = *a;
                proof {
                    assert(component@.skip(0) =~= component@);
                    assert(Set::<PortSide>::empty().union(ext_sides(cur.nodes@, component@)) =~= ext_sides(cur.nodes@, component@));
                }
                if component.len() > 0 {
                    let g = make_component_graph(a, graph, &component, sides);
                    proof {
                        lemma_compose_added(&cur, &mid, a, graph, node, component@, sides, g);
                        lemma_split_grow(&a0, &cur, &mid, a, graph, i as int, result@.len() as int, component@, sides, g);
                        lemma_built_wf(&a0, a, graph, result@.len() as int + 1);
                        lemma_split_order_step(&a0, &cur, &mid, a, graph, i as int, result@.len() as int, total, component@);
                    }
                    result.push(g);
                } else {
                    proof {
                        assert(component@ =~= Seq::<LNodeId>::empty());
                        lemma_split_skip(&a0, &cur, &mid, graph, i as int, result@.len() as int);
                        lemma_built_wf(&a0, a, graph, result@.len() as int);
                        lemma_split_order_step(&a0, &cur, &mid, a, graph, i as int, result@.len() as int, total, component@);
                    }
                }
                i = i + 1;
            }
            proof {
                assert(split_order(links_of(&a0), visited_set(a), l, n as int, (a0.nodes@.len() + 1) as nat) == Seq::<Seq<LNodeId>>::empty());
                assert(total =~= component_lists(a, n0 as int, result@.len() as int));
            }
        } else {
            result.push(graph);
        }
        proof {
            assert(a.graphs@[graph.0 as int] == a0.graphs@[graph.0 as int]) by {
                if a.graphs@.len() > n0 {
                    assert(a.graphs@.take(n0 as int)[graph.0 as int] == a.graphs@[graph.0 as int]);
                }
            }
        }
        let ordering = a.graphs[graph.0].properties.get(&consider_model_order_components());
        if ordering != ComponentOrderingStrategy::NONE {
            return Err(String::from_str("ordering components by the model order is not supported"));
        }
        Ok(result)
    }
}

/// Node `x` lies in one of the `k` graphs after the first `n0`.
pub open spec fn in_component(a: &LGraphArena, x: LNodeId, n0: nat, k: int) -> bool {
    exists|g: int| n0 <= g < n0 + k && #[trigger] a.graphs@[g].layerless_nodes@.contains(x)
}

/// After a split, every node of the split graph lies in one of the component
/// graphs, and no node lies in two of them.
pub proof fn lemma_split_partitions(a0: &LGraphArena, a1: &LGraphArena, graph: LGraphId, k: int)
    requires
        arena_wf(a0),
        graph.0 < a0.graphs@.len(),
        components_built(a0, a1, graph, k),
        components_started(a0, a1, graph, a0.graphs@[graph.0 as int].layerless_nodes@.len() as int, k),
    ensures
        forall|t: int| 0 <= t < a0.graphs@[graph.0 as int].layerless_nodes@.len() ==> in_component(
            a1,
            #[trigger] a0.graphs@[graph.0 as int].layerless_nodes@[t],
            a0.graphs@.len(),
            k,
        ),
        forall|g: int, h: int, x: LNodeId|
            a0.graphs@.len() <= g < a0.graphs@.len() + k && a0.graphs@.len() <= h < a0.graphs@.len() + k
                && #[trigger] a1.graphs@[g].layerless_nodes@.contains(x) && #[trigger] a1.graphs@[h].layerless_nodes@.contains(x)
                ==> g == h,
{
    let n0 = a0.graphs@.len();
    let l = a0.graphs@[graph.0 as int].layerless_nodes@;
    assert forall|t: int| 0 <= t < a0.graphs@[graph.0 as int].layerless_nodes@.len() implies in_component(
        a1,
        #[trigger] a0.graphs@[graph.0 as int].layerless_nodes@[t],
        n0,
        k,
    ) by {
        let x = l[t];
        assert(moved_to(a1, l[t], n0) is Some);
        let g = moved_to(a1, x, n0)->0;
        assert(x.0 < a0.nodes@.len()) by {
            assert(a0.graphs@[graph.0 as int].layerless_nodes@[t] == x);
        }
        assert(x.0 < a0.nodes.len());
        assert(LNodeId(x.0 as usize) == x);
        assert(moved_to(a1, LNodeId(x.0 as usize), n0) matches Some(g2) ==> n0 <= g2 < n0 + k
            && a1.graphs@[g2].layerless_nodes@.contains(LNodeId(x.0 as usize)));
        assert(a1.graphs@[g].layerless_nodes@.contains(x));
    }
    assert forall|g: int, h: int, x: LNodeId|
        n0 <= g < n0 + k && n0 <= h < n0 + k && #[trigger] a1.graphs@[g].layerless_nodes@.contains(x)
            && #[trigger] a1.graphs@[h].layerless_nodes@.contains(x) implies g == h by {
        let cg = a1.graphs@[g].layerless_nodes@;
        let ch = a1.graphs@[h].layerless_nodes@;
        let m1 = choose|m: int| 0 <= m < cg.len() && cg[m] == x;
        let m2 = choose|m: int| 0 <= m < ch.len() && ch[m] == x;
        assert(moved_to(a1, a1.graphs@[g].layerless_nodes@[m1], n0) == Some(g));
        assert(moved_to(a1, a1.graphs@[h].layerless_nodes@[m2], n0) == Some(h));
    }
}

/// Two nodes that are neighbours of each other end up in the same
/// component.
pub proof fn lemma_split_keeps_neighbours(
    a0: &LGraphArena,
    a1: &LGraphArena,
    graph: LGraphId,
    k: int,
    g: int,
    h: int,
    x: LNodeId,
    y: LNodeId,
)
    requires
        components_built(a0, a1, graph, k),
        a0.graphs@.len() <= g < a0.graphs@.len() + k,
        a0.graphs@.len() <= h < a0.graphs@.len() + k,
        a1.graphs@[g].layerless_nodes@.contains(x),
        a1.graphs@[h].layerless_nodes@.contains(y),
        connected(a0, x, y),
        connected(a0, y, x),
    ensures
        g == h,
{
    let n0 = a0.graphs@.len();
    let cg = a1.graphs@[g].layerless_nodes@;
    let ch = a1.graphs@[h].layerless_nodes@;
    let mx = choose|m: int| 0 <= m < cg.len() && cg[m] == x;
    let my = choose|m: int| 0 <= m < ch.len() && ch[m] == y;
    assert(moved_to(a1, a1.graphs@[g].layerless_nodes@[mx], n0) == Some(g));
    assert(moved_to(a1, a1.graphs@[h].layerless_nodes@[my], n0) == Some(h));
    assert(connected(a0, a1.graphs@[g].layerless_nodes@[mx], y));
    assert(connected(a0, a1.graphs@[h].layerless_nodes@[my], x));
}

/// In an arena whose ports and edges are consistent, being neighbours is
/// symmetric.
pub proof fn lemma_connected_symmetric(a: &LGraphArena, x: LNodeId, y: LNodeId)
    requires
        arena_wf(a),
        links_consistent(a),
        x.0 < a.nodes@.len(),
        connected(a, x, y),
    ensures
        connected(a, y, x),
{
    let ports = a.nodes@[x.0 as int].ports@;
    assert(x.0 < a.nodes.len());
    assert(LNodeId(x.0 as usize) == x);
    if exists|i: int, k: int|
        0 <= i < ports.len() && 0 <= k < a.ports@[ports[i].0 as int].incoming_edges@.len()
            && #[trigger] incoming_neighbor(a, ports[i], k) == Some(y) {
        let (i, k) = choose|i: int, k: int|
            0 <= i < ports.len() && 0 <= k < a.ports@[ports[i].0 as int].incoming_edges@.len()
                && #[trigger] incoming_neighbor(a, ports[i], k) == Some(y);
        let p = a.nodes@[x.0 as int].ports@[i];
        assert(p.0 < a.ports.len());
        assert(LPortId(p.0 as usize) == p);
        let e = a.ports@[p.0 as int].incoming_edges@[k];
        let q = a.edges@[e.0 as int].source->0;
        assert(a.ports@[q.0 as int].node == Some(y));
        assert(q.0 < a.ports.len());
        assert(LPortId(q.0 as usize) == q);
        assert(a.nodes@[y.0 as int].ports@.contains(q));
        let i2 = choose|i2: int| 0 <= i2 < a.nodes@[y.0 as int].ports@.len() && a.nodes@[y.0 as int].ports@[i2] == q;
        assert(a.ports@[q.0 as int].outgoing_edges@.contains(e));
        let k2 = choose|k2: int| 0 <= k2 < a.ports@[q.0 as int].outgoing_edges@.len() && a.ports@[q.0 as int].outgoing_edges@[k2] == e;
        assert(a.edges@[e.0 as int].target == Some(p));
        assert(a.ports@[p.0 as int].node == Some(x));
        assert(outgoing_neighbor(a, a.nodes@[y.0 as int].ports@[i2], k2) == Some(x));
    } else {
        let (i, k) = choose|i: int, k: int|
            0 <= i < ports.len() && 0 <= k < a.ports@[ports[i].0 as int].outgoing_edges@.len()
                && #[trigger] outgoing_neighbor(a, ports[i], k) == Some(y);
        let p = a.nodes@[x.0 as int].ports@[i];
        assert(p.0 < a.ports.len());
        assert(LPortId(p.0 as usize) == p);
        let e = a.ports@[p.0 as int].outgoing_edges@[k];
        let q = a.edges@[e.0 as int].target->0;
        assert(a.ports@[q.0 as int].node == Some(y));
        assert(q.0 < a.ports.len());
        assert(LPortId(q.0 as usize) == q);
        assert(a.nodes@[y.0 as int].ports@.contains(q));
        let i2 = choose|i2: int| 0 <= i2 < a.nodes@[y.0 as int].ports@.len() && a.nodes@[y.0 as int].ports@[i2] == q;
        assert(a.ports@[q.0 as int].incoming_edges@.contains(e));
        let k2 = choose|k2: int| 0 <= k2 < a.ports@[q.0 as int].incoming_edges@.len() && a.ports@[q.0 as int].incoming_edges@[k2] == e;
        assert(a.edges@[e.0 as int].source == Some(p));
        assert(a.ports@[p.0 as int].node == Some(x));
        assert(incoming_neighbor(a, a.nodes@[y.0 as int].ports@[i2], k2) == Some(x));
    }
}

/// A walk read backwards is a walk, when every edge is listed at both of
/// its ends.
proof fn lemma_walk_reversed(a: &LGraphArena, p: Seq<LNodeId>, s: Seq<LNodeId>)
    requires
        arena_wf(a),
        links_consistent(a),
        walk_in(a, p, s),
        forall|z: LNodeId| #[trigger] s.contains(z) ==> z.0 < a.nodes@.len(),
    ensures
        walk_in(a, p.reverse(), s),
{
    let q = p.reverse();
    assert forall|i: int| 0 <= i < q.len() implies s.contains(#[trigger] q[i]) by {
        assert(q[i] == p[p.len() - 1 - i]);
    }
    assert forall|i: int| 0 <= i < q.len() - 1 implies #[trigger] connected(a, q[i], q[i + 1]) by {
        let j = p.len() - 2 - i;
        assert(q[i] == p[j + 1]);
        assert(q[i + 1] == p[j]);
        assert(connected(a, p[j], p[j + 1]));
        assert(s.contains(p[j]));
        lemma_connected_symmetric(a, p[j], p[j + 1]);
    }
}

/// Each component that `split` builds is connected: any two of its nodes
/// are joined by a walk through its own nodes. With
/// `lemma_split_keeps_edges` (no edge joins two components) and
/// `lemma_split_partitions` (every node of the graph lies in exactly one),
/// the components are exactly the connected components of the graph.
pub proof fn lemma_split_component_connected(
    a0: &LGraphArena,
    a1: &LGraphArena,
    graph: LGraphId,
    k: int,
    g: int,
    x: LNodeId,
    y: LNodeId,
)
    requires
        arena_wf(a0),
        links_consistent(a0),
        components_built(a0, a1, graph, k),
        a0.graphs@.len() <= g < a0.graphs@.len() + k,
        a1.graphs@[g].layerless_nodes@.contains(x),
        a1.graphs@[g].layerless_nodes@.contains(y),
    ensures
        linked_within(a0, x, y, a1.graphs@[g].layerless_nodes@),
{
    let c = a1.graphs@[g].layerless_nodes@;
    let mx = choose|m: int| 0 <= m < c.len() && c[m] == x;
    let my = choose|m: int| 0 <= m < c.len() && c[m] == y;
    assert(a1.graphs@[g].layerless_nodes@[mx] == x);
    assert(a1.graphs@[g].layerless_nodes@[my] == y);
    assert(linked_within(a0, c[0], x, c));
    assert(linked_within(a0, c[0], y, c));
    assert forall|z: LNodeId| #[trigger] c.contains(z) implies z.0 < a0.nodes@.len() by {
        let m = choose|m: int| 0 <= m < c.len() && c[m] == z;
        assert(a1.graphs@[g].layerless_nodes@[m] == z);
    }
    let p1 = choose|p: Seq<LNodeId>| #[trigger] walk_in(a0, p, c) && p[0] == c[0] && p.last() == x;
    let p2 = choose|p: Seq<LNodeId>| #[trigger] walk_in(a0, p, c) && p[0] == c[0] && p.last() == y;
    lemma_walk_reversed(a0, p1, c);
    let r = p1.reverse();
    let w = r + p2.drop_first();
    assert(r.last() == c[0]) by {
        assert(r[r.len() - 1] == p1[0]);
    }
    assert(r[0] == x) by {
        assert(r[0] == p1[p1.len() - 1]);
    }
    assert forall|i: int| 0 <= i < w.len() implies c.contains(#[trigger] w[i]) by {
        if i < r.len() {
            assert(w[i] == r[i]);
        } else {
            assert(w[i] == p2[i - r.len() + 1]);
        }
    }
    assert forall|i: int| 0 <= i < w.len() - 1 implies #[trigger] connected(a0, w[i], w[i + 1]) by {
        if i < r.len() - 1 {
            assert(w[i] == r[i] && w[i + 1] == r[i + 1]);
        } else if i == r.len() - 1 {
            assert(w[i] == r[i]);
            assert(w[i + 1] == p2[1]);
            assert(r[i] == p2[0]);
            assert(connected(a0, p2[0], p2[0int + 1]));
        } else {
            let j = i - r.len() + 1;
            assert(w[i] == p2[j] && w[i + 1] == p2[j + 1]);
        }
    }
    assert(w[0] == x);
    assert(w.last() == y) by {
        if p2.len() > 1 {
            assert(w.last() == p2[p2.len() - 1]);
        } else {
            assert(p2[0] == y);
            assert(w.last() == r.last());
        }
    }
    assert(walk_in(a0, w, c));
}


/// In an arena whose ports and edges are consistent, the two ends of an
/// edge between nodes of the split graph end up in the same component.
pub proof fn lemma_split_keeps_edges(
    a0: &LGraphArena,
    a1: &LGraphArena,
    graph: LGraphId,
    k: int,
    g: int,
    h: int,
    x: LNodeId,
    y: LNodeId,
)
    requires
        arena_wf(a0),
        links_consistent(a0),
        components_built(a0, a1, graph, k),
        a0.graphs@.len() <= g < a0.graphs@.len() + k,
        a0.graphs@.len() <= h < a0.graphs@.len() + k,
        a1.graphs@[g].layerless_nodes@.contains(x),
        a1.graphs@[h].layerless_nodes@.contains(y),
        connected(a0, x, y),
    ensures
        g == h,
{
    let cg = a1.graphs@[g].layerless_nodes@;
    let mx = choose|m: int| 0 <= m < cg.len() && cg[m] == x;
    assert(a1.graphs@[g].layerless_nodes@[mx] == x);
    lemma_connected_symmetric(a0, x, y);
    lemma_split_keeps_neighbours(a0, a1, graph, k, g, h, x, y);
}

/// The priority of a node (its `priority` property, default 0).
pub open spec fn priority_of(n: LNode) -> i32 {
    match read::<i32>(n.properties@, priority_id()) {
        Some(p) => p,
        None => 0,
    }
}

/// The priorities of the nodes `s` added up with 32-bit wrap-around, as
/// a 32-bit `int` does.
pub open spec fn priority_sum(nodes: Seq<LNode>, s: Seq<LNodeId>) -> i32
    decreases s.len(),
{
    if s.len() == 0 {
        0
    } else {
        priority_sum(nodes, s.drop_last()).wrapping_add(priority_of(nodes[s.last().0 as int]))
    }
}

/// The priority of a component: the sum of its nodes' priorities.
pub fn component_priority(a: &LGraphArena, graph: LGraphId) -> (r: i32)
    requires
        arena_wf(a),
        graph.0 < a.graphs@.len(),
    ensures
        r == priority_sum(a.nodes@, a.graphs@[graph.0 as int].layerless_nodes@),
{
    let ghost l = a.graphs@[graph.0 as int].layerless_nodes@;
    let n = a.graphs[graph.0].layerless_nodes.len();
    let mut sum: i32 = 0;
    let mut i: usize = 0;
    while i < n
        invariant
            arena_wf(a),
            graph.0 < a.graphs@.len(),
            l == a.graphs@[graph.0 as int].layerless_nodes@,
            n == l.len(),
            i <= n,
            sum == priority_sum(a.nodes@, l.take(i as int)),
        decreases n - i,
    {
        let node = a.graphs[graph.0].layerless_nodes[i];
        let p = a.nodes[node.0].properties.get(&priority());
        proof {
            assert(l.take(i as int + 1).drop_last() =~= l.take(i as int));
            assert(l.take(i as int + 1).last() == node);
        }
        sum = sum.wrapping_add(p);
        i = i + 1;
    }
    proof {
        assert(l.take(n as int) =~= l);
    }
    sum
}

/// The graph with another scratch number.
pub open spec fn graph_with_id(g: LGraph, id: i32) -> LGraph {
    LGraph { id, layerless_nodes: g.layerless_nodes, properties: g.properties }
}

/// The first step of `sort_components`: when the target graph does not
/// order components by the model order, each component's scratch number
/// becomes its priority. Returns whether the components are to be sorted.
fn assign_priorities(a: &mut LGraphArena, components: &Vec<LGraphId>, target: LGraphId) -> (r: bool)
    requires
        arena_wf(old(a)),
        target.0 < old(a).graphs@.len(),
        forall|j: int| 0 <= j < components@.len() ==> (#[trigger] components@[j]).0 < old(a).graphs@.len(),
    ensures
        arena_wf(final(a)),
        r == !orders_components(old(a).graphs@[target.0 as int].properties@),
        final(a).nodes@ == old(a).nodes@,
        final(a).ports@ == old(a).ports@,
        final(a).edges@ == old(a).edges@,
        final(a).labels@ == old(a).labels@,
        final(a).graphs@.len() == old(a).graphs@.len(),
        forall|g: int| 0 <= g < old(a).graphs@.len() ==> #[trigger] final(a).graphs@[g] == if r && components@.contains(LGraphId(g as usize)) {
            graph_with_id(old(a).graphs@[g], priority_sum(old(a).nodes@, old(a).graphs@[g].layerless_nodes@))
        } else {
            old(a).graphs@[g]
        },
{
    let ghost a0 = *a;
    let ordering = a.graphs[target.0].properties.get(&consider_model_order_components());
    if ordering != ComponentOrderingStrategy::NONE {
        return false;
    }
    let mut j: usize = 0;
    while j < components.len()
        invariant
            arena_wf(a),
            target.0 < a0.graphs@.len(),
            j <= components@.len(),
            forall|k: int| 0 <= k < components@.len() ==> (#[trigger] components@[k]).0 < a0.graphs@.len(),
            a.nodes@ == a0.nodes@,
            a.ports@ == a0.ports@,
            a.edges@ == a0.edges@,
            a.labels@ == a0.labels@,
            a.graphs@.len() == a0.graphs@.len(),
            forall|g: int| 0 <= g < a0.graphs@.len() ==> #[trigger] a.graphs@[g] == if components@.take(j as int).contains(LGraphId(g as usize)) {
                graph_with_id(a0.graphs@[g], priority_sum(a0.nodes@, a0.graphs@[g].layerless_nodes@))
            } else {
                a0.graphs@[g]
            },
        decreases components@.len() - j,
    {
        let g = components[j];
        let p = component_priority(a, g);
        let mut graph = a.take_graph(g);
        graph.id = p;
        a.put_graph(g, graph);
        proof {
            broadcast use vstd::seq_lib::lemma_seq_contains_after_push;
            let t = components@.take(j as int + 1);
            assert(t =~= components@.take(j as int).push(g));
            assert forall|h: int| 0 <= h < a0.graphs@.len() implies #[trigger] a.graphs@[h] == if t.contains(LGraphId(h as usize)) {
                graph_with_id(a0.graphs@[h], priority_sum(a0.nodes@, a0.graphs@[h].layerless_nodes@))
            } else {
                a0.graphs@[h]
            } by {
                assert(h < a0.graphs.len());
                if h == g.0 {
                    assert(LGraphId(h as usize) == g);
                } else {
                    assert(LGraphId(h as usize) != g);
                }
            }
            assert forall|h: int, k: int| 0 <= h < a.graphs@.len() && 0 <= k < a.graphs@[h].layerless_nodes@.len() implies (
                #[trigger] a.graphs@[h].layerless_nodes@[k]).0 < a.nodes@.len() by {
                assert(a.graphs@[h].layerless_nodes == a0.graphs@[h].layerless_nodes);
                assert(a0.graphs@[h].layerless_nodes@[k] == a.graphs@[h].layerless_nodes@[k]);
            }
        }
        j = j + 1;
    }
    proof {
        assert(components@.take(components@.len() as int) =~= components@);
    }
    true
}

/// Position `x` of the components is placed before position `y`: higher
/// priority first, then smaller area rank, then the earlier position (the
/// sort is stable).
pub open spec fn placed_before(prio: Seq<i32>, ranks: Seq<u64>, x: int, y: int) -> bool {
    ||| prio[x] > prio[y]
    ||| prio[x] == prio[y] && ranks[x] < ranks[y]
    ||| prio[x] == prio[y] && ranks[x] == ranks[y] && x < y
}

/// `p` lists the positions `0 .. prio.len()` in placement order.
pub open spec fn placement_order(prio: Seq<i32>, ranks: Seq<u64>, p: Seq<int>) -> bool {
    &&& p.len() == prio.len()
    &&& forall|k: int| 0 <= k < p.len() ==> 0 <= #[trigger] p[k] < prio.len()
    &&& forall|k: int, l: int| 0 <= k < l < p.len() ==> placed_before(prio, ranks, #[trigger] p[k], #[trigger] p[l])
}

/// The priorities of the components, read from their scratch numbers.
pub open spec fn component_ids(a: &LGraphArena, comps: Seq<LGraphId>) -> Seq<i32> {
    Seq::new(comps.len(), |j: int| a.graphs@[comps[j].0 as int].id)
}

/// The positions of the components in placement order: a stable sort by
/// falling priority (the scratch number) and then by rising area rank.
fn placement_positions(a: &LGraphArena, components: &Vec<LGraphId>, area_ranks: &Vec<u64>) -> (r: Vec<usize>)
    requires
        area_ranks@.len() == components@.len(),
        forall|j: int| 0 <= j < components@.len() ==> (#[trigger] components@[j]).0 < a.graphs@.len(),
    ensures
        placement_order(component_ids(a, components@), area_ranks@, r@.map_values(|x: usize| x as int)),
{
    let ghost prio = component_ids(a, components@);
    let n = components.len();
    let mut order: Vec<usize> = Vec::new();
    let mut i: usize = 0;
    while i < n
        invariant
            n == components@.len(),
            area_ranks@.len() == n,
            prio == component_ids(a, components@),
            forall|j: int| 0 <= j < components@.len() ==> (#[trigger] components@[j]).0 < a.graphs@.len(),
            i <= n,
            order@.len() == i,
            forall|k: int| 0 <= k < order@.len() ==> #[trigger] order@[k] < i,
            forall|k: int, l: int| 0 <= k < l < order@.len() ==> placed_before(prio, area_ranks@, #[trigger] order@[k] as int, #[trigger] order@[l] as int),
        decreases n - i,
    {
        let pi = a.graphs[components[i].0].id;
        let ri = area_ranks[i];
        let mut j: usize = 0;
        while j < order.len()
            invariant
                n == components@.len(),
                area_ranks@.len() == n,
                prio == component_ids(a, components@),
                forall|m: int| 0 <= m < components@.len() ==> (#[trigger] components@[m]).0 < a.graphs@.len(),
                i < n,
                pi == prio[i as int],
                ri == area_ranks@[i as int],
                order@.len() == i,
                forall|k: int| 0 <= k < order@.len() ==> #[trigger] order@[k] < i,
                j <= order@.len(),
                forall|k: int| 0 <= k < j ==> placed_before(prio, area_ranks@, #[trigger] order@[k] as int, i as int),
            ensures
                j <= order@.len(),
                forall|k: int| 0 <= k < j ==> placed_before(prio, area_ranks@, #[trigger] order@[k] as int, i as int),
                j < order@.len() ==> !placed_before(prio, area_ranks@, order@[j as int] as int, i as int),
            decreases order@.len() - j,
        {
            let o = order[j];
            let po = a.graphs[components[o].0].id;
            let ro = area_ranks[o];
            if po > pi || (po == pi && ro <= ri) {
                j = j + 1;
            } else {
                break;
            }
        }
        let ghost before = order@;
        order.insert(j, i);
        proof {
            assert forall|k: int, l: int| 0 <= k < l < order@.len() implies placed_before(
                prio,
                area_ranks@,
                #[trigger] order@[k] as int,
                #[trigger] order@[l] as int,
            ) by {
                if j < before.len() {
                    assert(!placed_before(prio, area_ranks@, before[j as int] as int, i as int));
                }
                if l == j {
                    assert(order@[k] == before[k]);
                } else if k == j {
                    assert(order@[l] == before[l - 1]);
                    if l - 1 > j {
                        assert(placed_before(prio, area_ranks@, before[j as int] as int, before[l - 1] as int));
                    }
                } else if l < j {
                    assert(order@[k] == before[k] && order@[l] == before[l]);
                } else if k < j {
                    assert(order@[k] == before[k] && order@[l] == before[l - 1]);
                } else {
                    assert(order@[k] == before[k - 1] && order@[l] == before[l - 1]);
                }
            }
            assert forall|k: int| 0 <= k < order@.len() implies #[trigger] order@[k] < i + 1 by {
                if k < j {
                    assert(order@[k] == before[k]);
                } else if k > j {
                    assert(order@[k] == before[k - 1]);
                }
            }
        }
        i = i + 1;
    }
    order
}

/// Orders the components for placement in rows: unless the target graph
/// orders components by the model order, each component's scratch number
/// becomes its priority (as `assign_priorities` does) and the components are
/// sorted stably by falling priority and then by rising area. The areas are
/// measured by the geometric pass and come in as ranks: `area_ranks[j]`
/// belongs to `components[j]`, a smaller area has a smaller rank and equal
/// areas have equal ranks. Returns whether the components were sorted.
pub fn sort_components(
    a: &mut LGraphArena,
    components: &mut Vec<LGraphId>,
    target: LGraphId,
    area_ranks: &Vec<u64>,
) -> (r: bool)
    requires
        arena_wf(old(a)),
        target.0 < old(a).graphs@.len(),
        forall|j: int| 0 <= j < old(components)@.len() ==> (#[trigger] old(components)@[j]).0 < old(a).graphs@.len(),
        area_ranks@.len() == old(components)@.len(),
    ensures
        arena_wf(final(a)),
        r == !orders_components(old(a).graphs@[target.0 as int].properties@),
        final(a).nodes@ == old(a).nodes@,
        final(a).ports@ == old(a).ports@,
        final(a).edges@ == old(a).edges@,
        final(a).labels@ == old(a).labels@,
        final(a).graphs@.len() == old(a).graphs@.len(),
        forall|g: int| 0 <= g < old(a).graphs@.len() ==> #[trigger] final(a).graphs@[g] == if r && old(components)@.contains(LGraphId(g as usize)) {
            graph_with_id(old(a).graphs@[g], priority_sum(old(a).nodes@, old(a).graphs@[g].layerless_nodes@))
        } else {
            old(a).graphs@[g]
        },
        !r ==> final(components)@ == old(components)@,
        r ==> exists|p: Seq<int>|
            #[trigger] placement_order(component_ids(final(a), old(components)@), area_ranks@, p)
                && final(components)@ == p.map_values(|x: int| old(components)@[x]),
{
    let sort = assign_priorities(a, components, target);
    if !sort {
        return false;
    }
    let order = placement_positions(a, components, area_ranks);
    let ghost p = order@.map_values(|x: usize| x as int);
    let mut sorted: Vec<LGraphId> = Vec::new();
    let mut k: usize = 0;
    while k < order.len()
        invariant
            k <= order@.len(),
            order@.len() == components@.len(),
            p == order@.map_values(|x: usize| x as int),
            forall|m: int| 0 <= m < order@.len() ==> 0 <= #[trigger] p[m] < components@.len(),
            sorted@.len() == k,
            forall|m: int| 0 <= m < k ==> #[trigger] sorted@[m] == components@[p[m]],
        decreases order@.len() - k,
    {
        proof {
            assert(p[k as int] == order@[k as int] as int);
        }
        sorted.push(components[order[k]]);
        k = k + 1;
    }
    let ghost comps = components@;
    *components = sorted;
    proof {
        assert(components@ =~= p.map_values(|x: int| comps[x]));
        assert(placement_order(component_ids(a, comps), area_ranks@, p));
    }
    true
}

/// The nodes `combine` gathers in the target graph from the components, in
/// order; the target's own nodes count as none, and a component that is the
/// target itself contributes what was gathered so far.
pub open spec fn combined_nodes(a: &LGraphArena, comps: Seq<LGraphId>, target: LGraphId) -> Seq<LNodeId>
    decreases comps.len(),
{
    if comps.len() == 0 {
        Seq::empty()
    } else {
        let prev = combined_nodes(a, comps.drop_last(), target);
        if comps.last() == target {
            prev + prev
        } else {
            prev + a.graphs@[comps.last().0 as int].layerless_nodes@
        }
    }
}

/// The nodes of `b` are those of `a`, the nodes listed in `s` moved to
/// graph `dest`.
pub open spec fn moved_into(a: &LGraphArena, b: &LGraphArena, s: Seq<LNodeId>, dest: LGraphId) -> bool {
    &&& b.nodes@.len() == a.nodes@.len()
    &&& forall|n: int| 0 <= n < a.nodes@.len() ==> #[trigger] b.nodes@[n] == if s.contains(LNodeId(n as usize)) {
        node_with_graph(a.nodes@[n], Some(dest))
    } else {
        a.nodes@[n]
    }
}

/// The graph with another list of nodes.
pub open spec fn graph_with_nodes(g: LGraph, nodes: Seq<LNodeId>, h: LGraph) -> bool {
    h.id == g.id && h.properties == g.properties && h.layerless_nodes@ == nodes
}

/// Moves the nodes of a graph into another: the nodes of
/// `source` are appended to those of `dest` and now belong to `dest`. Their
/// coordinates are moved by the geometric pass.
fn move_nodes(a: &mut LGraphArena, dest: LGraphId, source: LGraphId)
    requires
        arena_wf(old(a)),
        dest.0 < old(a).graphs@.len(),
        source.0 < old(a).graphs@.len(),
    ensures
        arena_wf(final(a)),
        final(a).graphs@.len() == old(a).graphs@.len(),
        forall|g: int| 0 <= g < old(a).graphs@.len() && g != dest.0 ==> #[trigger] final(a).graphs@[g] == old(a).graphs@[g],
        graph_with_nodes(
            old(a).graphs@[dest.0 as int],
            old(a).graphs@[dest.0 as int].layerless_nodes@ + old(a).graphs@[source.0 as int].layerless_nodes@,
            final(a).graphs@[dest.0 as int],
        ),
        moved_into(old(a), final(a), old(a).graphs@[source.0 as int].layerless_nodes@, dest),
        final(a).ports@ == old(a).ports@,
        final(a).edges@ == old(a).edges@,
        final(a).labels@ == old(a).labels@,
{
    broadcast use vstd::seq_lib::lemma_seq_contains_after_push;
    let ghost a0 = *a;
    let ghost src = a0.graphs@[source.0 as int].layerless_nodes@;
    let n = a.graphs[source.0].layerless_nodes.len();
    let mut nodes: Vec<LNodeId> = Vec::new();
    let mut i: usize = 0;
    while i < n
        invariant
            *a == a0,
            source.0 < a0.graphs@.len(),
            src == a0.graphs@[source.0 as int].layerless_nodes@,
            n == src.len(),
            i <= n,
            nodes@ == src.take(i as int),
        decreases n - i,
    {
        nodes.push(a.graphs[source.0].layerless_nodes[i]);
        proof {
            assert(src.take(i as int + 1) =~= src.take(i as int).push(src[i as int]));
        }
        i = i + 1;
    }
    proof {
        assert(src.take(n as int) =~= src);
    }
    let mut graph = a.take_graph(dest);
    let ghost dest_nodes = a0.graphs@[dest.0 as int].layerless_nodes@;
    let mut j: usize = 0;
    while j < n
        invariant
            arena_wf(&a0),
            dest.0 < a0.graphs@.len(),
            nodes@ == src,
            n == src.len(),
            forall|k: int| 0 <= k < src.len() ==> (#[trigger] src[k]).0 < a0.nodes@.len(),
            j <= n,
            graph.id == a0.graphs@[dest.0 as int].id,
            graph.properties == a0.graphs@[dest.0 as int].properties,
            graph.layerless_nodes@ == dest_nodes + src.take(j as int),
            dest_nodes == a0.graphs@[dest.0 as int].layerless_nodes@,
            a.graphs@.len() == a0.graphs@.len(),
            forall|g: int| 0 <= g < a0.graphs@.len() && g != dest.0 ==> #[trigger] a.graphs@[g] == a0.graphs@[g],
            a.nodes@.len() == a0.nodes@.len(),
            forall|m: int| 0 <= m < a0.nodes@.len() ==> #[trigger] a.nodes@[m] == if src.take(j as int).contains(LNodeId(m as usize)) {
                node_with_graph(a0.nodes@[m], Some(dest))
            } else {
                a0.nodes@[m]
            },
            a.ports@ == a0.ports@,
            a.edges@ == a0.edges@,
            a.labels@ == a0.labels@,
        decreases n - j,
    {
        let node = nodes[j];
        graph.layerless_nodes.push(node);
        let ghost before = *a;
        proof {
            assert(src[j as int] == node);
        }
        a.set_node_graph(node, Some(dest));
        proof {
            let t = src.take(j as int + 1);
            assert(t =~= src.take(j as int).push(node));
            assert(graph.layerless_nodes@ =~= dest_nodes + t);
            assert forall|m: int| 0 <= m < a0.nodes@.len() implies #[trigger] a.nodes@[m] == if t.contains(LNodeId(m as usize)) {
                node_with_graph(a0.nodes@[m], Some(dest))
            } else {
                a0.nodes@[m]
            } by {
                assert(m < a0.nodes.len());
                if m == node.0 {
                    assert(LNodeId(m as usize) == node);
                    assert(t[j as int] == node);
                    assert(t.contains(node));
                    assert(a.nodes@[m] == node_with_graph(before.nodes@[m], Some(dest)));
                } else {
                    assert(LNodeId(m as usize) != node);
                    assert(a.nodes@[m] == before.nodes@[m]);
                }
            }
        }
        j = j + 1;
    }
    proof {
        assert(src.take(n as int) =~= src);
    }
    a.put_graph(dest, graph);
    proof {
        assert forall|g: int, k: int| 0 <= g < a.graphs@.len() && 0 <= k < a.graphs@[g].layerless_nodes@.len() implies (
            #[trigger] a.graphs@[g].layerless_nodes@[k]).0 < a.nodes@.len() by {
            if g == dest.0 {
                let l = a.graphs@[g].layerless_nodes@;
                if k < dest_nodes.len() {
                    assert(l[k] == a0.graphs@[dest.0 as int].layerless_nodes@[k]);
                } else {
                    assert(l[k] == src[k - dest_nodes.len()]);
                }
            } else {
                assert(a.graphs@[g] == a0.graphs@[g]);
            }
        }
        assert forall|m: int| 0 <= m < a.nodes@.len() implies (#[trigger] a.nodes@[m].graph matches Some(g) ==> g.0 < a.graphs@.len()) by {
            assert(m < a0.nodes.len());
        }
        assert forall|m: int| 0 <= m < a.nodes@.len() implies (#[trigger] a.nodes@[m].nested_graph matches Some(g) ==> g.0 < a.graphs@.len()) by {
            assert(a.nodes@[m].nested_graph == a0.nodes@[m].nested_graph);
        }
        assert forall|m: int, k: int| 0 <= m < a.nodes@.len() && 0 <= k < a.nodes@[m].ports@.len() implies (
            #[trigger] a.nodes@[m].ports@[k]).0 < a.ports@.len() by {
            assert(a.nodes@[m].ports == a0.nodes@[m].ports);
            assert(a0.nodes@[m].ports@[k] == a.nodes@[m].ports@[k]);
        }
    }
}

/// Empties the node list of a graph.
fn clear_nodes(a: &mut LGraphArena, g: LGraphId)
    requires
        arena_wf(old(a)),
        g.0 < old(a).graphs@.len(),
    ensures
        arena_wf(final(a)),
        final(a).graphs@.len() == old(a).graphs@.len(),
        forall|h: int| 0 <= h < old(a).graphs@.len() && h != g.0 ==> #[trigger] final(a).graphs@[h] == old(a).graphs@[h],
        graph_with_nodes(old(a).graphs@[g.0 as int], Seq::empty(), final(a).graphs@[g.0 as int]),
        final(a).nodes@ == old(a).nodes@,
        final(a).ports@ == old(a).ports@,
        final(a).edges@ == old(a).edges@,
        final(a).labels@ == old(a).labels@,
{
    let ghost a0 = *a;
    let mut graph = a.take_graph(g);
    graph.layerless_nodes = Vec::new();
    a.put_graph(g, graph);
    proof {
        assert forall|h: int, k: int| 0 <= h < a.graphs@.len() && 0 <= k < a.graphs@[h].layerless_nodes@.len() implies (
            #[trigger] a.graphs@[h].layerless_nodes@[k]).0 < a.nodes@.len() by {
            assert(a.graphs@[h] == a0.graphs@[h]);
        }
    }
}

/// Copies the properties of graph `src` onto graph `dest`, through a copy
/// of them.
fn copy_graph_properties(a: &mut LGraphArena, dest: LGraphId, src: LGraphId)
    requires
        arena_wf(old(a)),
        dest.0 < old(a).graphs@.len(),
        src.0 < old(a).graphs@.len(),
    ensures
        arena_wf(final(a)),
        final(a).graphs@.len() == old(a).graphs@.len(),
        forall|h: int| 0 <= h < old(a).graphs@.len() && h != dest.0 ==> #[trigger] final(a).graphs@[h] == old(a).graphs@[h],
        final(a).graphs@[dest.0 as int].id == old(a).graphs@[dest.0 as int].id,
        final(a).graphs@[dest.0 as int].layerless_nodes == old(a).graphs@[dest.0 as int].layerless_nodes,
        final(a).graphs@[dest.0 as int].properties@ == put_all(
            old(a).graphs@[dest.0 as int].properties@,
            put_all(Seq::empty(), old(a).graphs@[src.0 as int].properties@),
        ),
        final(a).nodes@ == old(a).nodes@,
        final(a).ports@ == old(a).ports@,
        final(a).edges@ == old(a).edges@,
        final(a).labels@ == old(a).labels@,
{
    let ghost a0 = *a;
    let mut copy = PropertyMap::new();
    copy.copy_from(&a.graphs[src.0].properties);
    let mut graph = a.take_graph(dest);
    graph.properties.copy_from(&copy);
    a.put_graph(dest, graph);
    proof {
        assert forall|h: int, k: int| 0 <= h < a.graphs@.len() && 0 <= k < a.graphs@[h].layerless_nodes@.len() implies (
            #[trigger] a.graphs@[h].layerless_nodes@[k]).0 < a.nodes@.len() by {
            assert(a.graphs@[h].layerless_nodes == a0.graphs@[h].layerless_nodes);
            assert(a0.graphs@[h].layerless_nodes@[k] == a.graphs@[h].layerless_nodes@[k]);
        }
    }
}

/// Whether `combine` sorts the components: there are several and the
/// target graph does not order them by the model order.
pub open spec fn sorts_components(a: &LGraphArena, comps: Seq<LGraphId>, target: LGraphId) -> bool {
    comps.len() > 1 && !orders_components(a.graphs@[target.0 as int].properties@)
}

/// The priorities of the components: the sums of their nodes' priorities.
pub open spec fn component_priorities(a: &LGraphArena, comps: Seq<LGraphId>) -> Seq<i32> {
    Seq::new(comps.len(), |j: int| priority_sum(a.nodes@, a.graphs@[comps[j].0 as int].layerless_nodes@))
}

/// Graph `h` once `combine` has set the priorities: a component that is
/// sorted gets its priority as scratch number.
pub open spec fn prioritized(a: &LGraphArena, comps: Seq<LGraphId>, target: LGraphId, h: int) -> LGraph {
    if sorts_components(a, comps, target) && comps.contains(LGraphId(h as usize)) {
        graph_with_id(a.graphs@[h], priority_sum(a.nodes@, a.graphs@[h].layerless_nodes@))
    } else {
        a.graphs@[h]
    }
}

/// The nodes gathered from the components depend only on the graphs' node
/// lists.
proof fn lemma_combined_same(a: &LGraphArena, b: &LGraphArena, comps: Seq<LGraphId>)
    requires
        forall|j: int| 0 <= j < comps.len() ==> (#[trigger] comps[j]).0 < a.graphs@.len(),
        b.graphs@.len() == a.graphs@.len(),
        forall|g: int| 0 <= g < a.graphs@.len() ==> (#[trigger] b.graphs@[g]).layerless_nodes == a.graphs@[g].layerless_nodes,
    ensures
        forall|t: LGraphId| #[trigger] combined_nodes(b, comps, t) == combined_nodes(a, comps, t),
    decreases comps.len(),
{
    if comps.len() > 0 {
        lemma_combined_same(a, b, comps.drop_last());
        assert forall|t: LGraphId| #[trigger] combined_nodes(b, comps, t) == combined_nodes(a, comps, t) by {
            assert(combined_nodes(b, comps.drop_last(), t) == combined_nodes(a, comps.drop_last(), t));
            let g = comps.last().0 as int;
            assert(comps.last() == comps[comps.len() - 1]);
            assert(b.graphs@[g].layerless_nodes == a.graphs@[g].layerless_nodes);
        }
    }
}

/// Whether the components of a graph with properties `p` are to be
/// compacted (not supported).
pub open spec fn compacts(p: Seq<(Seq<char>, StoredValue)>) -> bool {
    read::<bool>(p, compaction_connected_components_id()) == Some(true)
}

impl ComponentsProcessor {
    /// Gathers the components, in the given order, back into `target`: their
    /// nodes are appended to `target` (see `combined_nodes`) and now belong to
    /// it, and `target` takes a copy of the first component's properties. A
    /// single component that is the target itself is left alone; no
    /// components leave the target empty. Compacting the components is not
    /// supported: it is an error.
    fn gather(a: &mut LGraphArena, components: &Vec<LGraphId>, target: LGraphId) -> (r: Result<(), String>)
        requires
            arena_wf(old(a)),
            target.0 < old(a).graphs@.len(),
            forall|j: int| 0 <= j < components@.len() ==> (#[trigger] components@[j]).0 < old(a).graphs@.len(),
        ensures
            arena_wf(final(a)),
            final(a).ports@ == old(a).ports@,
            final(a).edges@ == old(a).edges@,
            final(a).labels@ == old(a).labels@,
            final(a).graphs@.len() == old(a).graphs@.len(),
            forall|h: int| 0 <= h < old(a).graphs@.len() && h != target.0 ==> #[trigger] final(a).graphs@[h] == old(a).graphs@[h],
            final(a).graphs@[target.0 as int].id == old(a).graphs@[target.0 as int].id,
            components@.len() == 1 && components@[0] == target ==> {
                &&& r is Ok
                &&& final(a).graphs@ == old(a).graphs@
                &&& final(a).nodes@ == old(a).nodes@
            },
            components@.len() == 0 ==> {
                &&& r is Ok
                &&& final(a).graphs@[target.0 as int].layerless_nodes@.len() == 0
                &&& final(a).graphs@[target.0 as int].properties == old(a).graphs@[target.0 as int].properties
                &&& final(a).nodes@ == old(a).nodes@
            },
            components@.len() > 0 && !(components@.len() == 1 && components@[0] == target) ==> {
                &&& r is Err <==> components@.len() > 1 && compacts(old(a).graphs@[components@[0].0 as int].properties@)
                &&& final(a).graphs@[target.0 as int].properties@ == put_all(
                    old(a).graphs@[target.0 as int].properties@,
                    put_all(Seq::empty(), old(a).graphs@[components@[0].0 as int].properties@),
                )
                &&& r is Ok ==> final(a).graphs@[target.0 as int].layerless_nodes@ == combined_nodes(old(a), components@, target)
                &&& r is Ok ==> moved_into(old(a), final(a), combined_nodes(old(a), components@, target), target)
                &&& r is Err ==> final(a).graphs@[target.0 as int].layerless_nodes@.len() == 0 && final(a).nodes@ == old(a).nodes@
            },
    {
        let ghost a0 = *a;
        if components.len() == 1 {
            let source = components[0];
            if source.0 == target.0 {
                return Ok(());
            }
            clear_nodes(a, target);
            let ghost a1 = *a;
            move_nodes(a, target, source);
            let ghost a2 = *a;
            copy_graph_properties(a, target, source);
            proof {
                let c = components@;
                assert(c.drop_last() =~= Seq::<LGraphId>::empty());
                assert(combined_nodes(&a0, c.drop_last(), target) =~= Seq::<LNodeId>::empty());
                assert(combined_nodes(&a0, c, target) =~= a0.graphs@[source.0 as int].layerless_nodes@);
                assert(a1.graphs@[source.0 as int] == a0.graphs@[source.0 as int]);
                assert(a2.graphs@[target.0 as int].layerless_nodes@ =~= a0.graphs@[source.0 as int].layerless_nodes@);
                assert(a2.graphs@[source.0 as int] == a0.graphs@[source.0 as int]);
            }
            return Ok(());
        } else if components.len() == 0 {
            clear_nodes(a, target);
            return Ok(());
        }
        let first = components[0];
        a.graphs[first.0].properties.keys_are_unique();
        clear_nodes(a, target);
        let ghost a1 = *a;
        copy_graph_properties(a, target, first);
        proof {
            let p = a0.graphs@[first.0 as int].properties@;
            assert(a1.graphs@[first.0 as int].properties == a0.graphs@[first.0 as int].properties);
            if first == target {
                crate::property_map::lemma_put_all(Seq::empty(), p);
                crate::property_map::lemma_put_all(p, put_all(Seq::empty(), p));
                assert(crate::property_map::lookup(a.graphs@[first.0 as int].properties@, compaction_connected_components_id())
                    == crate::property_map::lookup(p, compaction_connected_components_id()));
            }
            assert(compacts(a.graphs@[first.0 as int].properties@) == compacts(p));
        }
        let compaction = a.graphs[first.0].properties.get(&compaction_connected_components());
        if compaction {
            return Err(String::from_str("compacting the connected components is not supported"));
        }
        let ghost a2 = *a;
        let mut j: usize = 0;
        while j < components.len()
            invariant
                arena_wf(a),
                arena_wf(&a0),
                target.0 < a0.graphs@.len(),
                forall|k: int| 0 <= k < components@.len() ==> (#[trigger] components@[k]).0 < a0.graphs@.len(),
                j <= components@.len(),
                a.ports@ == a0.ports@,
                a.edges@ == a0.edges@,
                a.labels@ == a0.labels@,
                a.graphs@.len() == a0.graphs@.len(),
                forall|h: int| 0 <= h < a0.graphs@.len() && h != target.0 ==> #[trigger] a.graphs@[h] == a0.graphs@[h],
                a.graphs@[target.0 as int].id == a0.graphs@[target.0 as int].id,
                a.graphs@[target.0 as int].properties == a2.graphs@[target.0 as int].properties,
                a.graphs@[target.0 as int].layerless_nodes@ == combined_nodes(&a0, components@.take(j as int), target),
                moved_into(&a0, a, combined_nodes(&a0, components@.take(j as int), target), target),
            decreases components@.len() - j,
        {
            let ghost before = *a;
            let source = components[j];
            move_nodes(a, target, source);
            proof {
                broadcast use vstd::seq_lib::lemma_seq_concat_contains_all_elements;
                let prev = combined_nodes(&a0, components@.take(j as int), target);
                let t = components@.take(j as int + 1);
                assert(t.drop_last() =~= components@.take(j as int));
                assert(t.last() == source);
                let added = before.graphs@[source.0 as int].layerless_nodes@;
                if source == target {
                    assert(added == prev);
                } else {
                    assert(before.graphs@[source.0 as int] == a0.graphs@[source.0 as int]);
                }
                assert(combined_nodes(&a0, t, target) == prev + added);
                assert forall|m: int| 0 <= m < a0.nodes@.len() implies #[trigger] a.nodes@[m] == if combined_nodes(&a0, t, target).contains(LNodeId(m as usize)) {
                    node_with_graph(a0.nodes@[m], Some(target))
                } else {
                    a0.nodes@[m]
                } by {
                    assert(before.nodes@[m] == if prev.contains(LNodeId(m as usize)) {
                        node_with_graph(a0.nodes@[m], Some(target))
                    } else {
                        a0.nodes@[m]
                    });
                }
            }
            j = j + 1;
        }
        proof {
            assert(components@.take(components@.len() as int) =~= components@);
            assert(combined_nodes(&a0, Seq::<LGraphId>::empty(), target) =~= Seq::<LNodeId>::empty());
        }
        Ok(())
    }

    /// Gathers the components of a graph back, placed in rows. Unless there
    /// is at most one component or the target graph orders components by the
    /// model order, the components are first sorted as `sort_components`
    /// sorts them (`area_ranks[j]` ranks the area of `components[j]`), which
    /// sets each component's scratch number to its priority; then they are
    /// gathered in that order into `target` (see `gather`). The placement in
    /// rows is done by the geometric pass.
    pub fn combine(
        a: &mut LGraphArena,
        components: &mut Vec<LGraphId>,
        target: LGraphId,
        area_ranks: &Vec<u64>,
    ) -> (r: Result<(), String>)
        requires
            arena_wf(old(a)),
            target.0 < old(a).graphs@.len(),
            forall|j: int| 0 <= j < old(components)@.len() ==> (#[trigger] old(components)@[j]).0 < old(a).graphs@.len(),
            area_ranks@.len() == old(components)@.len(),
        ensures
            arena_wf(final(a)),
            final(a).ports@ == old(a).ports@,
            final(a).edges@ == old(a).edges@,
            final(a).labels@ == old(a).labels@,
            final(a).graphs@.len() == old(a).graphs@.len(),
            !sorts_components(old(a), old(components)@, target) ==> final(components)@ == old(components)@,
            sorts_components(old(a), old(components)@, target) ==> exists|p: Seq<int>|
                #[trigger] placement_order(component_priorities(old(a), old(components)@), area_ranks@, p)
                    && final(components)@ == p.map_values(|x: int| old(components)@[x]),
            forall|h: int| 0 <= h < old(a).graphs@.len() && h != target.0 ==> #[trigger] final(a).graphs@[h]
                == prioritized(old(a), old(components)@, target, h),
            final(a).graphs@[target.0 as int].id == prioritized(old(a), old(components)@, target, target.0 as int).id,
            final(components)@.len() == 1 && final(components)@[0] == target ==> {
                &&& r is Ok
                &&& final(a).graphs@ == old(a).graphs@
                &&& final(a).nodes@ == old(a).nodes@
            },
            final(components)@.len() == 0 ==> {
                &&& r is Ok
                &&& final(a).graphs@[target.0 as int].layerless_nodes@.len() == 0
                &&& final(a).graphs@[target.0 as int].properties == old(a).graphs@[target.0 as int].properties
                &&& final(a).nodes@ == old(a).nodes@
            },
            final(components)@.len() > 0 && !(final(components)@.len() == 1 && final(components)@[0] == target) ==> {
                &&& r is Err <==> final(components)@.len() > 1 && compacts(
                    old(a).graphs@[final(components)@[0].0 as int].properties@,
                )
                &&& final(a).graphs@[target.0 as int].properties@ == put_all(
                    old(a).graphs@[target.0 as int].properties@,
                    put_all(Seq::empty(), old(a).graphs@[final(components)@[0].0 as int].properties@),
                )
                &&& r is Ok ==> final(a).graphs@[target.0 as int].layerless_nodes@ == combined_nodes(
                    old(a),
                    final(components)@,
                    target,
                )
                &&& r is Ok ==> moved_into(old(a), final(a), combined_nodes(old(a), final(components)@, target), target)
                &&& r is Err ==> final(a).graphs@[target.0 as int].layerless_nodes@.len() == 0 && final(a).nodes@
                    == old(a).nodes@
            },
    {
        let ghost a0 = *a;
        let ghost c0 = components@;
        if components.len() > 1 {
            let sorted = sort_components(a, components, target, area_ranks);
            proof {
                if sorted {
                    assert(component_ids(a, c0) =~= component_priorities(&a0, c0)) by {
                        assert forall|j: int| 0 <= j < c0.len() implies a.graphs@[c0[j].0 as int].id
                            == priority_sum(a0.nodes@, a0.graphs@[c0[j].0 as int].layerless_nodes@) by {
                            assert(c0.contains(LGraphId(c0[j].0 as usize)));
                        }
                    }
                    let p = choose|p: Seq<int>| #[trigger] placement_order(component_ids(a, c0), area_ranks@, p)
                        && components@ == p.map_values(|x: int| c0[x]);
                    assert(placement_order(component_priorities(&a0, c0), area_ranks@, p));
                    assert forall|j: int| 0 <= j < components@.len() implies c0.contains(#[trigger] components@[j]) by {
                        assert(components@[j] == c0[p[j]]);
                    }
                }
            }
        }
        let ghost mid = *a;
        proof {
            assert forall|h: int| 0 <= h < a0.graphs@.len() implies #[trigger] mid.graphs@[h]
                == prioritized(&a0, c0, target, h) by {}
            assert forall|j: int| 0 <= j < components@.len() implies c0.contains(#[trigger] components@[j]) by {
                if components@ == c0 {
                    assert(c0[j] == components@[j]);
                }
            }
            assert forall|j: int| 0 <= j < components@.len() implies (#[trigger] components@[j]).0 < mid.graphs@.len() by {
                assert(c0.contains(components@[j]));
            }
            lemma_combined_same(&a0, &mid, components@);
            if components@.len() > 0 {
                assert(c0.contains(components@[0]));
            }
        }
        Self::gather(a, components, target)
    }
}

/// A node of a component other than the target is among the combined
/// nodes.
proof fn lemma_combined_contains(a: &LGraphArena, comps: Seq<LGraphId>, target: LGraphId, j: int, x: LNodeId)
    requires
        0 <= j < comps.len(),
        comps[j] != target,
        a.graphs@[comps[j].0 as int].layerless_nodes@.contains(x),
    ensures
        combined_nodes(a, comps, target).contains(x),
    decreases comps.len(),
{
    broadcast use vstd::seq_lib::lemma_seq_concat_contains_all_elements;
    let prev = combined_nodes(a, comps.drop_last(), target);
    if j < comps.len() - 1 {
        assert(comps.drop_last()[j] == comps[j]);
        lemma_combined_contains(a, comps.drop_last(), target, j, x);
        if comps.last() == target {
            assert(combined_nodes(a, comps, target) == prev + prev);
        } else {
            assert(combined_nodes(a, comps, target) == prev + a.graphs@[comps.last().0 as int].layerless_nodes@);
        }
    } else {
        assert(comps.last() == comps[j]);
        assert(combined_nodes(a, comps, target) == prev + a.graphs@[comps.last().0 as int].layerless_nodes@);
    }
}

/// Splitting a graph and combining all its components back into it (in any
/// order) returns every node of the graph to it.
pub proof fn lemma_split_combine(
    a0: &LGraphArena,
    a1: &LGraphArena,
    a2: &LGraphArena,
    graph: LGraphId,
    k: int,
    comps: Seq<LGraphId>,
)
    requires
        arena_wf(a0),
        graph.0 < a0.graphs@.len(),
        components_built(a0, a1, graph, k),
        components_started(a0, a1, graph, a0.graphs@[graph.0 as int].layerless_nodes@.len() as int, k),
        forall|g: int| a0.graphs@.len() <= g < a0.graphs@.len() + k ==> #[trigger] comps.contains(LGraphId(g as usize)),
        !comps.contains(graph),
        moved_into(a1, a2, combined_nodes(a1, comps, graph), graph),
    ensures
        forall|t: int| 0 <= t < a0.graphs@[graph.0 as int].layerless_nodes@.len() ==> a2.nodes@[(
            #[trigger] a0.graphs@[graph.0 as int].layerless_nodes@[t]).0 as int].graph == Some(graph),
{
    let n0 = a0.graphs@.len();
    let l = a0.graphs@[graph.0 as int].layerless_nodes@;
    lemma_split_partitions(a0, a1, graph, k);
    assert forall|t: int| 0 <= t < l.len() implies a2.nodes@[(#[trigger] a0.graphs@[graph.0 as int].layerless_nodes@[t]).0 as int].graph == Some(graph) by {
        let x = l[t];
        assert(in_component(a1, a0.graphs@[graph.0 as int].layerless_nodes@[t], n0, k));
        let g = choose|g: int| n0 <= g < n0 + k && #[trigger] a1.graphs@[g].layerless_nodes@.contains(x);
        assert(g < a1.graphs.len());
        assert(LGraphId(g as usize).0 == g);
        assert(comps.contains(LGraphId(g as usize)));
        let j = choose|j: int| 0 <= j < comps.len() && comps[j] == LGraphId(g as usize);
        assert(comps[j] != graph);
        lemma_combined_contains(a1, comps, graph, j, x);
        assert(x.0 < a0.nodes@.len()) by {
            assert(a0.graphs@[graph.0 as int].layerless_nodes@[t] == x);
        }
        assert(x.0 < a0.nodes.len());
        assert(LNodeId(x.0 as usize) == x);
        assert(a2.nodes@[x.0 as int] == node_with_graph(a1.nodes@[x.0 as int], Some(graph)));
    }
}

/// Whatever its port constraints, a graph without external ports whose
/// components are to be separated is split into its components (`split`
/// builds a graph per component exactly when `splits` holds).
pub proof fn lemma_split_without_external_ports(p: Seq<(Seq<char>, StoredValue)>)
    requires
        separates(p),
        !has_external_ports(p),
    ensures
        splits(p),
{
}

/// A graph is kept whole only when separation is off, or when its port
/// order is fixed and it has external ports.
pub proof fn lemma_split_kept_whole(p: Seq<(Seq<char>, StoredValue)>)
    requires
        !splits(p),
    ensures
        !separates(p) || (port_order_fixed(p) && has_external_ports(p)),
{
}

} // verus!
