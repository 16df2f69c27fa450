//! Structural utilities on the layered graph: collector ports and edge
//! reversal.

use vstd::prelude::*;
use crate::layered_options::{
    direction, direction_id, edge_labels_placement, edge_labels_placement_id, graph_properties,
    graph_properties_id, hypernode, hypernode_id, input_collect, input_collect_id, merge_edges,
    merge_edges_id, output_collect, output_collect_id, port_constraints, port_constraints_id, reversed,
    reversed_id,
};
use crate::lgraph::{
    arena_wf, fresh_port, moved_edge_list, owner_set, source_set, target_set, LEdgeId, LGraphArena,
    LGraphId, LLabelId, LNodeId, LPortId,
};
use crate::options::{
    direction_is_horizontal, direction_is_vertical, facing_side, rotate, side_fixed, side_is_horizontal,
    side_is_vertical, Direction, EdgeLabelPlacement, GraphProperties, PortConstraints, PortSide, PortType,
};
use crate::index_map::find_key;
use crate::properties::{index_of, EnumSet};
use crate::property_map::{keys_unique, lemma_put, lemma_read_after_write, put, read, PropValue, StoredValue};

verus! {

/// The property marking the collector port of a port type.
pub open spec fn collector_id(t: PortType) -> Seq<char> {
    if t == PortType::INPUT {
        input_collect_id()
    } else {
        output_collect_id()
    }
}

/// The port is marked with the flag `id`.
pub open spec fn collects(a: &LGraphArena, p: LPortId, id: Seq<char>) -> bool {
    read::<bool>(a.ports@[p.0 as int].properties@, id) == Some(true)
}

/// The `i`-th port of `node` is marked with the flag `id`.
pub open spec fn collector_at(a: &LGraphArena, node: LNodeId, id: Seq<char>, i: int) -> bool {
    0 <= i < a.nodes@[node.0 as int].ports@.len() && collects(a, a.nodes@[node.0 as int].ports@[i], id)
}

/// The `i`-th port of `node` is the first one marked with `id`.
pub open spec fn is_first_collector(a: &LGraphArena, node: LNodeId, id: Seq<char>, i: int) -> bool {
    collector_at(a, node, id, i) && forall|j: int| 0 <= j < i ==> !#[trigger] collector_at(a, node, id, j)
}

/// Some port of `node` is marked with `id`.
pub open spec fn has_collector(a: &LGraphArena, node: LNodeId, id: Seq<char>) -> bool {
    exists|i: int| #[trigger] collector_at(a, node, id, i)
}

/// The position of the first port of `node` marked with `id`.
pub open spec fn first_collector(a: &LGraphArena, node: LNodeId, id: Seq<char>) -> int {
    choose|i: int| is_first_collector(a, node, id, i)
}

proof fn lemma_first_collector(a: &LGraphArena, node: LNodeId, id: Seq<char>, i: int)
    requires
        is_first_collector(a, node, id, i),
    ensures
        has_collector(a, node, id),
        first_collector(a, node, id) == i,
{
    let j = first_collector(a, node, id);
    assert(is_first_collector(a, node, id, j));
    if j < i {
        assert(!collector_at(a, node, id, j));
    }
    if i < j {
        assert(!collector_at(a, node, id, i));
    }
}

/// `b` is `a` with a new port appended: owned by `node` (appended to its
/// ports), on side `side`, without edges, marked with `id`.
pub open spec fn collector_added(a: &LGraphArena, b: &LGraphArena, node: LNodeId, id: Seq<char>, side: PortSide) -> bool {
    let r = a.ports@.len();
    &&& b.ports@.len() == r + 1
    &&& b.ports@.drop_last() == a.ports@
    &&& b.ports@[r as int].node == Some(node)
    &&& b.ports@[r as int].side == side
    &&& b.ports@[r as int].incoming_edges@.len() == 0
    &&& b.ports@[r as int].outgoing_edges@.len() == 0
    &&& b.ports@[r as int].properties@ == seq![(id, StoredValue::Bool(true))]
    &&& b.graphs@ == a.graphs@
    &&& b.edges@ == a.edges@
    &&& b.labels@ == a.labels@
    &&& b.nodes@.len() == a.nodes@.len()
    &&& forall|n: int| 0 <= n < a.nodes@.len() ==> {
        &&& (#[trigger] b.nodes@[n]).id == a.nodes@[n].id
        &&& b.nodes@[n].node_type == a.nodes@[n].node_type
        &&& b.nodes@[n].graph == a.nodes@[n].graph
        &&& b.nodes@[n].nested_graph == a.nodes@[n].nested_graph
        &&& b.nodes@[n].properties == a.nodes@[n].properties
        &&& b.nodes@[n].ports@ == if n == node.0 {
            a.nodes@[n].ports@.push(LPortId(r as usize))
        } else {
            a.nodes@[n].ports@
        }
    }
}

/// What providing the collector port of `node` for port type `t` does to
/// `a`, giving `b` and port `r`: the first port of `node` marked as the
/// collector is returned and nothing changes; without one, a new collector
/// port is added (see `collector_added`) and returned.
pub open spec fn collector_provided(a: &LGraphArena, b: &LGraphArena, node: LNodeId, t: PortType, side: PortSide, r: LPortId) -> bool {
    &&& has_collector(a, node, collector_id(t)) ==> {
        &&& r == a.nodes@[node.0 as int].ports@[first_collector(a, node, collector_id(t))]
        &&& b.graphs@ == a.graphs@
        &&& b.nodes@ == a.nodes@
        &&& b.ports@ == a.ports@
        &&& b.edges@ == a.edges@
        &&& b.labels@ == a.labels@
    }
    &&& !has_collector(a, node, collector_id(t)) ==> {
        &&& r.0 == a.ports@.len()
        &&& collector_added(a, b, node, collector_id(t), side)
    }
}

/// Providing the collector port twice gives the same port, and the second
/// time nothing changes, whatever side is asked for.
pub proof fn lemma_collector_stable(
    a0: &LGraphArena,
    a1: &LGraphArena,
    a2: &LGraphArena,
    node: LNodeId,
    t: PortType,
    s1: PortSide,
    s2: PortSide,
    r1: LPortId,
    r2: LPortId,
)
    requires
        arena_wf(a0),
        node.0 < a0.nodes@.len(),
        t != PortType::UNDEFINED,
        collector_provided(a0, a1, node, t, s1, r1),
        collector_provided(a1, a2, node, t, s2, r2),
    ensures
        r2 == r1,
        a2.graphs@ == a1.graphs@,
        a2.nodes@ == a1.nodes@,
        a2.ports@ == a1.ports@,
        a2.edges@ == a1.edges@,
        a2.labels@ == a1.labels@,
{
    let id = collector_id(t);
    if has_collector(a0, node, id) {
        let w = choose|i: int| #[trigger] collector_at(a0, node, id, i);
        lemma_first_collector_exists(a0, node, id, w);
        let i0 = first_collector(a0, node, id);
        assert forall|j: int| 0 <= j <= i0 implies #[trigger] collector_at(a1, node, id, j) == collector_at(a0, node, id, j) by {}
        assert(is_first_collector(a1, node, id, i0));
        lemma_first_collector(a1, node, id, i0);
    } else {
        let l = a0.ports@.len();
        let i = a0.nodes@[node.0 as int].ports@.len() as int;
        assert(a1.nodes@[node.0 as int].ports@ == a0.nodes@[node.0 as int].ports@.push(LPortId(l as usize)));
        assert(a1.nodes@[node.0 as int].ports@[i] == r1);
        assert(a1.ports@[l as int].properties@ == seq![(id, StoredValue::Bool(true))]);
        assert(find_key(seq![(id, StoredValue::Bool(true))], id) == Some(0int));
        assert(collects(a1, r1, id));
        assert forall|j: int| 0 <= j < i implies !#[trigger] collector_at(a1, node, id, j) by {
            let p = a0.nodes@[node.0 as int].ports@[j];
            assert(a1.nodes@[node.0 as int].ports@[j] == p);
            assert(p.0 < l) by {
                assert(a0.nodes@[node.0 as int].ports@[j] == p);
            }
            assert(a1.ports@[p.0 as int] == a1.ports@.drop_last()[p.0 as int]);
            if collector_at(a1, node, id, j) {
                assert(collector_at(a0, node, id, j));
            }
        }
        assert(is_first_collector(a1, node, id, i));
        lemma_first_collector(a1, node, id, i);
    }
}

/// The collector port of a node for a port type: the first port of `node`
/// marked as the collector of the port type, else a new such port, added
/// to `node` on side `side`. The new port's position is placed by the
/// geometric pass.
pub fn provide_collector_port(a: &mut LGraphArena, _graph: LGraphId, node: LNodeId, port_type: PortType, side: PortSide) -> (r: LPortId)
    requires
        arena_wf(old(a)),
        node.0 < old(a).nodes@.len(),
        port_type != PortType::UNDEFINED,
    ensures
        arena_wf(final(a)),
        collector_provided(old(a), final(a), node, port_type, side, r),
{
    let ghost a0 = *a;
    let ghost id = collector_id(port_type);
    let flag = if port_type == PortType::INPUT {
        input_collect()
    } else {
        output_collect()
    };
    let n = a.nodes[node.0].ports.len();
    let mut i: usize = 0;
    while i < n
        invariant
            *a == a0,
            a0 == *old(a),
            arena_wf(a),
            node.0 < a.nodes@.len(),
            n == a.nodes@[node.0 as int].ports@.len(),
            flag.id@ == id,
            id == collector_id(port_type),
            flag.default == Some(false),
            i <= n,
            forall|j: int| 0 <= j < i ==> !#[trigger] collector_at(&a0, node, id, j),
        decreases n - i,
    {
        let port = a.nodes[node.0].ports[i];
        if a.ports[port.0].properties.get(&flag) {
            proof {
                assert(collector_at(&a0, node, id, i as int));
                lemma_first_collector(&a0, node, id, i as int);
            }
            return port;
        }
        proof {
            assert(!collector_at(&a0, node, id, i as int));
        }
        i = i + 1;
    }
    proof {
        assert(!has_collector(&a0, node, id));
    }
    let port = a.create_port();
    let ghost a1 = *a;
    a.set_port_property(port, &flag, true);
    let ghost a2 = *a;
    a.set_port_node(port, Some(node));
    let ghost a3 = *a;
    a.set_port_side(port, side);
    proof {
        assert(a1.ports@[port.0 as int].properties@ =~= Seq::<(Seq<char>, StoredValue)>::empty());
        assert(put(Seq::<(Seq<char>, StoredValue)>::empty(), id, StoredValue::Bool(true)) =~= seq![(id, StoredValue::Bool(true))]);
        assert(a.ports@.drop_last() =~= a0.ports@) by {
            assert forall|q: int| 0 <= q < a0.ports@.len() implies a.ports@[q] == a0.ports@[q] by {
                assert(a1.ports@[q] == a0.ports@[q]);
                assert(a2.ports@[q] == a1.ports@[q]);
            }
        }
        assert(a2.ports@[port.0 as int].node is None);
        assert forall|m: int| 0 <= m < a0.nodes@.len() implies (#[trigger] a.nodes@[m]).ports@ == if m == node.0 {
            a0.nodes@[m].ports@.push(LPortId(a0.ports@.len() as usize))
        } else {
            a0.nodes@[m].ports@
        } by {
            assert(m < a0.nodes.len());
            assert(a3.nodes@[m].ports@ == crate::lgraph::moved_port_list(a2.nodes@[m].ports@, LNodeId(m as usize), port, None, Some(node)));
            assert(a2.nodes@[m] == a0.nodes@[m]);
            assert(LNodeId(m as usize).0 == m);
        }
    }
    port
}

/// A node with a port marked `id` has a first such port.
proof fn lemma_first_collector_exists(a: &LGraphArena, node: LNodeId, id: Seq<char>, i: int)
    requires
        collector_at(a, node, id, i),
    ensures
        has_collector(a, node, id),
        is_first_collector(a, node, id, first_collector(a, node, id)),
    decreases i,
{
    if exists|j: int| 0 <= j < i && #[trigger] collector_at(a, node, id, j) {
        let j = choose|j: int| 0 <= j < i && #[trigger] collector_at(a, node, id, j);
        lemma_first_collector_exists(a, node, id, j);
    } else {
        assert(is_first_collector(a, node, id, i));
        lemma_first_collector(a, node, id, i);
    }
}

/// The two collector flags are different properties.
proof fn lemma_collector_ids_differ()
    ensures
        input_collect_id() != output_collect_id(),
{
    reveal_strlit("inputCollect");
    reveal_strlit("outputCollect");
    assert(input_collect_id().len() != output_collect_id().len());
}

/// Adding a collector of one type leaves the collectors of the other type
/// where they were.
proof fn lemma_collector_kept(
    a: &LGraphArena,
    b: &LGraphArena,
    added_to: LNodeId,
    added_id: Seq<char>,
    side: PortSide,
    node: LNodeId,
    id: Seq<char>,
)
    requires
        arena_wf(a),
        collector_added(a, b, added_to, added_id, side),
        node.0 < a.nodes@.len(),
        id != added_id,
    ensures
        has_collector(b, node, id) == has_collector(a, node, id),
        has_collector(a, node, id) ==> first_collector(b, node, id) == first_collector(a, node, id)
            && b.nodes@[node.0 as int].ports@[first_collector(b, node, id)] == a.nodes@[node.0 as int].ports@[first_collector(a, node, id)],
{
    let r = a.ports@.len();
    assert(b.ports@[r as int].properties@ == seq![(added_id, StoredValue::Bool(true))]);
    assert(crate::property_map::lookup(seq![(added_id, StoredValue::Bool(true))], id) is None) by {
        crate::property_map::lemma_find_key(seq![(added_id, StoredValue::Bool(true))], id);
    }
    assert forall|i: int| #[trigger] collector_at(b, node, id, i) == collector_at(a, node, id, i) by {
        if 0 <= i < a.nodes@[node.0 as int].ports@.len() {
            let p = a.nodes@[node.0 as int].ports@[i];
            assert(b.nodes@[node.0 as int].ports@[i] == p);
            assert(p.0 < a.ports@.len());
            assert(b.ports@.drop_last()[p.0 as int] == b.ports@[p.0 as int]);
        }
        if i == a.nodes@[node.0 as int].ports@.len() && node == added_to {
            assert(b.nodes@[node.0 as int].ports@[i] == LPortId(r as usize));
            assert(r < b.ports.len());
            assert(LPortId(r as usize).0 == r);
            assert(!collects(b, LPortId(r as usize), id));
        }
    }
    if has_collector(a, node, id) {
        let i = choose|i: int| #[trigger] collector_at(a, node, id, i);
        lemma_first_collector_exists(a, node, id, i);
        let f = first_collector(a, node, id);
        assert(is_first_collector(b, node, id, f));
        lemma_first_collector(b, node, id, f);
        assert(b.nodes@[node.0 as int].ports@[f] == a.nodes@[node.0 as int].ports@[f]);
    }
    if has_collector(b, node, id) {
        let i = choose|i: int| #[trigger] collector_at(b, node, id, i);
        assert(collector_at(a, node, id, i));
    }
}

/// Whether reversing makes a new collector for end port `p`: ports are
/// adapted, `p` is marked `flag`, and its node has no port marked `want`.
pub open spec fn makes_collector(a: &LGraphArena, p: LPortId, adapt: bool, flag: Seq<char>, want: Seq<char>) -> bool {
    adapt && collects(a, p, flag) && !has_collector(a, a.ports@[p.0 as int].node->0, want)
}

/// The port that takes the place of end port `p` when an edge is reversed:
/// if ports are adapted and `p` is marked `flag`, the first port of its
/// node marked `want`, or else a new port at position `fresh`; otherwise
/// `p` itself.
pub open spec fn redirected(a: &LGraphArena, p: LPortId, adapt: bool, flag: Seq<char>, want: Seq<char>, fresh: int) -> LPortId {
    if adapt && collects(a, p, flag) {
        let n = a.ports@[p.0 as int].node->0;
        if has_collector(a, n, want) {
            a.nodes@[n.0 as int].ports@[first_collector(a, n, want)]
        } else {
            LPortId(fresh as usize)
        }
    } else {
        p
    }
}

/// The other of the two collector port types.
pub open spec fn other_type(t: PortType) -> PortType {
    if t == PortType::OUTPUT {
        PortType::INPUT
    } else {
        PortType::OUTPUT
    }
}

/// `b` and `a` have the same nodes (with the same port lists) and the same
/// port owners, sides and properties.
pub open spec fn same_port_marks(a: &LGraphArena, b: &LGraphArena) -> bool {
    &&& b.nodes@ == a.nodes@
    &&& b.ports@.len() == a.ports@.len()
    &&& forall|p: int| 0 <= p < a.ports@.len() ==> {
        &&& (#[trigger] b.ports@[p]).node == a.ports@[p].node
        &&& b.ports@[p].side == a.ports@[p].side
        &&& b.ports@[p].properties == a.ports@[p].properties
    }
}

proof fn lemma_marks_collectors(a: &LGraphArena, b: &LGraphArena, node: LNodeId, id: Seq<char>)
    requires
        arena_wf(a),
        same_port_marks(a, b),
        node.0 < a.nodes@.len(),
    ensures
        has_collector(b, node, id) == has_collector(a, node, id),
        has_collector(a, node, id) ==> first_collector(b, node, id) == first_collector(a, node, id),
{
    assert forall|i: int| #[trigger] collector_at(b, node, id, i) == collector_at(a, node, id, i) by {
        if 0 <= i < a.nodes@[node.0 as int].ports@.len() {
            let p = a.nodes@[node.0 as int].ports@[i];
            assert(p.0 < a.ports@.len());
            assert(b.ports@[p.0 as int].properties == a.ports@[p.0 as int].properties);
        }
    }
    if has_collector(a, node, id) {
        let i = choose|i: int| #[trigger] collector_at(a, node, id, i);
        lemma_first_collector_exists(a, node, id, i);
        let f = first_collector(a, node, id);
        assert(is_first_collector(b, node, id, f));
        lemma_first_collector(b, node, id, f);
    }
    if has_collector(b, node, id) {
        let i = choose|i: int| #[trigger] collector_at(b, node, id, i);
        assert(collector_at(a, node, id, i));
    }
}

/// The collector that replaces end port `p` (see `redirected`), made if
/// needed; else `p`.
fn collector_or_self(a: &mut LGraphArena, graph: LGraphId, p: LPortId, adapt: bool, port_type: PortType, side: PortSide) -> (r: LPortId)
    requires
        arena_wf(old(a)),
        p.0 < old(a).ports@.len(),
        port_type != PortType::UNDEFINED,
        adapt && collects(old(a), p, collector_id(other_type(port_type))) ==> old(a).ports@[p.0 as int].node is Some,
    ensures
        arena_wf(final(a)),
        r == redirected(old(a), p, adapt, collector_id(other_type(port_type)), collector_id(port_type), old(a).ports@.len() as int),
        makes_collector(old(a), p, adapt, collector_id(other_type(port_type)), collector_id(port_type)) ==> collector_added(
            old(a),
            final(a),
            old(a).ports@[p.0 as int].node->0,
            collector_id(port_type),
            side,
        ),
        !makes_collector(old(a), p, adapt, collector_id(other_type(port_type)), collector_id(port_type)) ==> {
            &&& final(a).graphs@ == old(a).graphs@
            &&& final(a).nodes@ == old(a).nodes@
            &&& final(a).ports@ == old(a).ports@
            &&& final(a).edges@ == old(a).edges@
            &&& final(a).labels@ == old(a).labels@
        },
{
    let flag = if port_type == PortType::OUTPUT {
        input_collect()
    } else {
        output_collect()
    };
    proof {
        lemma_collector_ids_differ();
    }
    if adapt && a.ports[p.0].properties.get(&flag) {
        let node = a.ports[p.0].node.unwrap();
        provide_collector_port(a, graph, node, port_type, side)
    } else {
        p
    }
}

/// What reversing the ends of edge `e` does, from `a` to `b` (see
/// `edge_reverse`): the ends swap (or move to collector ports, which are
/// made as needed), and the edge leaves and joins the edge lists of its
/// ports accordingly.
pub open spec fn ends_reversed(a: &LGraphArena, b: &LGraphArena, e: LEdgeId, adapt: bool) -> bool {
    let s = a.edges@[e.0 as int].source->0;
    let t = a.edges@[e.0 as int].target->0;
    let l = a.ports@.len() as int;
    let ms = makes_collector(a, t, adapt, input_collect_id(), output_collect_id());
    let ns = redirected(a, t, adapt, input_collect_id(), output_collect_id(), l);
    let mt = makes_collector(a, s, adapt, output_collect_id(), input_collect_id());
    let lt = if ms { l + 1 } else { l };
    let nt = redirected(a, s, adapt, output_collect_id(), input_collect_id(), lt);
    let count = if mt { lt + 1 } else { lt };
    &&& b.graphs@ == a.graphs@
    &&& b.edges@.len() == a.edges@.len()
    &&& forall|f: int| 0 <= f < a.edges@.len() && f != e.0 ==> #[trigger] b.edges@[f] == a.edges@[f]
    &&& b.edges@[e.0 as int].source == Some(ns)
    &&& b.edges@[e.0 as int].target == Some(nt)
    &&& b.edges@[e.0 as int].labels == a.edges@[e.0 as int].labels
    &&& b.ports@.len() == count
    &&& forall|p: int| 0 <= p < l ==> {
        &&& (#[trigger] b.ports@[p]).node == a.ports@[p].node
        &&& b.ports@[p].side == a.ports@[p].side
        &&& b.ports@[p].properties == a.ports@[p].properties
        &&& b.ports@[p].outgoing_edges@ == moved_edge_list(a.ports@[p].outgoing_edges@, LPortId(p as usize), e, Some(s), Some(ns))
        &&& b.ports@[p].incoming_edges@ == moved_edge_list(a.ports@[p].incoming_edges@, LPortId(p as usize), e, Some(t), Some(nt))
    }
    &&& ms ==> {
        &&& b.ports@[l].node == a.ports@[t.0 as int].node
        &&& b.ports@[l].side == PortSide::EAST
        &&& b.ports@[l].properties@ == seq![(output_collect_id(), StoredValue::Bool(true))]
        &&& b.ports@[l].outgoing_edges@ == seq![e]
        &&& b.ports@[l].incoming_edges@.len() == 0
    }
    &&& mt ==> {
        &&& b.ports@[lt].node == a.ports@[s.0 as int].node
        &&& b.ports@[lt].side == PortSide::WEST
        &&& b.ports@[lt].properties@ == seq![(input_collect_id(), StoredValue::Bool(true))]
        &&& b.ports@[lt].incoming_edges@ == seq![e]
        &&& b.ports@[lt].outgoing_edges@.len() == 0
    }
    &&& b.nodes@.len() == a.nodes@.len()
    &&& forall|n: int| 0 <= n < a.nodes@.len() ==> {
        &&& (#[trigger] b.nodes@[n]).id == a.nodes@[n].id
        &&& b.nodes@[n].node_type == a.nodes@[n].node_type
        &&& b.nodes@[n].graph == a.nodes@[n].graph
        &&& b.nodes@[n].nested_graph == a.nodes@[n].nested_graph
        &&& b.nodes@[n].properties == a.nodes@[n].properties
        &&& b.nodes@[n].ports@ == {
            let with_source = if ms && a.ports@[t.0 as int].node == Some(LNodeId(n as usize)) {
                a.nodes@[n].ports@.push(LPortId(l as usize))
            } else {
                a.nodes@[n].ports@
            };
            if mt && a.ports@[s.0 as int].node == Some(LNodeId(n as usize)) {
                with_source.push(LPortId(lt as usize))
            } else {
                with_source
            }
        }
    }
}

/// The edge's ends can be reversed: both are set, and where ports are
/// adapted and an end is a collector, that end belongs to a node.
pub open spec fn reversible(a: &LGraphArena, e: LEdgeId, adapt: bool) -> bool {
    &&& e.0 < a.edges@.len()
    &&& a.edges@[e.0 as int].source is Some
    &&& a.edges@[e.0 as int].target is Some
    &&& adapt && collects(a, a.edges@[e.0 as int].target->0, input_collect_id()) ==> a.ports@[(a.edges@[e.0 as int].target->0).0 as int].node is Some
    &&& adapt && collects(a, a.edges@[e.0 as int].source->0, output_collect_id()) ==> a.ports@[(a.edges@[e.0 as int].source->0).0 as int].node is Some
}

/// Detaching both ends of an edge.
proof fn lemma_detached(a0: &LGraphArena, a1: &LGraphArena, a2: &LGraphArena, e: LEdgeId)
    requires
        arena_wf(a0),
        e.0 < a0.edges@.len(),
        source_set(a0, a1, e, None),
        target_set(a1, a2, e, None),
    ensures
        same_port_marks(a0, a2),
        a2.edges@[e.0 as int].labels == a0.edges@[e.0 as int].labels,
        a2.edges@[e.0 as int].properties == a0.edges@[e.0 as int].properties,
        a2.edges@[e.0 as int].source is None,
        a2.edges@[e.0 as int].target is None,
        a2.edges@.len() == a0.edges@.len(),
        forall|f: int| 0 <= f < a0.edges@.len() && f != e.0 ==> #[trigger] a2.edges@[f] == a0.edges@[f],
        a2.graphs@ == a0.graphs@,
        a2.labels@ == a0.labels@,
        forall|p: int| 0 <= p < a0.ports@.len() ==> {
            &&& (#[trigger] a2.ports@[p]).outgoing_edges@ == moved_edge_list(
                a0.ports@[p].outgoing_edges@,
                LPortId(p as usize),
                e,
                a0.edges@[e.0 as int].source,
                None,
            )
            &&& a2.ports@[p].incoming_edges@ == moved_edge_list(
                a0.ports@[p].incoming_edges@,
                LPortId(p as usize),
                e,
                a0.edges@[e.0 as int].target,
                None,
            )
        },
{
    assert forall|p: int| 0 <= p < a0.ports@.len() implies {
        &&& (#[trigger] a2.ports@[p]).node == a0.ports@[p].node
        &&& a2.ports@[p].side == a0.ports@[p].side
        &&& a2.ports@[p].properties == a0.ports@[p].properties
    } by {
        assert(a1.ports@[p].node == a0.ports@[p].node);
    }
    assert forall|f: int| 0 <= f < a0.edges@.len() && f != e.0 implies #[trigger] a2.edges@[f] == a0.edges@[f] by {
        assert(a1.edges@[f] == a0.edges@[f]);
    }
    assert forall|p: int| 0 <= p < a0.ports@.len() implies {
        &&& (#[trigger] a2.ports@[p]).outgoing_edges@ == moved_edge_list(
            a0.ports@[p].outgoing_edges@,
            LPortId(p as usize),
            e,
            a0.edges@[e.0 as int].source,
            None,
        )
        &&& a2.ports@[p].incoming_edges@ == moved_edge_list(
            a0.ports@[p].incoming_edges@,
            LPortId(p as usize),
            e,
            a0.edges@[e.0 as int].target,
            None,
        )
    } by {
        assert(a1.ports@[p].incoming_edges == a0.ports@[p].incoming_edges);
        assert(a2.ports@[p].outgoing_edges == a1.ports@[p].outgoing_edges);
    }
}

/// Composing the steps of `reverse_ends`.
#[verifier::spinoff_prover]
#[verifier::rlimit(60)]
proof fn lemma_reattached(
    a0: &LGraphArena,
    a1: &LGraphArena,
    a2: &LGraphArena,
    a3: &LGraphArena,
    a4: &LGraphArena,
    a5: &LGraphArena,
    a6: &LGraphArena,
    e: LEdgeId,
    adapt: bool,
    ns: LPortId,
    nt: LPortId,
)
    requires
        arena_wf(a0),
        arena_wf(a2),
        arena_wf(a3),
        arena_wf(a4),
        reversible(a0, e, adapt),
        source_set(a0, a1, e, None),
        target_set(a1, a2, e, None),
        ns == redirected(a2, a0.edges@[e.0 as int].target->0, adapt, input_collect_id(), output_collect_id(), a2.ports@.len() as int),
        makes_collector(a2, a0.edges@[e.0 as int].target->0, adapt, input_collect_id(), output_collect_id()) ==> collector_added(
            a2,
            a3,
            a2.ports@[(a0.edges@[e.0 as int].target->0).0 as int].node->0,
            output_collect_id(),
            PortSide::EAST,
        ),
        !makes_collector(a2, a0.edges@[e.0 as int].target->0, adapt, input_collect_id(), output_collect_id()) ==> {
            &&& a3.graphs@ == a2.graphs@
            &&& a3.nodes@ == a2.nodes@
            &&& a3.ports@ == a2.ports@
            &&& a3.edges@ == a2.edges@
            &&& a3.labels@ == a2.labels@
        },
        source_set(a3, a4, e, Some(ns)),
        nt == redirected(a4, a0.edges@[e.0 as int].source->0, adapt, output_collect_id(), input_collect_id(), a4.ports@.len() as int),
        makes_collector(a4, a0.edges@[e.0 as int].source->0, adapt, output_collect_id(), input_collect_id()) ==> collector_added(
            a4,
            a5,
            a4.ports@[(a0.edges@[e.0 as int].source->0).0 as int].node->0,
            input_collect_id(),
            PortSide::WEST,
        ),
        !makes_collector(a4, a0.edges@[e.0 as int].source->0, adapt, output_collect_id(), input_collect_id()) ==> {
            &&& a5.graphs@ == a4.graphs@
            &&& a5.nodes@ == a4.nodes@
            &&& a5.ports@ == a4.ports@
            &&& a5.edges@ == a4.edges@
            &&& a5.labels@ == a4.labels@
        },
        target_set(a5, a6, e, Some(nt)),
    ensures
        ends_reversed(a0, a6, e, adapt),
        a6.labels@ == a0.labels@,
        a6.edges@[e.0 as int].properties == a0.edges@[e.0 as int].properties,
{
    let s = a0.edges@[e.0 as int].source->0;
    let t = a0.edges@[e.0 as int].target->0;
    let l = a0.ports@.len() as int;
    let ins = input_collect_id();
    let outs = output_collect_id();
    lemma_collector_ids_differ();
    lemma_detached(a0, a1, a2, e);
    assert(s.0 < a0.ports@.len());
    assert(t.0 < a0.ports@.len());
    let ms = makes_collector(a0, t, adapt, ins, outs);
    let lt = if ms { l + 1 } else { l };
    // the source end
    assert(collects(a2, t, ins) == collects(a0, t, ins));
    if adapt && collects(a0, t, ins) {
        let nd = a0.ports@[t.0 as int].node->0;
        assert(nd.0 < a0.nodes@.len());
        lemma_marks_collectors(a0, a2, nd, outs);
        if has_collector(a0, nd, outs) {
            let i = choose|i: int| #[trigger] collector_at(a0, nd, outs, i);
            lemma_first_collector_exists(a0, nd, outs, i);
        }
    }
    assert(ns == redirected(a0, t, adapt, ins, outs, l));
    assert(makes_collector(a2, t, adapt, ins, outs) == ms);
    assert(ns.0 < l || (ms && ns.0 == l)) by {
        if adapt && collects(a0, t, ins) {
            let nd = a0.ports@[t.0 as int].node->0;
            if has_collector(a0, nd, outs) {
                let f = first_collector(a0, nd, outs);
                assert(is_first_collector(a0, nd, outs, f));
                assert(a0.nodes@[nd.0 as int].ports@[f].0 < a0.ports@.len());
            }
        }
    }
    // the state before the target end is redirected
    assert(a4.ports@.len() == lt);
    assert(same_port_marks(a3, a4)) by {
        assert forall|p: int| 0 <= p < a3.ports@.len() implies {
            &&& (#[trigger] a4.ports@[p]).node == a3.ports@[p].node
            &&& a4.ports@[p].side == a3.ports@[p].side
            &&& a4.ports@[p].properties == a3.ports@[p].properties
        } by {}
    }
    assert forall|p: int| 0 <= p < l implies #[trigger] a3.ports@[p] == a2.ports@[p] by {
        if ms {
            assert(a3.ports@.drop_last()[p] == a3.ports@[p]);
        }
    }
    assert(collects(a4, s, outs) == collects(a0, s, outs)) by {
        assert(a3.ports@[s.0 as int] == a2.ports@[s.0 as int]);
    }
    assert(a4.ports@[s.0 as int].node == a0.ports@[s.0 as int].node) by {
        assert(a3.ports@[s.0 as int] == a2.ports@[s.0 as int]);
    }
    if adapt && collects(a0, s, outs) {
        let nd = a0.ports@[s.0 as int].node->0;
        assert(nd.0 < a0.nodes@.len());
        lemma_marks_collectors(a0, a2, nd, ins);
        lemma_marks_collectors(a3, a4, nd, ins);
        if ms {
            lemma_collector_kept(a2, a3, a2.ports@[t.0 as int].node->0, outs, PortSide::EAST, nd, ins);
        } else {
            assert(same_port_marks(a2, a3));
            lemma_marks_collectors(a2, a3, nd, ins);
        }
        if has_collector(a0, nd, ins) {
            let i = choose|i: int| #[trigger] collector_at(a0, nd, ins, i);
            lemma_first_collector_exists(a0, nd, ins, i);
            let f = first_collector(a0, nd, ins);
            assert(a0.nodes@[nd.0 as int].ports@[f].0 < a0.ports@.len());
            assert(a4.nodes@ == a3.nodes@);
        }
    }
    let mt = makes_collector(a0, s, adapt, outs, ins);
    assert(nt == redirected(a0, s, adapt, outs, ins, lt));
    assert(makes_collector(a4, s, adapt, outs, ins) == mt);
    assert(nt.0 < l || (mt && nt.0 == lt)) by {
        if mt {
            assert(a5.ports@.len() == lt + 1);
            assert(lt < a5.ports.len());
        }
        if adapt && collects(a0, s, outs) {
            let nd = a0.ports@[s.0 as int].node->0;
            if has_collector(a0, nd, ins) {
                let f = first_collector(a0, nd, ins);
                assert(is_first_collector(a0, nd, ins, f));
                assert(a0.nodes@[nd.0 as int].ports@[f].0 < a0.ports@.len());
            }
        }
    }
    // edges
    assert(a3.edges@ == a2.edges@);
    assert(a3.labels@ == a2.labels@);
    assert(a5.labels@ == a4.labels@);
    assert(a5.edges@ == a4.edges@);
    assert forall|f: int| 0 <= f < a0.edges@.len() && f != e.0 implies #[trigger] a6.edges@[f] == a0.edges@[f] by {
        assert(a4.edges@[f] == a3.edges@[f]);
        assert(a6.edges@[f] == a5.edges@[f]);
    }
    // ports
    assert forall|p: int| 0 <= p < a4.ports@.len() implies #[trigger] a5.ports@[p] == a4.ports@[p] by {
        if mt {
            assert(a5.ports@.drop_last()[p] == a5.ports@[p]);
        }
    }
    assert forall|p: int| 0 <= p < l implies {
        &&& (#[trigger] a6.ports@[p]).node == a0.ports@[p].node
        &&& a6.ports@[p].side == a0.ports@[p].side
        &&& a6.ports@[p].properties == a0.ports@[p].properties
        &&& a6.ports@[p].outgoing_edges@ == moved_edge_list(a0.ports@[p].outgoing_edges@, LPortId(p as usize), e, Some(s), Some(ns))
        &&& a6.ports@[p].incoming_edges@ == moved_edge_list(a0.ports@[p].incoming_edges@, LPortId(p as usize), e, Some(t), Some(nt))
    } by {
        assert(a3.ports@[p] == a2.ports@[p]);
        assert(a5.ports@[p] == a4.ports@[p]);
    }
    if ms {
        assert(a3.ports@[l].outgoing_edges@.len() == 0);
        assert(a4.ports@[l].outgoing_edges@ =~= seq![e]);
        assert(a5.ports@[l] == a4.ports@[l]);
        assert(a6.ports@[l].outgoing_edges == a5.ports@[l].outgoing_edges);
        assert(a6.ports@[l].node == a5.ports@[l].node);
        assert(a6.ports@[l].properties == a5.ports@[l].properties);
        assert(a6.ports@[l].side == a5.ports@[l].side);
        assert(nt.0 != l);
        assert(l < a6.ports.len());
        assert(nt != LPortId(l as usize));
        assert(a6.ports@[l].incoming_edges@ == a5.ports@[l].incoming_edges@);

    }
    if mt {
        assert(a5.ports@[lt].incoming_edges@.len() == 0);
        assert(a6.ports@[lt].incoming_edges@ =~= seq![e]);
        assert(a6.ports@[lt].outgoing_edges@ == a5.ports@[lt].outgoing_edges@);
    }
    // nodes
    assert forall|n: int| 0 <= n < a0.nodes@.len() implies (#[trigger] a6.nodes@[n]).ports@ == {
        let with_source = if ms && a0.ports@[t.0 as int].node == Some(LNodeId(n as usize)) {
            a0.nodes@[n].ports@.push(LPortId(l as usize))
        } else {
            a0.nodes@[n].ports@
        };
        if mt && a0.ports@[s.0 as int].node == Some(LNodeId(n as usize)) {
            with_source.push(LPortId(lt as usize))
        } else {
            with_source
        }
    } by {
        assert(n < a0.nodes.len());
        assert(LNodeId(n as usize).0 == n);
        assert(a4.nodes@ == a3.nodes@);
        assert(a6.nodes@ == a5.nodes@);
    }
}

proof fn lemma_redirected_in_range(a: &LGraphArena, p: LPortId, adapt: bool, flag: Seq<char>, want: Seq<char>, fresh: int)
    requires
        arena_wf(a),
        p.0 < a.ports@.len(),
        adapt && collects(a, p, flag) ==> a.ports@[p.0 as int].node is Some,
    ensures
        redirected(a, p, adapt, flag, want, fresh).0 < a.ports@.len() || (makes_collector(a, p, adapt, flag, want)
            && redirected(a, p, adapt, flag, want, fresh) == LPortId(fresh as usize)),
{
    if adapt && collects(a, p, flag) {
        let nd = a.ports@[p.0 as int].node->0;
        if has_collector(a, nd, want) {
            let i = choose|i: int| #[trigger] collector_at(a, nd, want, i);
            lemma_first_collector_exists(a, nd, want, i);
            let f = first_collector(a, nd, want);
            assert(a.nodes@[nd.0 as int].ports@[f].0 < a.ports@.len());
        }
    }
}

/// Reverses the ends of an edge (the structural part of `edge_reverse`):
/// see `ends_reversed`.
fn reverse_ends(a: &mut LGraphArena, graph: LGraphId, e: LEdgeId, adapt: bool)
    requires
        arena_wf(old(a)),
        reversible(old(a), e, adapt),
    ensures
        arena_wf(final(a)),
        ends_reversed(old(a), final(a), e, adapt),
        final(a).labels@ == old(a).labels@,
        final(a).edges@[e.0 as int].properties == old(a).edges@[e.0 as int].properties,
{
    let ghost a0 = *a;
    let s = a.edges[e.0].source.unwrap();
    let t = a.edges[e.0].target.unwrap();
    a.set_edge_source(e, None);
    let ghost a1 = *a;
    a.set_edge_target(e, None);
    let ghost a2 = *a;
    proof {
        lemma_detached(&a0, &a1, &a2, e);
        assert(a2.ports@[t.0 as int].properties == a0.ports@[t.0 as int].properties);
        assert(a2.ports@[s.0 as int].properties == a0.ports@[s.0 as int].properties);
        lemma_redirected_in_range(&a2, t, adapt, input_collect_id(), output_collect_id(), a2.ports@.len() as int);
    }
    let ns = collector_or_self(a, graph, t, adapt, PortType::OUTPUT, PortSide::EAST);
    let ghost a3 = *a;
    proof {
        if makes_collector(&a2, t, adapt, input_collect_id(), output_collect_id()) {
            assert(a3.ports@.len() == a2.ports@.len() + 1);
            assert(a2.ports@.len() < a3.ports.len());
        }
    }
    a.set_edge_source(e, Some(ns));
    let ghost a4 = *a;
    proof {
        assert(a4.ports@[s.0 as int].properties == a3.ports@[s.0 as int].properties);
        assert(a4.ports@[s.0 as int].node == a3.ports@[s.0 as int].node);
        if makes_collector(&a2, t, adapt, input_collect_id(), output_collect_id()) {
            assert(a3.ports@.drop_last()[s.0 as int] == a3.ports@[s.0 as int]);
        }
        lemma_redirected_in_range(&a4, s, adapt, output_collect_id(), input_collect_id(), a4.ports@.len() as int);
    }
    let nt = collector_or_self(a, graph, s, adapt, PortType::INPUT, PortSide::WEST);
    let ghost a5 = *a;
    proof {
        if makes_collector(&a4, s, adapt, output_collect_id(), input_collect_id()) {
            assert(a5.ports@.len() == a4.ports@.len() + 1);
            assert(a4.ports@.len() < a5.ports.len());
        }
    }
    a.set_edge_target(e, Some(nt));
    proof {
        lemma_reattached(&a0, &a1, &a2, &a3, &a4, &a5, a, e, adapt, ns, nt);
    }
}

/// Label properties with a tail placement turned to head and vice versa.
pub open spec fn swapped_placement(p: Seq<(Seq<char>, StoredValue)>) -> Seq<(Seq<char>, StoredValue)> {
    match read::<EdgeLabelPlacement>(p, edge_labels_placement_id()) {
        Some(EdgeLabelPlacement::TAIL) => put(p, edge_labels_placement_id(), EdgeLabelPlacement::HEAD.stored_spec()),
        Some(EdgeLabelPlacement::HEAD) => put(p, edge_labels_placement_id(), EdgeLabelPlacement::TAIL.stored_spec()),
        _ => p,
    }
}

/// `swapped_placement` applied `k` times.
pub open spec fn swapped_times(p: Seq<(Seq<char>, StoredValue)>, k: nat) -> Seq<(Seq<char>, StoredValue)>
    decreases k,
{
    if k == 0 {
        p
    } else {
        swapped_placement(swapped_times(p, (k - 1) as nat))
    }
}

/// How often `x` occurs in `s`.
pub open spec fn occurrences(s: Seq<LLabelId>, x: LLabelId) -> nat
    decreases s.len(),
{
    if s.len() == 0 {
        0
    } else {
        occurrences(s.drop_last(), x) + if s.last() == x {
            1nat
        } else {
            0nat
        }
    }
}

/// Turns the placement of each label of edge `e` from tail to head and
/// vice versa (a label listed twice is turned twice).
fn swap_label_placements(a: &mut LGraphArena, e: LEdgeId)
    requires
        arena_wf(old(a)),
        e.0 < old(a).edges@.len(),
    ensures
        arena_wf(final(a)),
        final(a).graphs@ == old(a).graphs@,
        final(a).nodes@ == old(a).nodes@,
        final(a).ports@ == old(a).ports@,
        final(a).edges@ == old(a).edges@,
        final(a).labels@.len() == old(a).labels@.len(),
        forall|m: int| 0 <= m < old(a).labels@.len() ==> (#[trigger] final(a).labels@[m]).properties@ == swapped_times(
            old(a).labels@[m].properties@,
            occurrences(old(a).edges@[e.0 as int].labels@, LLabelId(m as usize)),
        ),
{
    let ghost a0 = *a;
    let ghost labs = a0.edges@[e.0 as int].labels@;
    let n = a.edges[e.0].labels.len();
    let mut j: usize = 0;
    while j < n
        invariant
            arena_wf(a),
            e.0 < a.edges@.len(),
            labs == a0.edges@[e.0 as int].labels@,
            n == labs.len(),
            j <= n,
            a.graphs@ == a0.graphs@,
            a.nodes@ == a0.nodes@,
            a.ports@ == a0.ports@,
            a.edges@ == a0.edges@,
            a.labels@.len() == a0.labels@.len(),
            forall|m: int| 0 <= m < a0.labels@.len() ==> (#[trigger] a.labels@[m]).properties@ == swapped_times(
                a0.labels@[m].properties@,
                occurrences(labs.take(j as int), LLabelId(m as usize)),
            ),
        decreases n - j,
    {
        let l = a.edges[e.0].labels[j];
        let ghost before = *a;
        let placement = a.labels[l.0].properties.get(&edge_labels_placement());
        match placement {
            EdgeLabelPlacement::TAIL => {
                a.set_label_property(l, &edge_labels_placement(), EdgeLabelPlacement::HEAD);
            },
            EdgeLabelPlacement::HEAD => {
                a.set_label_property(l, &edge_labels_placement(), EdgeLabelPlacement::TAIL);
            },
            _ => {},
        }
        proof {
            let t = labs.take(j as int + 1);
            assert(t.drop_last() =~= labs.take(j as int));
            assert(t.last() == l);
            assert forall|m: int| 0 <= m < a0.labels@.len() implies (#[trigger] a.labels@[m]).properties@ == swapped_times(
                a0.labels@[m].properties@,
                occurrences(t, LLabelId(m as usize)),
            ) by {
                assert(m < a0.labels.len());
                assert(LLabelId(m as usize).0 == m);
                if m == l.0 {
                    assert(before.labels@[m].properties@ == swapped_times(a0.labels@[m].properties@, occurrences(labs.take(j as int), LLabelId(m as usize))));
                } else {
                    assert(a.labels@[m] == before.labels@[m]);
                }
            }
        }
        j = j + 1;
    }
    proof {
        assert(labs.take(n as int) =~= labs);
    }
}

/// What `edge_reverse` does: see `ends_reversed` for the ends; the edge's
/// `reversed` flag flips and its labels' placements swap.
pub open spec fn edge_reversed(a: &LGraphArena, b: &LGraphArena, e: LEdgeId, adapt: bool) -> bool {
    &&& ends_reversed(a, b, e, adapt)
    &&& b.edges@[e.0 as int].properties@ == put(
        a.edges@[e.0 as int].properties@,
        reversed_id(),
        StoredValue::Bool(read::<bool>(a.edges@[e.0 as int].properties@, reversed_id()) != Some(true)),
    )
    &&& b.labels@.len() == a.labels@.len()
    &&& forall|m: int| 0 <= m < a.labels@.len() ==> (#[trigger] b.labels@[m]).properties@ == swapped_times(
        a.labels@[m].properties@,
        occurrences(a.edges@[e.0 as int].labels@, LLabelId(m as usize)),
    )
}

/// Reverses an edge: its source and target swap. When
/// `adapt_ports` is set, an end at a port collecting incoming (outgoing)
/// edges moves instead to the node's port collecting outgoing (incoming)
/// edges, made if needed (see `ends_reversed`). The placements of the
/// edge's labels turn from tail to head and vice versa, and the edge's
/// `reversed` flag flips. The bend points are reversed by the geometric
/// pass.
pub fn edge_reverse(a: &mut LGraphArena, graph: LGraphId, edge: LEdgeId, adapt_ports: bool)
    requires
        arena_wf(old(a)),
        reversible(old(a), edge, adapt_ports),
    ensures
        arena_wf(final(a)),
        edge_reversed(old(a), final(a), edge, adapt_ports),
{
    let ghost a0 = *a;
    reverse_ends(a, graph, edge, adapt_ports);
    let ghost a1 = *a;
    swap_label_placements(a, edge);
    let was_reversed = a.edges[edge.0].properties.get(&reversed());
    a.set_edge_property(edge, &reversed(), !was_reversed);
    proof {
        assert forall|f: int| 0 <= f < a0.edges@.len() && f != edge.0 implies #[trigger] a.edges@[f] == a0.edges@[f] by {
            assert(a1.edges@[f] == a0.edges@[f]);
        }
    }
}

proof fn lemma_swapped_add(p: Seq<(Seq<char>, StoredValue)>, c1: nat, c2: nat)
    ensures
        swapped_times(swapped_times(p, c1), c2) == swapped_times(p, c1 + c2),
    decreases c2,
{
    if c2 > 0 {
        lemma_swapped_add(p, c1, (c2 - 1) as nat);
        assert((c1 + c2 - 1) as nat == c1 + (c2 - 1) as nat);
    }
}

/// Swapping twice gives back the placement, and keeps the keys unique.
proof fn lemma_swapped_twice(p: Seq<(Seq<char>, StoredValue)>)
    requires
        keys_unique(p),
    ensures
        keys_unique(swapped_placement(p)),
        read::<EdgeLabelPlacement>(swapped_placement(swapped_placement(p)), edge_labels_placement_id())
            == read::<EdgeLabelPlacement>(p, edge_labels_placement_id()),
{
    let id = edge_labels_placement_id();
    let other = id.push('x');
    assert(other != id) by {
        assert(other.len() != id.len());
    }
    match read::<EdgeLabelPlacement>(p, id) {
        Some(EdgeLabelPlacement::TAIL) => {
            lemma_put(p, id, EdgeLabelPlacement::HEAD.stored_spec());
            lemma_read_after_write(p, id, EdgeLabelPlacement::HEAD, other);
            let q = swapped_placement(p);
            lemma_read_after_write(q, id, EdgeLabelPlacement::TAIL, other);
        },
        Some(EdgeLabelPlacement::HEAD) => {
            lemma_put(p, id, EdgeLabelPlacement::TAIL.stored_spec());
            lemma_read_after_write(p, id, EdgeLabelPlacement::TAIL, other);
            let q = swapped_placement(p);
            lemma_read_after_write(q, id, EdgeLabelPlacement::HEAD, other);
        },
        _ => {},
    }
}

proof fn lemma_swapped_even(p: Seq<(Seq<char>, StoredValue)>, c: nat)
    requires
        keys_unique(p),
    ensures
        keys_unique(swapped_times(p, c)),
        read::<EdgeLabelPlacement>(swapped_times(p, 2 * c), edge_labels_placement_id())
            == read::<EdgeLabelPlacement>(p, edge_labels_placement_id()),
    decreases c,
{
    if c > 0 {
        lemma_swapped_even(p, (c - 1) as nat);
        let q = swapped_times(p, (2 * (c - 1)) as nat);
        assert(keys_unique(q)) by {
            lemma_swapped_keys(p, (2 * (c - 1)) as nat);
        }
        lemma_swapped_twice(q);
        let k1 = (2 * c - 1) as nat;
        assert(k1 == (2 * (c - 1) + 1) as nat);
        assert(swapped_times(p, k1) == swapped_placement(q));
        assert(swapped_times(p, 2 * c) == swapped_placement(swapped_times(p, k1)));
        lemma_swapped_keys(p, c);
    }
}

proof fn lemma_swapped_keys(p: Seq<(Seq<char>, StoredValue)>, c: nat)
    requires
        keys_unique(p),
    ensures
        keys_unique(swapped_times(p, c)),
    decreases c,
{
    if c > 0 {
        lemma_swapped_keys(p, (c - 1) as nat);
        lemma_swapped_twice(swapped_times(p, (c - 1) as nat));
    }
}

/// Reversing an edge twice without adapting ports (two calls of
/// `edge_reverse` with `adapt_ports` false, each giving `edge_reversed`)
/// gives back its ends, the value its `reversed` flag reads as (unset reads
/// as false), and the placements of all labels, and makes no port. The
/// requirements on unique keys hold of every property map
/// (`PropertyMap::keys_are_unique`).
pub proof fn lemma_reverse_twice(a0: &LGraphArena, a1: &LGraphArena, a2: &LGraphArena, e: LEdgeId)
    requires
        reversible(a0, e, false),
        edge_reversed(a0, a1, e, false),
        edge_reversed(a1, a2, e, false),
        keys_unique(a0.edges@[e.0 as int].properties@),
        forall|m: int| 0 <= m < a0.labels@.len() ==> keys_unique(#[trigger] a0.labels@[m].properties@),
    ensures
        a2.edges@[e.0 as int].source == a0.edges@[e.0 as int].source,
        a2.edges@[e.0 as int].target == a0.edges@[e.0 as int].target,
        read::<bool>(a2.edges@[e.0 as int].properties@, reversed_id()) == Some(
            read::<bool>(a0.edges@[e.0 as int].properties@, reversed_id()) == Some(true),
        ),
        (read::<bool>(a2.edges@[e.0 as int].properties@, reversed_id()) == Some(true)) == (read::<bool>(
            a0.edges@[e.0 as int].properties@,
            reversed_id(),
        ) == Some(true)),
        a2.ports@.len() == a0.ports@.len(),
        a2.labels@.len() == a0.labels@.len(),
        forall|m: int| 0 <= m < a0.labels@.len() ==> read::<EdgeLabelPlacement>(
            (#[trigger] a2.labels@[m]).properties@,
            edge_labels_placement_id(),
        ) == read::<EdgeLabelPlacement>(a0.labels@[m].properties@, edge_labels_placement_id()),
{
    let p0 = a0.edges@[e.0 as int].properties@;
    let w0 = read::<bool>(p0, reversed_id()) == Some(true);
    let other = reversed_id().push('x');
    assert(other != reversed_id()) by {
        assert(other.len() != reversed_id().len());
    }
    lemma_read_after_write(p0, reversed_id(), !w0, other);
    lemma_put(p0, reversed_id(), StoredValue::Bool(!w0));
    let p1 = a1.edges@[e.0 as int].properties@;
    lemma_read_after_write(p1, reversed_id(), w0, other);
    assert forall|m: int| 0 <= m < a0.labels@.len() implies read::<EdgeLabelPlacement>(
        (#[trigger] a2.labels@[m]).properties@,
        edge_labels_placement_id(),
    ) == read::<EdgeLabelPlacement>(a0.labels@[m].properties@, edge_labels_placement_id()) by {
        let c = occurrences(a0.edges@[e.0 as int].labels@, LLabelId(m as usize));
        assert(a1.labels@[m].properties@ == swapped_times(a0.labels@[m].properties@, c));
        assert(a1.edges@[e.0 as int].labels == a0.edges@[e.0 as int].labels);
        assert(a2.labels@[m].properties@ == swapped_times(a1.labels@[m].properties@, c));
        lemma_swapped_add(a0.labels@[m].properties@, c, c);
        assert(c + c == 2 * c);
        lemma_swapped_even(a0.labels@[m].properties@, c);
    }
}

/// The layout direction of a graph: its `direction` property, or, if
/// undefined, RIGHT for a graph at least as wide as high (aspect ratio of
/// at least one) and DOWN otherwise.
pub fn get_direction(a: &LGraphArena, graph: LGraphId, aspect_ratio_at_least_one: bool) -> (r: Direction)
    requires
        graph.0 < a.graphs@.len(),
    ensures
        r == match read::<Direction>(a.graphs@[graph.0 as int].properties@, direction_id()) {
            Some(d) if d != Direction::UNDEFINED => d,
            _ => if aspect_ratio_at_least_one {
                Direction::RIGHT
            } else {
                Direction::DOWN
            },
        },
{
    let d = a.graphs[graph.0].properties.get(&direction());
    if d == Direction::UNDEFINED {
        if aspect_ratio_at_least_one {
            Direction::RIGHT
        } else {
            Direction::DOWN
        }
    } else {
        d
    }
}

/// The side a port gets by default: facing the layout direction for an
/// output port, across the node from it otherwise.
pub open spec fn default_port_side(direction: Direction, port_type: PortType) -> PortSide {
    if port_type == PortType::OUTPUT {
        facing_side(direction)
    } else {
        rotate(facing_side(direction), 2)
    }
}

/// A port on `side` lies across the layout direction (a north/south port).
pub open spec fn across_direction(direction: Direction, side: PortSide) -> bool {
    (direction_is_horizontal(direction) && side_is_vertical(side)) || (direction_is_vertical(direction)
        && side_is_horizontal(side))
}

/// The port constraints stored in a property map, UNDEFINED if unset.
pub open spec fn constraints_of(p: Seq<(Seq<char>, StoredValue)>) -> PortConstraints {
    match read::<PortConstraints>(p, port_constraints_id()) {
        Some(c) => c,
        None => PortConstraints::UNDEFINED,
    }
}

/// The edges of `node` are to share collector ports: the graph merges edges
/// or the node is a hypernode, and the node's port sides are not fixed.
pub open spec fn shares_ports(a: &LGraphArena, graph: LGraphId, node: LNodeId) -> bool {
    let merge = read::<bool>(a.graphs@[graph.0 as int].properties@, merge_edges_id()) == Some(true);
    let hyper = read::<bool>(a.nodes@[node.0 as int].properties@, hypernode_id()) == Some(true);
    (merge || hyper) && !side_fixed(constraints_of(a.nodes@[node.0 as int].properties@))
}

/// The graph properties stored in a property map, none if unset.
pub open spec fn graph_properties_of(p: Seq<(Seq<char>, StoredValue)>) -> Set<GraphProperties> {
    match read::<EnumSet<GraphProperties>>(p, graph_properties_id()) {
        Some(s) => s@,
        None => Set::empty(),
    }
}

/// Records in the graph's properties that it has north/south ports.
fn mark_north_south_ports(a: &mut LGraphArena, graph: LGraphId)
    requires
        arena_wf(old(a)),
        graph.0 < old(a).graphs@.len(),
    ensures
        arena_wf(final(a)),
        final(a).graphs@.len() == old(a).graphs@.len(),
        forall|h: int| 0 <= h < old(a).graphs@.len() && h != graph.0 ==> #[trigger] final(a).graphs@[h] == old(a).graphs@[h],
        exists|s: EnumSet<GraphProperties>|
            s@ == graph_properties_of(old(a).graphs@[index_of(graph.0)].properties@).insert(GraphProperties::NORTH_SOUTH_PORTS)
                && #[trigger] put(old(a).graphs@[index_of(graph.0)].properties@, graph_properties_id(), s.stored_spec())
                == final(a).graphs@[index_of(graph.0)].properties@,
        final(a).graphs@[index_of(graph.0)].id == old(a).graphs@[index_of(graph.0)].id,
        final(a).graphs@[index_of(graph.0)].layerless_nodes == old(a).graphs@[index_of(graph.0)].layerless_nodes,
        final(a).nodes@ == old(a).nodes@,
        final(a).ports@ == old(a).ports@,
        final(a).edges@ == old(a).edges@,
        final(a).labels@ == old(a).labels@,
{
    let ghost a0 = *a;
    let mut props = a.graphs[graph.0].properties.get(&graph_properties());
    proof {
        assert(props@ == graph_properties_of(a0.graphs@[index_of(graph.0)].properties@));
    }
    props.add(GraphProperties::NORTH_SOUTH_PORTS);
    let ghost marked = props;
    a.set_graph_property(graph, &graph_properties(), props);
    proof {
        assert(put(a0.graphs@[index_of(graph.0)].properties@, graph_properties_id(), marked.stored_spec())
            == a.graphs@[index_of(graph.0)].properties@);
    }
}

/// Makes a port for an edge end at `node` that has none.
/// If the node's edges share collector ports, the collector of the port
/// type is provided (on the default side). Otherwise a new port is added to
/// the node, on `end_side` (the side computed from the end point by the
/// geometric pass) or else the default side, and a port across the layout
/// direction marks the graph as having north/south ports.
pub fn create_port(
    a: &mut LGraphArena,
    node: LNodeId,
    end_side: Option<PortSide>,
    port_type: PortType,
    graph: LGraphId,
    direction: Direction,
) -> (r: LPortId)
    requires
        arena_wf(old(a)),
        node.0 < old(a).nodes@.len(),
        graph.0 < old(a).graphs@.len(),
        shares_ports(old(a), graph, node) ==> port_type != PortType::UNDEFINED,
    ensures
        arena_wf(final(a)),
        shares_ports(old(a), graph, node) && has_collector(old(a), node, collector_id(port_type)) ==> {
            &&& r == old(a).nodes@[node.0 as int].ports@[first_collector(old(a), node, collector_id(port_type))]
            &&& final(a).graphs@ == old(a).graphs@
            &&& final(a).nodes@ == old(a).nodes@
            &&& final(a).ports@ == old(a).ports@
            &&& final(a).edges@ == old(a).edges@
            &&& final(a).labels@ == old(a).labels@
        },
        shares_ports(old(a), graph, node) && !has_collector(old(a), node, collector_id(port_type)) ==> {
            &&& r.0 == old(a).ports@.len()
            &&& collector_added(old(a), final(a), node, collector_id(port_type), default_port_side(direction, port_type))
        },
        !shares_ports(old(a), graph, node) ==> {
            let side = match end_side {
                Some(s) => s,
                None => default_port_side(direction, port_type),
            };
            &&& r.0 == old(a).ports@.len()
            &&& final(a).ports@.len() == old(a).ports@.len() + 1
            &&& final(a).ports@.drop_last() == old(a).ports@
            &&& final(a).ports@.last().node == Some(node)
            &&& final(a).ports@.last().side == side
            &&& final(a).ports@.last().incoming_edges@.len() == 0
            &&& final(a).ports@.last().outgoing_edges@.len() == 0
            &&& final(a).ports@.last().properties@.len() == 0
            &&& final(a).nodes@.len() == old(a).nodes@.len()
            &&& forall|n: int| 0 <= n < old(a).nodes@.len() ==> {
                &&& (#[trigger] final(a).nodes@[n]).id == old(a).nodes@[n].id
                &&& final(a).nodes@[n].node_type == old(a).nodes@[n].node_type
                &&& final(a).nodes@[n].graph == old(a).nodes@[n].graph
                &&& final(a).nodes@[n].nested_graph == old(a).nodes@[n].nested_graph
                &&& final(a).nodes@[n].properties == old(a).nodes@[n].properties
                &&& final(a).nodes@[n].ports@ == if n == node.0 {
                    old(a).nodes@[n].ports@.push(r)
                } else {
                    old(a).nodes@[n].ports@
                }
            }
            &&& final(a).edges@ == old(a).edges@
            &&& final(a).labels@ == old(a).labels@
            &&& final(a).graphs@.len() == old(a).graphs@.len()
            &&& forall|h: int| 0 <= h < old(a).graphs@.len() && h != graph.0 ==> #[trigger] final(a).graphs@[h] == old(a).graphs@[h]
            &&& final(a).graphs@[graph.0 as int].id == old(a).graphs@[graph.0 as int].id
            &&& final(a).graphs@[graph.0 as int].layerless_nodes == old(a).graphs@[graph.0 as int].layerless_nodes
            &&& across_direction(direction, side) ==> exists|s: EnumSet<GraphProperties>|
                s@ == graph_properties_of(old(a).graphs@[graph.0 as int].properties@).insert(GraphProperties::NORTH_SOUTH_PORTS)
                    && #[trigger] put(old(a).graphs@[graph.0 as int].properties@, graph_properties_id(), s.stored_spec())
                    == final(a).graphs@[graph.0 as int].properties@
            &&& !across_direction(direction, side) ==> final(a).graphs@[graph.0 as int].properties == old(a).graphs@[graph.0 as int].properties
        },
{
    let ghost a0 = *a;
    let merge = a.graphs[graph.0].properties.get(&merge_edges());
    let hyper = a.nodes[node.0].properties.get(&hypernode());
    let fixed = a.nodes[node.0].properties.get(&port_constraints()).is_side_fixed();
    let default_side = PortSide::from_direction(direction);
    let side = if port_type == PortType::OUTPUT {
        default_side
    } else {
        default_side.opposed()
    };
    if (merge || hyper) && !fixed {
        provide_collector_port(a, graph, node, port_type, side)
    } else {
        let port = a.create_port();
        let ghost a1 = *a;
        a.set_port_node(port, Some(node));
        let ghost a2 = *a;
        let port_side = match end_side {
            Some(s) => s,
            None => side,
        };
        a.set_port_side(port, port_side);
        let ghost a3 = *a;
        let across = match direction {
            Direction::LEFT | Direction::RIGHT => port_side == PortSide::NORTH || port_side == PortSide::SOUTH,
            Direction::UP | Direction::DOWN => port_side == PortSide::EAST || port_side == PortSide::WEST,
            Direction::UNDEFINED => false,
        };
        if across {
            mark_north_south_ports(a, graph);
        }
        proof {
            assert(a.ports@ == a3.ports@);
            assert(a1.ports@[port.0 as int].node is None);
            assert forall|q: int| 0 <= q < a0.ports@.len() implies a.ports@[q] == a0.ports@[q] by {
                assert(a1.ports@[q] == a0.ports@[q]);
                assert(a2.ports@[q] == a1.ports@[q]);
            }
            assert(a.ports@.drop_last() =~= a0.ports@);
            assert forall|m: int| 0 <= m < a0.nodes@.len() implies (#[trigger] a.nodes@[m]).ports@ == if m == node.0 {
                a0.nodes@[m].ports@.push(port)
            } else {
                a0.nodes@[m].ports@
            } by {
                assert(m < a0.nodes.len());
                assert(a2.nodes@[m].ports@ == crate::lgraph::moved_port_list(a1.nodes@[m].ports@, LNodeId(m as usize), port, None, Some(node)));
                assert(a1.nodes@[m] == a0.nodes@[m]);
                assert(LNodeId(m as usize).0 == m);
            }
        }
        port
    }
}

/// A port lies across the layout direction (and so marks the graph with
/// north/south ports) exactly when the direction and the side are defined
/// and the side is neither the one the direction faces nor the opposite
/// one: NORTH/SOUTH ports in LEFT/RIGHT layouts, EAST/WEST ports in UP/DOWN
/// layouts.
pub proof fn lemma_across_direction(d: Direction, s: PortSide)
    ensures
        across_direction(d, s) <==> d != Direction::UNDEFINED && s != PortSide::UNDEFINED && s != facing_side(d) && s
            != rotate(facing_side(d), 2),
{
}

} // verus!
