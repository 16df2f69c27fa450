//! The layered algorithm's graph model: graphs, nodes, ports, edges and
//! labels live in one arena and refer to each other by index.
//!
//! Only the structure and the property maps are held here; coordinates and
//! sizes belong to the geometric passes of the layout.

use vstd::prelude::*;
use crate::options::{NodeType, PortSide};
use crate::property_map::{put, Property, PropValue, PropertyHolder, PropertyMap};
use crate::properties::index_of;
use vstd::pervasive::VecAdditionalExecFns;

verus! {

#[derive(Clone, Copy, Debug, PartialEq, Eq, Structural, Hash)]
pub struct LGraphId(pub usize);

#[derive(Clone, Copy, Debug, PartialEq, Eq, Structural, Hash)]
pub struct LNodeId(pub usize);

#[derive(Clone, Copy, Debug, PartialEq, Eq, Structural, Hash)]
pub struct LPortId(pub usize);

#[derive(Clone, Copy, Debug, PartialEq, Eq, Structural, Hash)]
pub struct LEdgeId(pub usize);

#[derive(Clone, Copy, Debug, PartialEq, Eq, Structural, Hash)]
pub struct LLabelId(pub usize);

/// Where a graph element came from: an element of the input graph (by its
/// index there) or an element of the layered graph that a dummy stands for.
#[derive(Clone, Copy, Debug, PartialEq, Eq, Structural)]
pub enum Origin {
    Node(usize),
    Port(usize),
    Edge(usize),
    Label(usize),
    LEdge(LEdgeId),
    LNode(LNodeId),
    LPort(LPortId),
}

/// A (sub)graph: the nodes that are not yet assigned to layers.
pub struct LGraph {
    /// Scratch number used by the processors (a public field that the processors reuse).
    pub id: i32,
    pub layerless_nodes: Vec<LNodeId>,
    pub properties: PropertyMap,
}

pub struct LNode {
    /// Scratch number used by the processors (a public field that the processors reuse).
    pub id: i32,
    pub node_type: NodeType,
    pub graph: Option<LGraphId>,
    pub ports: Vec<LPortId>,
    pub nested_graph: Option<LGraphId>,
    pub properties: PropertyMap,
}

pub struct LPort {
    pub node: Option<LNodeId>,
    pub side: PortSide,
    pub incoming_edges: Vec<LEdgeId>,
    pub outgoing_edges: Vec<LEdgeId>,
    pub properties: PropertyMap,
}

pub struct LEdge {
    pub source: Option<LPortId>,
    pub target: Option<LPortId>,
    pub labels: Vec<LLabelId>,
    pub properties: PropertyMap,
}

pub struct LLabel {
    pub properties: PropertyMap,
}

/// Owner of every element of a layered layout run.
pub struct LGraphArena {
    pub graphs: Vec<LGraph>,
    pub nodes: Vec<LNode>,
    pub ports: Vec<LPort>,
    pub edges: Vec<LEdge>,
    pub labels: Vec<LLabel>,
}

/// Every index stored in the arena refers to an element of the arena.
pub open spec fn arena_wf(a: &LGraphArena) -> bool {
    &&& forall|g: int, k: int|
        0 <= g < a.graphs@.len() && 0 <= k < a.graphs@[g].layerless_nodes@.len() ==> (
        #[trigger] a.graphs@[g].layerless_nodes@[k]).0 < a.nodes@.len()
    &&& forall|n: int|
        0 <= n < a.nodes@.len() ==> (#[trigger] a.nodes@[n].graph matches Some(g) ==> g.0 < a.graphs@.len())
    &&& forall|n: int|
        0 <= n < a.nodes@.len() ==> (#[trigger] a.nodes@[n].nested_graph matches Some(g) ==> g.0
            < a.graphs@.len())
    &&& forall|n: int, k: int|
        0 <= n < a.nodes@.len() && 0 <= k < a.nodes@[n].ports@.len() ==> (
        #[trigger] a.nodes@[n].ports@[k]).0 < a.ports@.len()
    &&& forall|p: int|
        0 <= p < a.ports@.len() ==> (#[trigger] a.ports@[p].node matches Some(n) ==> n.0 < a.nodes@.len())
    &&& forall|p: int, k: int|
        0 <= p < a.ports@.len() && 0 <= k < a.ports@[p].incoming_edges@.len() ==> (
        #[trigger] a.ports@[p].incoming_edges@[k]).0 < a.edges@.len()
    &&& forall|p: int, k: int|
        0 <= p < a.ports@.len() && 0 <= k < a.ports@[p].outgoing_edges@.len() ==> (
        #[trigger] a.ports@[p].outgoing_edges@[k]).0 < a.edges@.len()
    &&& forall|e: int|
        0 <= e < a.edges@.len() ==> (#[trigger] a.edges@[e].source matches Some(p) ==> p.0 < a.ports@.len())
    &&& forall|e: int|
        0 <= e < a.edges@.len() ==> (#[trigger] a.edges@[e].target matches Some(p) ==> p.0 < a.ports@.len())
    &&& forall|e: int, k: int|
        0 <= e < a.edges@.len() && 0 <= k < a.edges@[e].labels@.len() ==> (
        #[trigger] a.edges@[e].labels@[k]).0 < a.labels@.len()
}

/// Ports and edges refer to each other consistently: a node owns the ports
/// it lists, a port is listed by the node that owns it, and an edge listed
/// among a port's incoming (outgoing) edges has that port as target
/// (source) and is listed among the outgoing (incoming) edges of its other
/// end.
pub open spec fn links_consistent(a: &LGraphArena) -> bool {
    &&& forall|n: int, i: int|
        0 <= n < a.nodes@.len() && 0 <= i < a.nodes@[n].ports@.len() ==> a.ports@[(#[trigger] a.nodes@[n].ports@[i]).0 as int].node
            == Some(LNodeId(n as usize))
    &&& forall|p: int|
        0 <= p < a.ports@.len() ==> (#[trigger] a.ports@[p].node matches Some(n) ==> a.nodes@[n.0 as int].ports@.contains(
            LPortId(p as usize),
        ))
    &&& forall|p: int, k: int|
        0 <= p < a.ports@.len() && 0 <= k < a.ports@[p].incoming_edges@.len() ==> {
            let e = #[trigger] a.ports@[p].incoming_edges@[k];
            &&& a.edges@[e.0 as int].target == Some(LPortId(p as usize))
            &&& a.edges@[e.0 as int].source matches Some(q) ==> a.ports@[q.0 as int].outgoing_edges@.contains(e)
        }
    &&& forall|p: int, k: int|
        0 <= p < a.ports@.len() && 0 <= k < a.ports@[p].outgoing_edges@.len() ==> {
            let e = #[trigger] a.ports@[p].outgoing_edges@[k];
            &&& a.edges@[e.0 as int].source == Some(LPortId(p as usize))
            &&& a.edges@[e.0 as int].target matches Some(q) ==> a.ports@[q.0 as int].incoming_edges@.contains(e)
        }
}

/// The node at the other end of the `k`-th incoming edge of a port, if any.
pub open spec fn incoming_neighbor(a: &LGraphArena, p: LPortId, k: int) -> Option<LNodeId> {
    match a.edges@[a.ports@[p.0 as int].incoming_edges@[k].0 as int].source {
        Some(q) => a.ports@[q.0 as int].node,
        None => None,
    }
}

/// The node at the other end of the `k`-th outgoing edge of a port, if any.
pub open spec fn outgoing_neighbor(a: &LGraphArena, p: LPortId, k: int) -> Option<LNodeId> {
    match a.edges@[a.ports@[p.0 as int].outgoing_edges@[k].0 as int].target {
        Some(q) => a.ports@[q.0 as int].node,
        None => None,
    }
}

/// `y` is connected to `x` by an edge at one of `x`'s ports: `y` owns the
/// source port of an edge entering `x`, or the target port of an edge
/// leaving `x`.
pub open spec fn connected(a: &LGraphArena, x: LNodeId, y: LNodeId) -> bool {
    ||| exists|i: int, k: int|
        0 <= i < a.nodes@[x.0 as int].ports@.len() && 0 <= k < a.ports@[a.nodes@[x.0 as int].ports@[i].0 as int].incoming_edges@.len()
            && #[trigger] incoming_neighbor(a, a.nodes@[x.0 as int].ports@[i], k) == Some(y)
    ||| exists|i: int, k: int|
        0 <= i < a.nodes@[x.0 as int].ports@.len() && 0 <= k < a.ports@[a.nodes@[x.0 as int].ports@[i].0 as int].outgoing_edges@.len()
            && #[trigger] outgoing_neighbor(a, a.nodes@[x.0 as int].ports@[i], k) == Some(y)
}

/// A node with the same fields but another scratch number.
pub open spec fn node_with_id(n: LNode, id: i32) -> LNode {
    LNode {
        id,
        node_type: n.node_type,
        graph: n.graph,
        ports: n.ports,
        nested_graph: n.nested_graph,
        properties: n.properties,
    }
}

/// A node with the same fields but another owning graph.
pub open spec fn node_with_graph(n: LNode, g: Option<LGraphId>) -> LNode {
    LNode {
        id: n.id,
        node_type: n.node_type,
        graph: g,
        ports: n.ports,
        nested_graph: n.nested_graph,
        properties: n.properties,
    }
}

impl LNode {
    /// A node with no ports that belongs to no graph.
    pub fn new() -> (r: LNode)
        ensures
            r.id == 0,
            r.node_type == NodeType::NORMAL,
            r.graph is None,
            r.ports@.len() == 0,
            r.nested_graph is None,
            r.properties@.len() == 0,
    {
        LNode {
            id: 0,
            node_type: NodeType::NORMAL,
            graph: None,
            ports: Vec::new(),
            nested_graph: None,
            properties: PropertyMap::new(),
        }
    }
}

impl LGraph {
    /// A graph with no nodes.
    pub fn new() -> (r: LGraph)
        ensures
            r.id == 0,
            r.layerless_nodes@.len() == 0,
            r.properties@.len() == 0,
    {
        LGraph { id: 0, layerless_nodes: Vec::new(), properties: PropertyMap::new() }
    }
}

impl LGraphArena {
    /// An empty arena.
    pub fn new() -> (r: LGraphArena)
        ensures
            arena_wf(&r),
            r.graphs@.len() == 0,
            r.nodes@.len() == 0,
            r.ports@.len() == 0,
            r.edges@.len() == 0,
            r.labels@.len() == 0,
    {
        LGraphArena {
            graphs: Vec::new(),
            nodes: Vec::new(),
            ports: Vec::new(),
            edges: Vec::new(),
            labels: Vec::new(),
        }
    }

    /// Sets the scratch number of a node.
    pub fn set_node_id(&mut self, n: LNodeId, id: i32)
        requires
            n.0 < old(self).nodes@.len(),
        ensures
            final(self).nodes@ == old(self).nodes@.update(index_of(n.0), node_with_id(old(self).nodes@[index_of(n.0)], id)),
            final(self).graphs@ == old(self).graphs@,
            final(self).ports@ == old(self).ports@,
            final(self).edges@ == old(self).edges@,
            final(self).labels@ == old(self).labels@,
    {
        let mut tmp = LNode::new();
        self.nodes.set_and_swap(n.0, &mut tmp);
        tmp.id = id;
        self.nodes.set_and_swap(n.0, &mut tmp);
    }

    /// Sets the graph a node belongs to.
    pub fn set_node_graph(&mut self, n: LNodeId, g: Option<LGraphId>)
        requires
            n.0 < old(self).nodes@.len(),
        ensures
            final(self).nodes@ == old(self).nodes@.update(index_of(n.0), node_with_graph(old(self).nodes@[index_of(n.0)], g)),
            final(self).graphs@ == old(self).graphs@,
            final(self).ports@ == old(self).ports@,
            final(self).edges@ == old(self).edges@,
            final(self).labels@ == old(self).labels@,
    {
        let mut tmp = LNode::new();
        self.nodes.set_and_swap(n.0, &mut tmp);
        tmp.graph = g;
        self.nodes.set_and_swap(n.0, &mut tmp);
    }

    /// Adds an empty graph and returns its index.
    pub fn create_graph(&mut self) -> (r: LGraphId)
        ensures
            r.0 == old(self).graphs@.len(),
            final(self).graphs@.len() == old(self).graphs@.len() + 1,
            final(self).graphs@.drop_last() == old(self).graphs@,
            final(self).graphs@.last().id == 0,
            final(self).graphs@.last().layerless_nodes@.len() == 0,
            final(self).graphs@.last().properties@.len() == 0,
            final(self).nodes@ == old(self).nodes@,
            final(self).ports@ == old(self).ports@,
            final(self).edges@ == old(self).edges@,
            final(self).labels@ == old(self).labels@,
    {
        let id = LGraphId(self.graphs.len());
        self.graphs.push(LGraph::new());
        proof {
            assert(self.graphs@.drop_last() =~= old(self).graphs@);
        }
        id
    }

    /// Takes a graph out of the arena, leaving an empty one in its place.
    pub fn take_graph(&mut self, g: LGraphId) -> (r: LGraph)
        requires
            g.0 < old(self).graphs@.len(),
        ensures
            r == old(self).graphs@[index_of(g.0)],
            final(self).graphs@.len() == old(self).graphs@.len(),
            forall|i: int| 0 <= i < old(self).graphs@.len() && i != g.0 ==> #[trigger] final(self).graphs@[i] == old(self).graphs@[i],
            final(self).graphs@[index_of(g.0)].layerless_nodes@.len() == 0,
            final(self).nodes@ == old(self).nodes@,
            final(self).ports@ == old(self).ports@,
            final(self).edges@ == old(self).edges@,
            final(self).labels@ == old(self).labels@,
    {
        let mut tmp = LGraph::new();
        self.graphs.set_and_swap(g.0, &mut tmp);
        tmp
    }

    /// Puts a graph back into its slot.
    pub fn put_graph(&mut self, g: LGraphId, graph: LGraph)
        requires
            g.0 < old(self).graphs@.len(),
        ensures
            final(self).graphs@ == old(self).graphs@.update(index_of(g.0), graph),
            final(self).nodes@ == old(self).nodes@,
            final(self).ports@ == old(self).ports@,
            final(self).edges@ == old(self).edges@,
            final(self).labels@ == old(self).labels@,
    {
        self.graphs.set(g.0, graph);
    }
}

/// `i` is the first position of `x` in `s`.
pub open spec fn is_first_index<T>(s: Seq<T>, x: T, i: int) -> bool {
    &&& 0 <= i < s.len()
    &&& s[i] == x
    &&& forall|j: int| 0 <= j < i ==> s[j] != x
}

/// The first position of `x` in `s` (meaningful when `s` holds `x`).
pub open spec fn first_index<T>(s: Seq<T>, x: T) -> int {
    choose|i: int| is_first_index(s, x, i)
}

/// `s` without the first occurrence of `x` (Java's `List.remove(Object)`).
pub open spec fn without_first<T>(s: Seq<T>, x: T) -> Seq<T> {
    if s.contains(x) {
        s.remove(first_index(s, x))
    } else {
        s
    }
}

/// The first position of an element is unique.
pub proof fn lemma_first_index<T>(s: Seq<T>, x: T, i: int)
    requires
        is_first_index(s, x, i),
    ensures
        first_index(s, x) == i,
        s.contains(x),
{
    let j = first_index(s, x);
    assert(is_first_index(s, x, j));
    if j < i {
        assert(s[j] != x);
    }
    if i < j {
        assert(s[i] != x);
    }
}

/// Removes the first occurrence of an edge from a list of edges.
fn remove_edge_id(v: &mut Vec<LEdgeId>, x: LEdgeId)
    ensures
        final(v)@ == without_first(old(v)@, x),
{
    let mut i: usize = 0;
    while i < v.len()
        invariant
            v@ == old(v)@,
            i <= v@.len(),
            forall|j: int| 0 <= j < i ==> v@[j] != x,
        decreases v@.len() - i,
    {
        if v[i].0 == x.0 {
            proof {
                assert(v@[i as int] == x);
                lemma_first_index(v@, x, i as int);
            }
            v.remove(i);
            return;
        }
        i = i + 1;
    }
    proof {
        assert(!v@.contains(x));
    }
}

/// Removes the first occurrence of a port from a list of ports.
fn remove_port_id(v: &mut Vec<LPortId>, x: LPortId)
    ensures
        final(v)@ == without_first(old(v)@, x),
{
    let mut i: usize = 0;
    while i < v.len()
        invariant
            v@ == old(v)@,
            i <= v@.len(),
            forall|j: int| 0 <= j < i ==> v@[j] != x,
        decreases v@.len() - i,
    {
        if v[i].0 == x.0 {
            proof {
                assert(v@[i as int] == x);
                lemma_first_index(v@, x, i as int);
            }
            v.remove(i);
            return;
        }
        i = i + 1;
    }
    proof {
        assert(!v@.contains(x));
    }
}

/// An edge list after an edge leaves port `p` (if `p` was the end `from`)
/// and joins it (if `p` is the new end `to`).
pub open spec fn moved_edge_list(
    list: Seq<LEdgeId>,
    p: LPortId,
    e: LEdgeId,
    from: Option<LPortId>,
    to: Option<LPortId>,
) -> Seq<LEdgeId> {
    let kept = if from == Some(p) {
        without_first(list, e)
    } else {
        list
    };
    if to == Some(p) {
        kept.push(e)
    } else {
        kept
    }
}

/// A port list after a port leaves node `n` (if `n` owned it) and joins it
/// (if `n` is the new owner).
pub open spec fn moved_port_list(
    list: Seq<LPortId>,
    n: LNodeId,
    p: LPortId,
    from: Option<LNodeId>,
    to: Option<LNodeId>,
) -> Seq<LPortId> {
    let kept = if from == Some(n) {
        without_first(list, p)
    } else {
        list
    };
    if to == Some(n) {
        kept.push(p)
    } else {
        kept
    }
}

/// A port whose fields are unset: no owner, no side, no edges, no
/// properties.
pub open spec fn fresh_port(p: LPort) -> bool {
    &&& p.node is None
    &&& p.side == PortSide::UNDEFINED
    &&& p.incoming_edges@.len() == 0
    &&& p.outgoing_edges@.len() == 0
    &&& p.properties@.len() == 0
}

impl LPort {
    /// A port with no owner, no side and no edges.
    pub fn new() -> (r: LPort)
        ensures
            fresh_port(r),
    {
        LPort {
            node: None,
            side: PortSide::UNDEFINED,
            incoming_edges: Vec::new(),
            outgoing_edges: Vec::new(),
            properties: PropertyMap::new(),
        }
    }
}

impl LEdge {
    /// An edge with no ends and no labels.
    pub fn new() -> (r: LEdge)
        ensures
            r.source is None,
            r.target is None,
            r.labels@.len() == 0,
            r.properties@.len() == 0,
    {
        LEdge { source: None, target: None, labels: Vec::new(), properties: PropertyMap::new() }
    }
}

impl LLabel {
    /// A label with no properties.
    pub fn new() -> (r: LLabel)
        ensures
            r.properties@.len() == 0,
    {
        LLabel { properties: PropertyMap::new() }
    }
}

/// Setting an edge's source: the edge leaves the outgoing edges of its old
/// source and joins those of the new one.
pub open spec fn source_set(a: &LGraphArena, b: &LGraphArena, e: LEdgeId, port: Option<LPortId>) -> bool {
    let old_end = a.edges@[e.0 as int].source;
    &&& b.graphs@ == a.graphs@
    &&& b.nodes@ == a.nodes@
    &&& b.labels@ == a.labels@
    &&& b.edges@.len() == a.edges@.len()
    &&& forall|f: int| 0 <= f < a.edges@.len() && f != e.0 ==> #[trigger] b.edges@[f] == a.edges@[f]
    &&& b.edges@[e.0 as int].source == port
    &&& b.edges@[e.0 as int].target == a.edges@[e.0 as int].target
    &&& b.edges@[e.0 as int].labels == a.edges@[e.0 as int].labels
    &&& b.edges@[e.0 as int].properties == a.edges@[e.0 as int].properties
    &&& b.ports@.len() == a.ports@.len()
    &&& forall|p: int| 0 <= p < a.ports@.len() ==> {
        &&& (#[trigger] b.ports@[p]).node == a.ports@[p].node
        &&& b.ports@[p].side == a.ports@[p].side
        &&& b.ports@[p].properties == a.ports@[p].properties
        &&& b.ports@[p].incoming_edges == a.ports@[p].incoming_edges
        &&& b.ports@[p].outgoing_edges@ == moved_edge_list(a.ports@[p].outgoing_edges@, LPortId(p as usize), e, old_end, port)
    }
}

/// Setting an edge's target: the edge leaves the incoming edges of its old
/// target and joins those of the new one.
pub open spec fn target_set(a: &LGraphArena, b: &LGraphArena, e: LEdgeId, port: Option<LPortId>) -> bool {
    let old_end = a.edges@[e.0 as int].target;
    &&& b.graphs@ == a.graphs@
    &&& b.nodes@ == a.nodes@
    &&& b.labels@ == a.labels@
    &&& b.edges@.len() == a.edges@.len()
    &&& forall|f: int| 0 <= f < a.edges@.len() && f != e.0 ==> #[trigger] b.edges@[f] == a.edges@[f]
    &&& b.edges@[e.0 as int].target == port
    &&& b.edges@[e.0 as int].source == a.edges@[e.0 as int].source
    &&& b.edges@[e.0 as int].labels == a.edges@[e.0 as int].labels
    &&& b.edges@[e.0 as int].properties == a.edges@[e.0 as int].properties
    &&& b.ports@.len() == a.ports@.len()
    &&& forall|p: int| 0 <= p < a.ports@.len() ==> {
        &&& (#[trigger] b.ports@[p]).node == a.ports@[p].node
        &&& b.ports@[p].side == a.ports@[p].side
        &&& b.ports@[p].properties == a.ports@[p].properties
        &&& b.ports@[p].outgoing_edges == a.ports@[p].outgoing_edges
        &&& b.ports@[p].incoming_edges@ == moved_edge_list(a.ports@[p].incoming_edges@, LPortId(p as usize), e, old_end, port)
    }
}

/// Setting a port's owner: the port leaves the ports of its old owner and
/// joins those of the new one.
pub open spec fn owner_set(a: &LGraphArena, b: &LGraphArena, p: LPortId, node: Option<LNodeId>) -> bool {
    let old_owner = a.ports@[p.0 as int].node;
    &&& b.graphs@ == a.graphs@
    &&& b.edges@ == a.edges@
    &&& b.labels@ == a.labels@
    &&& b.ports@.len() == a.ports@.len()
    &&& forall|q: int| 0 <= q < a.ports@.len() && q != p.0 ==> #[trigger] b.ports@[q] == a.ports@[q]
    &&& b.ports@[p.0 as int].node == node
    &&& b.ports@[p.0 as int].side == a.ports@[p.0 as int].side
    &&& b.ports@[p.0 as int].properties == a.ports@[p.0 as int].properties
    &&& b.ports@[p.0 as int].incoming_edges == a.ports@[p.0 as int].incoming_edges
    &&& b.ports@[p.0 as int].outgoing_edges == a.ports@[p.0 as int].outgoing_edges
    &&& b.nodes@.len() == a.nodes@.len()
    &&& forall|n: int| 0 <= n < a.nodes@.len() ==> {
        &&& (#[trigger] b.nodes@[n]).id == a.nodes@[n].id
        &&& b.nodes@[n].node_type == a.nodes@[n].node_type
        &&& b.nodes@[n].graph == a.nodes@[n].graph
        &&& b.nodes@[n].nested_graph == a.nodes@[n].nested_graph
        &&& b.nodes@[n].properties == a.nodes@[n].properties
        &&& b.nodes@[n].ports@ == moved_port_list(a.nodes@[n].ports@, LNodeId(n as usize), p, old_owner, node)
    }
}

/// A sequence that holds `x` has a first position of `x`.
pub proof fn lemma_first_index_exists<T>(s: Seq<T>, x: T)
    requires
        s.contains(x),
    ensures
        is_first_index(s, x, first_index(s, x)),
    decreases s.len(),
{
    if s[0] == x {
        assert(is_first_index(s, x, 0));
    } else {
        let t = s.drop_first();
        let w = choose|w: int| 0 <= w < s.len() && s[w] == x;
        assert(t[w - 1] == x);
        lemma_first_index_exists(t, x);
        let i = first_index(t, x);
        assert forall|j: int| 0 <= j < i + 1 implies s[j] != x by {
            if j > 0 {
                assert(s[j] == t[j - 1]);
            }
        }
        assert(is_first_index(s, x, i + 1));
    }
}

/// Every element of `without_first(s, x)` is an element of `s`.
pub proof fn lemma_without_first_elements<T>(s: Seq<T>, x: T)
    ensures
        forall|k: int| 0 <= k < without_first(s, x).len() ==> s.contains(#[trigger] without_first(s, x)[k]),
        without_first(s, x).len() <= s.len(),
{
    if s.contains(x) {
        let i = first_index(s, x);
        lemma_first_index_exists(s, x);
        assert forall|k: int| 0 <= k < without_first(s, x).len() implies s.contains(#[trigger] without_first(s, x)[k]) by {
            if k < i {
                assert(without_first(s, x)[k] == s[k]);
            } else {
                assert(without_first(s, x)[k] == s[k + 1]);
            }
        }
    }
}

/// Changing an edge end keeps the arena well formed.
proof fn lemma_wf_source_set(a: &LGraphArena, b: &LGraphArena, e: LEdgeId, port: Option<LPortId>)
    requires
        arena_wf(a),
        e.0 < a.edges@.len(),
        port matches Some(p) ==> p.0 < a.ports@.len(),
        source_set(a, b, e, port),
    ensures
        arena_wf(b),
{
    assert forall|p: int, k: int| 0 <= p < b.ports@.len() && 0 <= k < b.ports@[p].outgoing_edges@.len() implies (
        #[trigger] b.ports@[p].outgoing_edges@[k]).0 < b.edges@.len() by {
        let list = a.ports@[p].outgoing_edges@;
        lemma_without_first_elements(list, e);
        let kept = if a.edges@[e.0 as int].source == Some(LPortId(p as usize)) { without_first(list, e) } else { list };
        let x = b.ports@[p].outgoing_edges@[k];
        if k < kept.len() {
            assert(x == kept[k]);
            assert(list.contains(x));
        }
    }
    assert forall|f: int| 0 <= f < b.edges@.len() implies (#[trigger] b.edges@[f].source matches Some(q) ==> q.0 < b.ports@.len()) by {
        if f != e.0 {
            assert(b.edges@[f] == a.edges@[f]);
        }
    }
    assert forall|f: int| 0 <= f < b.edges@.len() implies (#[trigger] b.edges@[f].target matches Some(q) ==> q.0 < b.ports@.len()) by {
        if f != e.0 {
            assert(b.edges@[f] == a.edges@[f]);
        }
    }
    assert forall|f: int, k: int| 0 <= f < b.edges@.len() && 0 <= k < b.edges@[f].labels@.len() implies (
        #[trigger] b.edges@[f].labels@[k]).0 < b.labels@.len() by {
        if f != e.0 {
            assert(b.edges@[f] == a.edges@[f]);
        } else {
            assert(b.edges@[f].labels@[k] == a.edges@[f].labels@[k]);
        }
    }
}

/// Changing an edge end keeps the arena well formed.
proof fn lemma_wf_target_set(a: &LGraphArena, b: &LGraphArena, e: LEdgeId, port: Option<LPortId>)
    requires
        arena_wf(a),
        e.0 < a.edges@.len(),
        port matches Some(p) ==> p.0 < a.ports@.len(),
        target_set(a, b, e, port),
    ensures
        arena_wf(b),
{
    assert forall|p: int, k: int| 0 <= p < b.ports@.len() && 0 <= k < b.ports@[p].incoming_edges@.len() implies (
        #[trigger] b.ports@[p].incoming_edges@[k]).0 < b.edges@.len() by {
        let list = a.ports@[p].incoming_edges@;
        lemma_without_first_elements(list, e);
        let kept = if a.edges@[e.0 as int].target == Some(LPortId(p as usize)) { without_first(list, e) } else { list };
        let x = b.ports@[p].incoming_edges@[k];
        if k < kept.len() {
            assert(x == kept[k]);
            assert(list.contains(x));
        }
    }
    assert forall|f: int| 0 <= f < b.edges@.len() implies (#[trigger] b.edges@[f].source matches Some(q) ==> q.0 < b.ports@.len()) by {
        if f != e.0 {
            assert(b.edges@[f] == a.edges@[f]);
        }
    }
    assert forall|f: int| 0 <= f < b.edges@.len() implies (#[trigger] b.edges@[f].target matches Some(q) ==> q.0 < b.ports@.len()) by {
        if f != e.0 {
            assert(b.edges@[f] == a.edges@[f]);
        }
    }
    assert forall|f: int, k: int| 0 <= f < b.edges@.len() && 0 <= k < b.edges@[f].labels@.len() implies (
        #[trigger] b.edges@[f].labels@[k]).0 < b.labels@.len() by {
        if f != e.0 {
            assert(b.edges@[f] == a.edges@[f]);
        } else {
            assert(b.edges@[f].labels@[k] == a.edges@[f].labels@[k]);
        }
    }
}

/// Changing a port's owner keeps the arena well formed.
proof fn lemma_wf_owner_set(a: &LGraphArena, b: &LGraphArena, p: LPortId, node: Option<LNodeId>)
    requires
        arena_wf(a),
        p.0 < a.ports@.len(),
        node matches Some(n) ==> n.0 < a.nodes@.len(),
        owner_set(a, b, p, node),
    ensures
        arena_wf(b),
{
    assert forall|n: int, k: int| 0 <= n < b.nodes@.len() && 0 <= k < b.nodes@[n].ports@.len() implies (
        #[trigger] b.nodes@[n].ports@[k]).0 < b.ports@.len() by {
        let list = a.nodes@[n].ports@;
        lemma_without_first_elements(list, p);
        let kept = if a.ports@[p.0 as int].node == Some(LNodeId(n as usize)) { without_first(list, p) } else { list };
        let x = b.nodes@[n].ports@[k];
        if k < kept.len() {
            assert(x == kept[k]);
            assert(list.contains(x));
        }
    }
    assert forall|q: int| 0 <= q < b.ports@.len() implies (#[trigger] b.ports@[q].node matches Some(n) ==> n.0 < b.nodes@.len()) by {
        if q != p.0 {
            assert(b.ports@[q] == a.ports@[q]);
        }
    }
    assert forall|q: int, k: int| 0 <= q < b.ports@.len() && 0 <= k < b.ports@[q].incoming_edges@.len() implies (
        #[trigger] b.ports@[q].incoming_edges@[k]).0 < b.edges@.len() by {
        assert(b.ports@[q].incoming_edges == a.ports@[q].incoming_edges);
        assert(a.ports@[q].incoming_edges@[k] == b.ports@[q].incoming_edges@[k]);
    }
    assert forall|q: int, k: int| 0 <= q < b.ports@.len() && 0 <= k < b.ports@[q].outgoing_edges@.len() implies (
        #[trigger] b.ports@[q].outgoing_edges@[k]).0 < b.edges@.len() by {
        assert(b.ports@[q].outgoing_edges == a.ports@[q].outgoing_edges);
        assert(a.ports@[q].outgoing_edges@[k] == b.ports@[q].outgoing_edges@[k]);
    }
    assert forall|n: int| 0 <= n < b.nodes@.len() implies (#[trigger] b.nodes@[n].graph matches Some(g) ==> g.0 < b.graphs@.len()) by {
        assert(b.nodes@[n].graph == a.nodes@[n].graph);
    }
    assert forall|n: int| 0 <= n < b.nodes@.len() implies (#[trigger] b.nodes@[n].nested_graph matches Some(g) ==> g.0 < b.graphs@.len()) by {
        assert(b.nodes@[n].nested_graph == a.nodes@[n].nested_graph);
    }
}

impl LGraphArena {
    /// Sets an edge's source port (see `source_set`).
    pub fn set_edge_source(&mut self, e: LEdgeId, port: Option<LPortId>)
        requires
            arena_wf(old(self)),
            e.0 < old(self).edges@.len(),
            port matches Some(p) ==> p.0 < old(self).ports@.len(),
        ensures
            arena_wf(final(self)),
            source_set(old(self), final(self), e, port),
    {
        let ghost a0 = *self;
        let old_end = self.edges[e.0].source;
        if let Some(s) = old_end {
            let mut tmp = LPort::new();
            self.ports.set_and_swap(s.0, &mut tmp);
            remove_edge_id(&mut tmp.outgoing_edges, e);
            self.ports.set_and_swap(s.0, &mut tmp);
        }
        let mut te = LEdge::new();
        self.edges.set_and_swap(e.0, &mut te);
        te.source = port;
        self.edges.set_and_swap(e.0, &mut te);
        if let Some(p) = port {
            let mut tmp = LPort::new();
            self.ports.set_and_swap(p.0, &mut tmp);
            tmp.outgoing_edges.push(e);
            self.ports.set_and_swap(p.0, &mut tmp);
        }
        proof {
            assert forall|q: int| 0 <= q < a0.ports@.len() implies {
                &&& (#[trigger] self.ports@[q]).node == a0.ports@[q].node
                &&& self.ports@[q].side == a0.ports@[q].side
                &&& self.ports@[q].properties == a0.ports@[q].properties
                &&& self.ports@[q].incoming_edges == a0.ports@[q].incoming_edges
                &&& self.ports@[q].outgoing_edges@ == moved_edge_list(a0.ports@[q].outgoing_edges@, LPortId(q as usize), e, old_end, port)
            } by {
                assert(q < a0.ports.len());
                assert(LPortId(q as usize).0 == q);
            }
            lemma_wf_source_set(&a0, self, e, port);
        }
    }

    /// Sets an edge's target port (see `target_set`).
    pub fn set_edge_target(&mut self, e: LEdgeId, port: Option<LPortId>)
        requires
            arena_wf(old(self)),
            e.0 < old(self).edges@.len(),
            port matches Some(p) ==> p.0 < old(self).ports@.len(),
        ensures
            arena_wf(final(self)),
            target_set(old(self), final(self), e, port),
    {
        let ghost a0 = *self;
        let old_end = self.edges[e.0].target;
        if let Some(s) = old_end {
            let mut tmp = LPort::new();
            self.ports.set_and_swap(s.0, &mut tmp);
            remove_edge_id(&mut tmp.incoming_edges, e);
            self.ports.set_and_swap(s.0, &mut tmp);
        }
        let mut te = LEdge::new();
        self.edges.set_and_swap(e.0, &mut te);
        te.target = port;
        self.edges.set_and_swap(e.0, &mut te);
        if let Some(p) = port {
            let mut tmp = LPort::new();
            self.ports.set_and_swap(p.0, &mut tmp);
            tmp.incoming_edges.push(e);
            self.ports.set_and_swap(p.0, &mut tmp);
        }
        proof {
            assert forall|q: int| 0 <= q < a0.ports@.len() implies {
                &&& (#[trigger] self.ports@[q]).node == a0.ports@[q].node
                &&& self.ports@[q].side == a0.ports@[q].side
                &&& self.ports@[q].properties == a0.ports@[q].properties
                &&& self.ports@[q].outgoing_edges == a0.ports@[q].outgoing_edges
                &&& self.ports@[q].incoming_edges@ == moved_edge_list(a0.ports@[q].incoming_edges@, LPortId(q as usize), e, old_end, port)
            } by {
                assert(q < a0.ports.len());
                assert(LPortId(q as usize).0 == q);
            }
            lemma_wf_target_set(&a0, self, e, port);
        }
    }

    /// Sets a port's owner (see `owner_set`).
    pub fn set_port_node(&mut self, p: LPortId, node: Option<LNodeId>)
        requires
            arena_wf(old(self)),
            p.0 < old(self).ports@.len(),
            node matches Some(n) ==> n.0 < old(self).nodes@.len(),
        ensures
            arena_wf(final(self)),
            owner_set(old(self), final(self), p, node),
    {
        let ghost a0 = *self;
        let old_owner = self.ports[p.0].node;
        if let Some(o) = old_owner {
            let mut tmp = LNode::new();
            self.nodes.set_and_swap(o.0, &mut tmp);
            remove_port_id(&mut tmp.ports, p);
            self.nodes.set_and_swap(o.0, &mut tmp);
        }
        let mut tp = LPort::new();
        self.ports.set_and_swap(p.0, &mut tp);
        tp.node = node;
        self.ports.set_and_swap(p.0, &mut tp);
        if let Some(n) = node {
            let mut tmp = LNode::new();
            self.nodes.set_and_swap(n.0, &mut tmp);
            tmp.ports.push(p);
            self.nodes.set_and_swap(n.0, &mut tmp);
        }
        proof {
            assert forall|n: int| 0 <= n < a0.nodes@.len() implies {
                &&& (#[trigger] self.nodes@[n]).id == a0.nodes@[n].id
                &&& self.nodes@[n].node_type == a0.nodes@[n].node_type
                &&& self.nodes@[n].graph == a0.nodes@[n].graph
                &&& self.nodes@[n].nested_graph == a0.nodes@[n].nested_graph
                &&& self.nodes@[n].properties == a0.nodes@[n].properties
                &&& self.nodes@[n].ports@ == moved_port_list(a0.nodes@[n].ports@, LNodeId(n as usize), p, old_owner, node)
            } by {
                assert(n < a0.nodes.len());
                assert(LNodeId(n as usize).0 == n);
            }
            lemma_wf_owner_set(&a0, self, p, node);
        }
    }

    /// Sets the side of a port.
    pub fn set_port_side(&mut self, p: LPortId, side: PortSide)
        requires
            arena_wf(old(self)),
            p.0 < old(self).ports@.len(),
        ensures
            arena_wf(final(self)),
            final(self).ports@.len() == old(self).ports@.len(),
            forall|q: int| 0 <= q < old(self).ports@.len() && q != p.0 ==> #[trigger] final(self).ports@[q] == old(self).ports@[q],
            final(self).ports@[p.0 as int].side == side,
            final(self).ports@[p.0 as int].node == old(self).ports@[p.0 as int].node,
            final(self).ports@[p.0 as int].properties == old(self).ports@[p.0 as int].properties,
            final(self).ports@[p.0 as int].incoming_edges == old(self).ports@[p.0 as int].incoming_edges,
            final(self).ports@[p.0 as int].outgoing_edges == old(self).ports@[p.0 as int].outgoing_edges,
            final(self).graphs@ == old(self).graphs@,
            final(self).nodes@ == old(self).nodes@,
            final(self).edges@ == old(self).edges@,
            final(self).labels@ == old(self).labels@,
    {
        let ghost a0 = *self;
        let mut tp = LPort::new();
        self.ports.set_and_swap(p.0, &mut tp);
        tp.side = side;
        self.ports.set_and_swap(p.0, &mut tp);
        proof {
            assert forall|q: int, k: int| 0 <= q < self.ports@.len() && 0 <= k < self.ports@[q].incoming_edges@.len() implies (
                #[trigger] self.ports@[q].incoming_edges@[k]).0 < self.edges@.len() by {
                assert(self.ports@[q].incoming_edges == a0.ports@[q].incoming_edges);
                assert(a0.ports@[q].incoming_edges@[k] == self.ports@[q].incoming_edges@[k]);
            }
            assert forall|q: int, k: int| 0 <= q < self.ports@.len() && 0 <= k < self.ports@[q].outgoing_edges@.len() implies (
                #[trigger] self.ports@[q].outgoing_edges@[k]).0 < self.edges@.len() by {
                assert(self.ports@[q].outgoing_edges == a0.ports@[q].outgoing_edges);
                assert(a0.ports@[q].outgoing_edges@[k] == self.ports@[q].outgoing_edges@[k]);
            }
        }
    }

    /// Adds a port with no owner, no side, no edges and no properties.
    pub fn create_port(&mut self) -> (r: LPortId)
        requires
            arena_wf(old(self)),
        ensures
            arena_wf(final(self)),
            r.0 == old(self).ports@.len(),
            final(self).ports@.len() == old(self).ports@.len() + 1,
            final(self).ports@.drop_last() == old(self).ports@,
            fresh_port(final(self).ports@.last()),
            final(self).graphs@ == old(self).graphs@,
            final(self).nodes@ == old(self).nodes@,
            final(self).edges@ == old(self).edges@,
            final(self).labels@ == old(self).labels@,
    {
        let ghost a0 = *self;
        let r = LPortId(self.ports.len());
        self.ports.push(LPort::new());
        proof {
            assert(self.ports@.drop_last() =~= a0.ports@);
            assert forall|q: int, k: int| 0 <= q < self.ports@.len() && 0 <= k < self.ports@[q].incoming_edges@.len() implies (
                #[trigger] self.ports@[q].incoming_edges@[k]).0 < self.edges@.len() by {
                if q < a0.ports@.len() {
                    assert(self.ports@[q] == a0.ports@[q]);
                }
            }
            assert forall|q: int, k: int| 0 <= q < self.ports@.len() && 0 <= k < self.ports@[q].outgoing_edges@.len() implies (
                #[trigger] self.ports@[q].outgoing_edges@[k]).0 < self.edges@.len() by {
                if q < a0.ports@.len() {
                    assert(self.ports@[q] == a0.ports@[q]);
                }
            }
            assert forall|q: int| 0 <= q < self.ports@.len() implies (#[trigger] self.ports@[q].node matches Some(n) ==> n.0 < self.nodes@.len()) by {
                if q < a0.ports@.len() {
                    assert(self.ports@[q] == a0.ports@[q]);
                }
            }
        }
        r
    }

    /// Stores a property value on a port.
    pub fn set_port_property<T: PropValue>(&mut self, p: LPortId, prop: &Property<T>, value: T)
        requires
            arena_wf(old(self)),
            p.0 < old(self).ports@.len(),
        ensures
            arena_wf(final(self)),
            final(self).ports@.len() == old(self).ports@.len(),
            forall|q: int| 0 <= q < old(self).ports@.len() && q != p.0 ==> #[trigger] final(self).ports@[q] == old(self).ports@[q],
            final(self).ports@[p.0 as int].properties@ == put(old(self).ports@[p.0 as int].properties@, prop.id@, value.stored_spec()),
            final(self).ports@[p.0 as int].side == old(self).ports@[p.0 as int].side,
            final(self).ports@[p.0 as int].node == old(self).ports@[p.0 as int].node,
            final(self).ports@[p.0 as int].incoming_edges == old(self).ports@[p.0 as int].incoming_edges,
            final(self).ports@[p.0 as int].outgoing_edges == old(self).ports@[p.0 as int].outgoing_edges,
            final(self).graphs@ == old(self).graphs@,
            final(self).nodes@ == old(self).nodes@,
            final(self).edges@ == old(self).edges@,
            final(self).labels@ == old(self).labels@,
    {
        let ghost a0 = *self;
        let mut tp = LPort::new();
        self.ports.set_and_swap(p.0, &mut tp);
        tp.properties.set(prop, value);
        self.ports.set_and_swap(p.0, &mut tp);
        proof {
            assert forall|q: int, k: int| 0 <= q < self.ports@.len() && 0 <= k < self.ports@[q].incoming_edges@.len() implies (
                #[trigger] self.ports@[q].incoming_edges@[k]).0 < self.edges@.len() by {
                assert(self.ports@[q].incoming_edges == a0.ports@[q].incoming_edges);
                assert(a0.ports@[q].incoming_edges@[k] == self.ports@[q].incoming_edges@[k]);
            }
            assert forall|q: int, k: int| 0 <= q < self.ports@.len() && 0 <= k < self.ports@[q].outgoing_edges@.len() implies (
                #[trigger] self.ports@[q].outgoing_edges@[k]).0 < self.edges@.len() by {
                assert(self.ports@[q].outgoing_edges == a0.ports@[q].outgoing_edges);
                assert(a0.ports@[q].outgoing_edges@[k] == self.ports@[q].outgoing_edges@[k]);
            }
        }
    }

    /// Stores a property value on an edge.
    pub fn set_edge_property<T: PropValue>(&mut self, e: LEdgeId, prop: &Property<T>, value: T)
        requires
            arena_wf(old(self)),
            e.0 < old(self).edges@.len(),
        ensures
            arena_wf(final(self)),
            final(self).edges@.len() == old(self).edges@.len(),
            forall|f: int| 0 <= f < old(self).edges@.len() && f != e.0 ==> #[trigger] final(self).edges@[f] == old(self).edges@[f],
            final(self).edges@[e.0 as int].properties@ == put(old(self).edges@[e.0 as int].properties@, prop.id@, value.stored_spec()),
            final(self).edges@[e.0 as int].source == old(self).edges@[e.0 as int].source,
            final(self).edges@[e.0 as int].target == old(self).edges@[e.0 as int].target,
            final(self).edges@[e.0 as int].labels == old(self).edges@[e.0 as int].labels,
            final(self).graphs@ == old(self).graphs@,
            final(self).nodes@ == old(self).nodes@,
            final(self).ports@ == old(self).ports@,
            final(self).labels@ == old(self).labels@,
    {
        let ghost a0 = *self;
        let mut te = LEdge::new();
        self.edges.set_and_swap(e.0, &mut te);
        te.properties.set(prop, value);
        self.edges.set_and_swap(e.0, &mut te);
        proof {
            assert forall|f: int, k: int| 0 <= f < self.edges@.len() && 0 <= k < self.edges@[f].labels@.len() implies (
                #[trigger] self.edges@[f].labels@[k]).0 < self.labels@.len() by {
                assert(self.edges@[f].labels == a0.edges@[f].labels);
                assert(a0.edges@[f].labels@[k] == self.edges@[f].labels@[k]);
            }
        }
    }

    /// Stores a property value on a label.
    pub fn set_label_property<T: PropValue>(&mut self, l: LLabelId, prop: &Property<T>, value: T)
        requires
            arena_wf(old(self)),
            l.0 < old(self).labels@.len(),
        ensures
            arena_wf(final(self)),
            final(self).labels@.len() == old(self).labels@.len(),
            forall|m: int| 0 <= m < old(self).labels@.len() && m != l.0 ==> #[trigger] final(self).labels@[m] == old(self).labels@[m],
            final(self).labels@[l.0 as int].properties@ == put(old(self).labels@[l.0 as int].properties@, prop.id@, value.stored_spec()),
            final(self).graphs@ == old(self).graphs@,
            final(self).nodes@ == old(self).nodes@,
            final(self).ports@ == old(self).ports@,
            final(self).edges@ == old(self).edges@,
    {
        let mut tl = LLabel::new();
        self.labels.set_and_swap(l.0, &mut tl);
        tl.properties.set(prop, value);
        self.labels.set_and_swap(l.0, &mut tl);
    }
}

impl LGraphArena {
    /// Stores a property value on a graph.
    pub fn set_graph_property<T: PropValue>(&mut self, g: LGraphId, prop: &Property<T>, value: T)
        requires
            arena_wf(old(self)),
            g.0 < old(self).graphs@.len(),
        ensures
            arena_wf(final(self)),
            final(self).graphs@.len() == old(self).graphs@.len(),
            forall|h: int| 0 <= h < old(self).graphs@.len() && h != g.0 ==> #[trigger] final(self).graphs@[h] == old(self).graphs@[h],
            final(self).graphs@[g.0 as int].properties@ == put(old(self).graphs@[g.0 as int].properties@, prop.id@, value.stored_spec()),
            final(self).graphs@[g.0 as int].id == old(self).graphs@[g.0 as int].id,
            final(self).graphs@[g.0 as int].layerless_nodes == old(self).graphs@[g.0 as int].layerless_nodes,
            final(self).nodes@ == old(self).nodes@,
            final(self).ports@ == old(self).ports@,
            final(self).edges@ == old(self).edges@,
            final(self).labels@ == old(self).labels@,
    {
        let ghost a0 = *self;
        let mut graph = self.take_graph(g);
        graph.properties.set(prop, value);
        self.put_graph(g, graph);
        proof {
            assert forall|h: int, k: int| 0 <= h < self.graphs@.len() && 0 <= k < self.graphs@[h].layerless_nodes@.len() implies (
                #[trigger] self.graphs@[h].layerless_nodes@[k]).0 < self.nodes@.len() by {
                assert(self.graphs@[h].layerless_nodes == a0.graphs@[h].layerless_nodes);
                assert(a0.graphs@[h].layerless_nodes@[k] == self.graphs@[h].layerless_nodes@[k]);
            }
        }
    }
}

impl PropertyHolder for LGraph {
    open spec fn held(&self) -> PropertyMap {
        self.properties
    }

    open spec fn with_held(&self, m: PropertyMap) -> Self {
        LGraph { properties: m, ..*self }
    }

    proof fn lemma_held_with(&self) {
    }

    fn properties(&self) -> (r: &PropertyMap) {
        &self.properties
    }

    fn properties_mut(&mut self) -> (r: &mut PropertyMap) {
        &mut self.properties
    }
}

impl PropertyHolder for LNode {
    open spec fn held(&self) -> PropertyMap {
        self.properties
    }

    open spec fn with_held(&self, m: PropertyMap) -> Self {
        LNode { properties: m, ..*self }
    }

    proof fn lemma_held_with(&self) {
    }

    fn properties(&self) -> (r: &PropertyMap) {
        &self.properties
    }

    fn properties_mut(&mut self) -> (r: &mut PropertyMap) {
        &mut self.properties
    }
}

impl PropertyHolder for LPort {
    open spec fn held(&self) -> PropertyMap {
        self.properties
    }

    open spec fn with_held(&self, m: PropertyMap) -> Self {
        LPort { properties: m, ..*self }
    }

    proof fn lemma_held_with(&self) {
    }

    fn properties(&self) -> (r: &PropertyMap) {
        &self.properties
    }

    fn properties_mut(&mut self) -> (r: &mut PropertyMap) {
        &mut self.properties
    }
}

impl PropertyHolder for LEdge {
    open spec fn held(&self) -> PropertyMap {
        self.properties
    }

    open spec fn with_held(&self, m: PropertyMap) -> Self {
        LEdge { properties: m, ..*self }
    }

    proof fn lemma_held_with(&self) {
    }

    fn properties(&self) -> (r: &PropertyMap) {
        &self.properties
    }

    fn properties_mut(&mut self) -> (r: &mut PropertyMap) {
        &mut self.properties
    }
}

impl PropertyHolder for LLabel {
    open spec fn held(&self) -> PropertyMap {
        self.properties
    }

    open spec fn with_held(&self, m: PropertyMap) -> Self {
        LLabel { properties: m, ..*self }
    }

    proof fn lemma_held_with(&self) {
    }

    fn properties(&self) -> (r: &PropertyMap) {
        &self.properties
    }

    fn properties_mut(&mut self) -> (r: &mut PropertyMap) {
        &mut self.properties
    }
}

} // verus!
