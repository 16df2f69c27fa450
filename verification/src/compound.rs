//! Compound graphs: finding edges that cross hierarchy levels.

use vstd::prelude::*;
use std::rc::Rc;
use indexmap::IndexMap;
use crate::index_map::{find_edge, segment_entries, segments_clone, segments_get, segments_get_index, segments_len, segments_new};
use crate::lgraph::{arena_wf, LEdgeId, LGraph, LGraphArena, LGraphId, LNodeId, LPortId};
use crate::property_map::{lookup, put, StoredValue};
use vstd::pervasive::VecAdditionalExecFns;

verus! {

/// The graph of the node owning an edge end, if the end is set and owned.
pub open spec fn end_graph(a: &LGraphArena, end: Option<LPortId>) -> Option<LGraphId> {
    match end {
        Some(p) => match a.ports@[p.0 as int].node {
            Some(n) => a.nodes@[n.0 as int].graph,
            None => None,
        },
        None => None,
    }
}

/// The ends of the edge lie in different graphs of the hierarchy.
pub open spec fn crosses_levels(a: &LGraphArena, e: LEdgeId) -> bool {
    end_graph(a, a.edges@[e.0 as int].source) != end_graph(a, a.edges@[e.0 as int].target)
}

/// Some outgoing edge of a port of `n` crosses levels.
pub open spec fn node_has_crossing(a: &LGraphArena, n: LNodeId) -> bool {
    exists|i: int, j: int|
        0 <= i < a.nodes@[n.0 as int].ports@.len() && 0 <= j < a.ports@[a.nodes@[n.0 as int].ports@[i].0 as int].outgoing_edges@.len()
            && #[trigger] crosses_levels(a, a.ports@[a.nodes@[n.0 as int].ports@[i].0 as int].outgoing_edges@[j])
}

/// Some node of graph `g` has an outgoing edge that crosses levels.
pub open spec fn graph_has_crossing(a: &LGraphArena, g: LGraphId) -> bool {
    exists|k: int| 0 <= k < a.graphs@[g.0 as int].layerless_nodes@.len() && #[trigger] node_has_crossing(
        a,
        a.graphs@[g.0 as int].layerless_nodes@[k],
    )
}

/// Graph `h` is nested in a node of graph `g`.
pub open spec fn nests(a: &LGraphArena, g: LGraphId, h: LGraphId) -> bool {
    exists|k: int| 0 <= k < a.graphs@[g.0 as int].layerless_nodes@.len()
        && a.nodes@[(#[trigger] a.graphs@[g.0 as int].layerless_nodes@[k]).0 as int].nested_graph == Some(h)
}

/// A path down the hierarchy, each graph nested in the one before.
pub open spec fn hierarchy_path(a: &LGraphArena, p: Seq<LGraphId>) -> bool {
    &&& p.len() > 0
    &&& forall|i: int| 0 <= i < p.len() - 1 ==> #[trigger] nests(a, p[i], p[i + 1])
}

/// Graph `g` lies in the hierarchy below (or at) `root`.
pub open spec fn in_hierarchy(a: &LGraphArena, root: LGraphId, g: LGraphId) -> bool {
    exists|p: Seq<LGraphId>| #[trigger] hierarchy_path(a, p) && p[0] == root && p.last() == g
}

/// How many entries are false.
pub open spec fn false_count(s: Seq<bool>) -> nat
    decreases s.len(),
{
    if s.len() == 0 {
        0
    } else {
        false_count(s.drop_last()) + if s.last() {
            0nat
        } else {
            1nat
        }
    }
}

proof fn lemma_false_count_set(s: Seq<bool>, i: int)
    requires
        0 <= i < s.len(),
        !s[i],
    ensures
        false_count(s.update(i, true)) < false_count(s),
    decreases s.len(),
{
    let t = s.update(i, true);
    if i < s.len() - 1 {
        assert(t.drop_last() =~= s.drop_last().update(i, true));
        lemma_false_count_set(s.drop_last(), i);
    } else {
        assert(t.drop_last() =~= s.drop_last());
    }
}

/// Whether some outgoing edge of a port of `n` crosses levels.
fn node_crossing(a: &LGraphArena, n: LNodeId) -> (r: bool)
    requires
        arena_wf(a),
        n.0 < a.nodes@.len(),
    ensures
        r == node_has_crossing(a, n),
{
    let np = a.nodes[n.0].ports.len();
    let mut i: usize = 0;
    while i < np
        invariant
            arena_wf(a),
            n.0 < a.nodes@.len(),
            np == a.nodes@[n.0 as int].ports@.len(),
            i <= np,
            forall|i2: int, j: int|
                0 <= i2 < i && 0 <= j < a.ports@[a.nodes@[n.0 as int].ports@[i2].0 as int].outgoing_edges@.len() ==> !#[trigger] crosses_levels(
                    a,
                    a.ports@[a.nodes@[n.0 as int].ports@[i2].0 as int].outgoing_edges@[j],
                ),
        decreases np - i,
    {
        let port = a.nodes[n.0].ports[i];
        let ne = a.ports[port.0].outgoing_edges.len();
        let mut j: usize = 0;
        while j < ne
            invariant
                arena_wf(a),
                n.0 < a.nodes@.len(),
                np == a.nodes@[n.0 as int].ports@.len(),
                i < np,
                port == a.nodes@[n.0 as int].ports@[i as int],
                ne == a.ports@[port.0 as int].outgoing_edges@.len(),
                j <= ne,
                forall|i2: int, j2: int|
                    0 <= i2 < i && 0 <= j2 < a.ports@[a.nodes@[n.0 as int].ports@[i2].0 as int].outgoing_edges@.len() ==> !#[trigger] crosses_levels(
                        a,
                        a.ports@[a.nodes@[n.0 as int].ports@[i2].0 as int].outgoing_edges@[j2],
                    ),
                forall|j2: int| 0 <= j2 < j ==> !#[trigger] crosses_levels(a, a.ports@[port.0 as int].outgoing_edges@[j2]),
            decreases ne - j,
        {
            let edge = a.ports[port.0].outgoing_edges[j];
            let src = end_graph_of(a, a.edges[edge.0].source);
            let tgt = end_graph_of(a, a.edges[edge.0].target);
            if !same_graph(src, tgt) {
                proof {
                    assert(crosses_levels(a, a.ports@[a.nodes@[n.0 as int].ports@[i as int].0 as int].outgoing_edges@[j as int]));
                }
                return true;
            }
            j = j + 1;
        }
        proof {
            assert forall|i2: int, j2: int|
                0 <= i2 < i + 1 && 0 <= j2 < a.ports@[a.nodes@[n.0 as int].ports@[i2].0 as int].outgoing_edges@.len() implies !#[trigger] crosses_levels(
                    a,
                    a.ports@[a.nodes@[n.0 as int].ports@[i2].0 as int].outgoing_edges@[j2],
                ) by {
                if i2 == i {
                    assert(!crosses_levels(a, a.ports@[port.0 as int].outgoing_edges@[j2]));
                }
            }
        }
        i = i + 1;
    }
    false
}

/// The graph of the node owning an edge end.
fn end_graph_of(a: &LGraphArena, end: Option<LPortId>) -> (r: Option<LGraphId>)
    requires
        arena_wf(a),
        end matches Some(p) ==> p.0 < a.ports@.len(),
    ensures
        r == end_graph(a, end),
{
    match end {
        Some(p) => match a.ports[p.0].node {
            Some(n) => a.nodes[n.0].graph,
            None => None,
        },
        None => None,
    }
}

/// Whether two optional graphs are the same.
fn same_graph(x: Option<LGraphId>, y: Option<LGraphId>) -> (r: bool)
    ensures
        r == (x == y),
{
    match (x, y) {
        (Some(g), Some(h)) => g.0 == h.0,
        (None, None) => true,
        _ => false,
    }
}

/// A graph reachable from `root` extends by a nested graph.
proof fn lemma_hierarchy_extend(a: &LGraphArena, root: LGraphId, g: LGraphId, h: LGraphId)
    requires
        in_hierarchy(a, root, g),
        nests(a, g, h),
    ensures
        in_hierarchy(a, root, h),
{
    let p = choose|p: Seq<LGraphId>| #[trigger] hierarchy_path(a, p) && p[0] == root && p.last() == g;
    let q = p.push(h);
    assert forall|i: int| 0 <= i < q.len() - 1 implies #[trigger] nests(a, q[i], q[i + 1]) by {
        if i < p.len() - 1 {
            assert(q[i] == p[i]);
            assert(q[i + 1] == p[i + 1]);
        } else {
            assert(q[i] == g);
            assert(q[i + 1] == h);
        }
    }
    assert(hierarchy_path(a, q));
}

/// The root lies in its own hierarchy.
proof fn lemma_hierarchy_root(a: &LGraphArena, root: LGraphId)
    ensures
        in_hierarchy(a, root, root),
{
    assert(hierarchy_path(a, seq![root]));
}

/// A set of graphs holding the root and closed under nesting holds the
/// whole hierarchy.
proof fn lemma_hierarchy_closed(a: &LGraphArena, root: LGraphId, visited: Seq<bool>, g: LGraphId)
    requires
        arena_wf(a),
        visited.len() == a.graphs@.len(),
        root.0 < a.graphs@.len(),
        visited[root.0 as int],
        forall|x: LGraphId, y: LGraphId| x.0 < a.graphs@.len() && visited[x.0 as int] && #[trigger] nests(a, x, y) ==> visited[y.0 as int],
        in_hierarchy(a, root, g),
    ensures
        g.0 < a.graphs@.len(),
        visited[g.0 as int],
{
    let p = choose|p: Seq<LGraphId>| #[trigger] hierarchy_path(a, p) && p[0] == root && p.last() == g;
    lemma_path_visited(a, p, visited, p.len() - 1);
}

proof fn lemma_path_visited(a: &LGraphArena, p: Seq<LGraphId>, visited: Seq<bool>, i: int)
    requires
        arena_wf(a),
        hierarchy_path(a, p),
        0 <= i < p.len(),
        visited.len() == a.graphs@.len(),
        p[0].0 < a.graphs@.len(),
        visited[p[0].0 as int],
        forall|x: LGraphId, y: LGraphId| x.0 < a.graphs@.len() && visited[x.0 as int] && #[trigger] nests(a, x, y) ==> visited[y.0 as int],
    ensures
        p[i].0 < a.graphs@.len(),
        visited[p[i].0 as int],
    decreases i,
{
    if i > 0 {
        lemma_path_visited(a, p, visited, i - 1);
        assert(nests(a, p[i - 1], p[(i - 1) + 1]));
        let k = choose|k: int| 0 <= k < a.graphs@[p[i - 1].0 as int].layerless_nodes@.len()
            && a.nodes@[(#[trigger] a.graphs@[p[i - 1].0 as int].layerless_nodes@[k]).0 as int].nested_graph == Some(p[i]);
        let n = a.graphs@[p[i - 1].0 as int].layerless_nodes@[k];
        assert(n.0 < a.nodes@.len());
        assert(a.nodes@[n.0 as int].nested_graph == Some(p[i]));
    }
}

/// Whether some node of graph `g` has an outgoing edge crossing levels;
/// on the way, the graphs nested in the nodes checked are pushed on
/// `stack`, in order.
fn check_graph(a: &LGraphArena, g: LGraphId, stack: &mut Vec<LGraphId>) -> (r: bool)
    requires
        arena_wf(a),
        g.0 < a.graphs@.len(),
    ensures
        r == graph_has_crossing(a, g),
        final(stack)@.len() >= old(stack)@.len(),
        final(stack)@.take(old(stack)@.len() as int) == old(stack)@,
        forall|j: int| old(stack)@.len() <= j < final(stack)@.len() ==> nests(a, g, #[trigger] final(stack)@[j]),
        !r ==> forall|h: LGraphId| #[trigger] nests(a, g, h) ==> final(stack)@.contains(h),
{
    broadcast use vstd::seq_lib::lemma_seq_contains_after_push;
    let ghost s0 = stack@;
    let nn = a.graphs[g.0].layerless_nodes.len();
    let mut k: usize = 0;
    while k < nn
        invariant
            arena_wf(a),
            g.0 < a.graphs@.len(),
            nn == a.graphs@[g.0 as int].layerless_nodes@.len(),
            k <= nn,
            forall|k2: int| 0 <= k2 < k ==> !#[trigger] node_has_crossing(a, a.graphs@[g.0 as int].layerless_nodes@[k2]),
            s0 == old(stack)@,
            stack@.len() >= s0.len(),
            stack@.take(s0.len() as int) == s0,
            forall|j: int| s0.len() <= j < stack@.len() ==> nests(a, g, #[trigger] stack@[j]),
            forall|k2: int| 0 <= k2 < k ==> (a.nodes@[(#[trigger] a.graphs@[g.0 as int].layerless_nodes@[k2]).0 as int].nested_graph matches Some(h)
                ==> stack@.contains(h)),
        decreases nn - k,
    {
        let node = a.graphs[g.0].layerless_nodes[k];
        if node_crossing(a, node) {
            proof {
                assert(node_has_crossing(a, a.graphs@[g.0 as int].layerless_nodes@[k as int]));
            }
            return true;
        }
        let ghost before = stack@;
        proof {
            assert(a.graphs@[g.0 as int].layerless_nodes@[k as int] == node);
        }
        if let Some(nested) = a.nodes[node.0].nested_graph {
            stack.push(nested);
            proof {
                assert(nests(a, g, nested)) by {
                    assert(a.graphs@[g.0 as int].layerless_nodes@[k as int] == node);
                }
                assert(stack@.take(s0.len() as int) =~= before.take(s0.len() as int));
                assert forall|j: int| s0.len() <= j < stack@.len() implies nests(a, g, #[trigger] stack@[j]) by {
                    if j < before.len() {
                        assert(stack@[j] == before[j]);
                    }
                }
                assert forall|k2: int| 0 <= k2 < k + 1 implies (a.nodes@[(#[trigger] a.graphs@[g.0 as int].layerless_nodes@[k2]).0 as int].nested_graph matches Some(h)
                    ==> stack@.contains(h)) by {
                    if k2 == k {
                        assert(a.graphs@[g.0 as int].layerless_nodes@[k2] == node);
                        assert(stack@[stack@.len() - 1] == nested);
                    } else if let Some(h) = a.nodes@[a.graphs@[g.0 as int].layerless_nodes@[k2].0 as int].nested_graph {
                        assert(before.contains(h));
                        let w = choose|w: int| 0 <= w < before.len() && before[w] == h;
                        assert(stack@[w] == h);
                    }
                }
            }
        }
        k = k + 1;
    }
    proof {
        assert forall|h: LGraphId| #[trigger] nests(a, g, h) implies stack@.contains(h) by {
            let k2 = choose|k2: int| 0 <= k2 < a.graphs@[g.0 as int].layerless_nodes@.len()
                && a.nodes@[(#[trigger] a.graphs@[g.0 as int].layerless_nodes@[k2]).0 as int].nested_graph == Some(h);
        }
    }
    false
}

/// Whether some edge in the hierarchy below (and including) graph `lgraph`
/// connects nodes of different graphs: searched depth-first over the
/// graphs nested in the nodes, each graph once.
pub fn has_cross_hierarchy_edge(a: &LGraphArena, lgraph: LGraphId) -> (r: bool)
    requires
        arena_wf(a),
        lgraph.0 < a.graphs@.len(),
    ensures
        r == exists|g: LGraphId| in_hierarchy(a, lgraph, g) && #[trigger] graph_has_crossing(a, g),
{
    broadcast use vstd::seq_lib::lemma_seq_contains_after_push;
    let n = a.graphs.len();
    let mut visited: Vec<bool> = Vec::new();
    let mut i: usize = 0;
    while i < n
        invariant
            n == a.graphs@.len(),
            i <= n,
            visited@.len() == i,
            forall|j: int| 0 <= j < i ==> !#[trigger] visited@[j],
        decreases n - i,
    {
        visited.push(false);
        i = i + 1;
    }
    let mut stack: Vec<LGraphId> = Vec::new();
    stack.push(lgraph);
    proof {
        lemma_hierarchy_root(a, lgraph);
        assert(stack@[0] == lgraph);
    }
    while stack.len() > 0
        invariant
            arena_wf(a),
            lgraph.0 < a.graphs@.len(),
            visited@.len() == a.graphs@.len(),
            forall|j: int| 0 <= j < stack@.len() ==> (#[trigger] stack@[j]).0 < a.graphs@.len() && in_hierarchy(a, lgraph, stack@[j]),
            forall|x: LGraphId| x.0 < a.graphs@.len() && #[trigger] visited@[x.0 as int] ==> in_hierarchy(a, lgraph, x) && !graph_has_crossing(a, x),
            forall|x: LGraphId, y: LGraphId| x.0 < a.graphs@.len() && visited@[x.0 as int] && #[trigger] nests(a, x, y) ==> visited@[y.0 as int] || stack@.contains(y),
            visited@[lgraph.0 as int] || stack@.contains(lgraph),
        decreases false_count(visited@), stack@.len(),
    {
        let ghost s_before = stack@;
        let g = stack.pop().unwrap();
        proof {
            assert(s_before.last() == g);
            assert(stack@ =~= s_before.drop_last());
            assert(g.0 < a.graphs@.len() && in_hierarchy(a, lgraph, g)) by {
                assert(s_before[s_before.len() - 1] == g);
            }
            assert forall|y: LGraphId| s_before.contains(y) && y != g implies stack@.contains(y) by {
                let w = choose|w: int| 0 <= w < s_before.len() && s_before[w] == y;
                assert(w < s_before.len() - 1);
                assert(stack@[w] == y);
            }
        }
        if !visited[g.0] {
            let ghost v_before = visited@;
            visited.set(g.0, true);
            proof {
                lemma_false_count_set(v_before, g.0 as int);
            }
            let ghost s_mid = stack@;
            if check_graph(a, g, &mut stack) {
                return true;
            }
            proof {
                assert forall|j: int| 0 <= j < stack@.len() implies (#[trigger] stack@[j]).0 < a.graphs@.len() && in_hierarchy(a, lgraph, stack@[j]) by {
                    if j < s_mid.len() {
                        assert(stack@.take(s_mid.len() as int)[j] == stack@[j]);
                        assert(s_mid[j] == s_before[j]);
                    } else {
                        let h = stack@[j];
                        assert(nests(a, g, h));
                        lemma_hierarchy_extend(a, lgraph, g, h);
                        let k = choose|k: int| 0 <= k < a.graphs@[g.0 as int].layerless_nodes@.len()
                            && a.nodes@[(#[trigger] a.graphs@[g.0 as int].layerless_nodes@[k]).0 as int].nested_graph == Some(h);
                        let nd = a.graphs@[g.0 as int].layerless_nodes@[k];
                        assert(nd.0 < a.nodes@.len());
                    }
                }
                assert forall|y: LGraphId| s_mid.contains(y) implies stack@.contains(y) by {
                    let w = choose|w: int| 0 <= w < s_mid.len() && s_mid[w] == y;
                    assert(stack@.take(s_mid.len() as int)[w] == stack@[w]);
                }
                assert forall|x: LGraphId| x.0 < a.graphs@.len() && #[trigger] visited@[x.0 as int] implies in_hierarchy(a, lgraph, x) && !graph_has_crossing(a, x) by {
                    if x.0 != g.0 {
                        assert(v_before[x.0 as int]);
                    } else {
                        assert(x == g);
                    }
                }
                assert forall|x: LGraphId, y: LGraphId| x.0 < a.graphs@.len() && visited@[x.0 as int] && #[trigger] nests(a, x, y) implies visited@[y.0 as int] || stack@.contains(y) by {
                    if x.0 == g.0 {
                        assert(x == g);
                    } else {
                        assert(v_before[x.0 as int]);
                        if !v_before[y.0 as int] {
                            assert(s_before.contains(y));
                            if y != g {
                                assert(s_mid.contains(y));
                            }
                        }
                    }
                }
            }
        } else {
            proof {
                assert forall|x: LGraphId, y: LGraphId| x.0 < a.graphs@.len() && visited@[x.0 as int] && #[trigger] nests(a, x, y) implies visited@[y.0 as int] || stack@.contains(y) by {
                    if !visited@[y.0 as int] {
                        assert(s_before.contains(y));
                    }
                }
            }
        }
    }
    proof {
        assert(visited@[lgraph.0 as int]);
        assert forall|g: LGraphId| in_hierarchy(a, lgraph, g) implies !#[trigger] graph_has_crossing(a, g) by {
            lemma_hierarchy_closed(a, lgraph, visited@, g);
        }
    }
    false
}

/// One segment of an edge that crosses hierarchy levels: the part of the
/// whole edge that lies in one graph of the hierarchy.
#[derive(Clone, Copy, Debug, PartialEq, Eq, Structural)]
pub struct CrossHierarchyEdge {
    pub edge: LEdgeId,
    pub graph: LGraphId,
    pub source_port: Option<LPortId>,
    pub target_port: Option<LPortId>,
}

/// For each edge that crosses hierarchy levels, its segments in hierarchy
/// order; the edges in the order they were entered.
pub struct CrossHierarchyMap(pub IndexMap<LEdgeId, Vec<CrossHierarchyEdge>>);

/// Two entry lists hold the same edges with equal segment lists, in
/// whatever order.
pub open spec fn same_segments(
    x: Seq<(LEdgeId, Seq<CrossHierarchyEdge>)>,
    y: Seq<(LEdgeId, Seq<CrossHierarchyEdge>)>,
) -> bool {
    &&& x.len() == y.len()
    &&& forall|i: int| 0 <= i < x.len() ==> (#[trigger] find_edge(y, x[i].0) matches Some(j) && y[j].1 == x[i].1)
}

/// Whether two segment lists are equal.
fn same_segment_list(a: &Vec<CrossHierarchyEdge>, b: &Vec<CrossHierarchyEdge>) -> (r: bool)
    ensures
        r == (a@ == b@),
{
    if a.len() != b.len() {
        return false;
    }
    let mut i: usize = 0;
    while i < a.len()
        invariant
            a@.len() == b@.len(),
            i <= a@.len(),
            forall|j: int| 0 <= j < i ==> a@[j] == b@[j],
        decreases a@.len() - i,
    {
        if a[i] != b[i] {
            return false;
        }
        i = i + 1;
    }
    proof {
        assert(a@ =~= b@);
    }
    true
}

impl CrossHierarchyMap {
    /// An empty map.
    pub fn new() -> (r: Self)
        ensures
            segment_entries(r.0) == Seq::<(LEdgeId, Seq<CrossHierarchyEdge>)>::empty(),
    {
        CrossHierarchyMap(segments_new())
    }

    /// A copy of the map: the same entries in the same order.
    pub fn duplicate(&self) -> (r: Self)
        ensures
            segment_entries(r.0) == segment_entries(self.0),
    {
        CrossHierarchyMap(segments_clone(&self.0))
    }

    /// Whether the two maps hold the same edges with equal segment lists,
    /// whatever the order of their entries.
    pub fn equals(&self, other: &Self) -> (r: bool)
        ensures
            r == same_segments(segment_entries(self.0), segment_entries(other.0)),
    {
        let x = Ghost(segment_entries(self.0));
        let y = Ghost(segment_entries(other.0));
        let n = segments_len(&self.0);
        if n != segments_len(&other.0) {
            return false;
        }
        let mut i: usize = 0;
        while i < n
            invariant
                x@ == segment_entries(self.0),
                y@ == segment_entries(other.0),
                n == x@.len(),
                n == y@.len(),
                i <= n,
                forall|j: int| 0 <= j < i ==> (#[trigger] find_edge(y@, x@[j].0) matches Some(k) && y@[k].1 == x@[j].1),
            decreases n - i,
        {
            let entry = segments_get_index(&self.0, i);
            let (k, v) = entry.unwrap();
            let found = segments_get(&other.0, k);
            match found {
                Some(w) => {
                    if !same_segment_list(v, w) {
                        proof {
                            assert(!(find_edge(y@, x@[i as int].0) matches Some(kk) && y@[kk].1 == x@[i as int].1));
                        }
                        return false;
                    }
                },
                None => {
                    proof {
                        assert(find_edge(y@, x@[i as int].0) is None);
                    }
                    return false;
                },
            }
            i = i + 1;
        }
        true
    }
}

impl Default for CrossHierarchyMap {
    fn default() -> (r: Self)
        ensures
            segment_entries(r.0) == Seq::<(LEdgeId, Seq<CrossHierarchyEdge>)>::empty(),
    {
        CrossHierarchyMap::new()
    }
}

impl PartialEq for CrossHierarchyMap {
    fn eq(&self, other: &Self) -> (r: bool) {
        self.equals(other)
    }
}

impl vstd::std_specs::cmp::PartialEqSpecImpl for CrossHierarchyMap {
    open spec fn obeys_eq_spec() -> bool {
        true
    }

    open spec fn eq_spec(&self, other: &Self) -> bool {
        same_segments(segment_entries(self.0), segment_entries(other.0))
    }
}

/// The key under which a graph keeps its cross-hierarchy map.
pub open spec fn cross_hierarchy_map_id() -> Seq<char> {
    "crossHierarchyMap"@
}

/// Prepares a compound graph for layout, for compound graphs whose
/// edges all stay within one hierarchy level (the splitting of
/// cross-hierarchy edges is not supported): an edge crossing levels
/// anywhere in the hierarchy is an error, and otherwise the graph gets an
/// empty cross-hierarchy map, which the postprocessor reads back.
pub fn preprocess(a: &mut LGraphArena, lgraph: LGraphId) -> (r: Result<(), String>)
    requires
        arena_wf(old(a)),
        lgraph.0 < old(a).graphs@.len(),
    ensures
        arena_wf(final(a)),
        r is Err <==> exists|g: LGraphId| in_hierarchy(old(a), lgraph, g) && #[trigger] graph_has_crossing(old(a), g),
        r is Err ==> final(a).graphs@ == old(a).graphs@,
        r is Ok ==> {
            let before = old(a).graphs@[lgraph.0 as int];
            let after = final(a).graphs@[lgraph.0 as int];
            &&& final(a).graphs@.len() == old(a).graphs@.len()
            &&& forall|h: int| 0 <= h < old(a).graphs@.len() && h != lgraph.0 ==> #[trigger] final(a).graphs@[h] == old(a).graphs@[h]
            &&& after.id == before.id
            &&& after.layerless_nodes == before.layerless_nodes
            &&& lookup(after.properties@, cross_hierarchy_map_id()) matches Some(StoredValue::CrossHierarchy(m))
                && segment_entries(m.0).len() == 0
            &&& after.properties@ == put(
                before.properties@,
                cross_hierarchy_map_id(),
                lookup(after.properties@, cross_hierarchy_map_id()).unwrap(),
            )
        },
        final(a).nodes@ == old(a).nodes@,
        final(a).ports@ == old(a).ports@,
        final(a).edges@ == old(a).edges@,
        final(a).labels@ == old(a).labels@,
{
    if has_cross_hierarchy_edge(a, lgraph) {
        return Err(String::from_str("splitting cross-hierarchy edges is not supported"));
    }
    let ghost a0 = *a;
    let mut g = a.take_graph(lgraph);
    g.properties.keys_are_unique();
    let ghost p0 = g.properties@;
    let map = Rc::new(CrossHierarchyMap::new());
    let ghost v = StoredValue::CrossHierarchy(map);
    g.properties.set_by_id("crossHierarchyMap", StoredValue::CrossHierarchy(map));
    proof {
        crate::property_map::lemma_put(p0, cross_hierarchy_map_id(), v);
        assert(g.properties@ == put(p0, cross_hierarchy_map_id(), v));
    }
    a.put_graph(lgraph, g);
    proof {
        assert forall|h: int, k: int| 0 <= h < a.graphs@.len() && 0 <= k < a.graphs@[h].layerless_nodes@.len() implies (
            #[trigger] a.graphs@[h].layerless_nodes@[k]).0 < a.nodes@.len() by {
            assert(a.graphs@[h].layerless_nodes == a0.graphs@[h].layerless_nodes);
            assert(a0.graphs@[h].layerless_nodes@[k] == a.graphs@[h].layerless_nodes@[k]);
        }
    }
    Ok(())
}

/// Finishes the layout of a compound graph: with no cross-hierarchy
/// edges there is no dummy edge to remove, so nothing changes.
pub fn postprocess(a: &mut LGraphArena, lgraph: LGraphId) -> (r: Result<(), String>)
    ensures
        r is Ok,
        final(a).graphs@ == old(a).graphs@,
        final(a).nodes@ == old(a).nodes@,
        final(a).ports@ == old(a).ports@,
        final(a).edges@ == old(a).edges@,
        final(a).labels@ == old(a).labels@,
{
    Ok(())
}

} // verus!
