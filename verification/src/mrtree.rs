//! The tree layouter's graph model: nodes and edges live in one arena and
//! refer to each other by index; graphs (the whole tree and its components)
//! list the indices of their elements.
//!
//! Only the structure, the properties and the integer bookkeeping of the
//! layout are held here; coordinates belong to the geometric passes.

use vstd::prelude::*;
use crate::properties::{java_int_string, JavaString};
use crate::property_map::{put, read, Property, PropValue, PropertyHolder, PropertyMap};
use vstd::pervasive::VecAdditionalExecFns;

verus! {

/// Java's reference comparison of two boxed `Integer` values
/// (`getProperty(TREE_LEVEL) != getProperty(TREE_LEVEL)`): equal values
/// share one object only inside the `Integer` cache range -128..=127, so
/// outside it two boxings always differ.
pub fn integer_ref_neq(a: i32, b: i32) -> (r: bool)
    ensures
        r == (a != b || a < -128 || a > 127),
{
    a != b || !(-128 <= a && a <= 127)
}

#[derive(Clone, Copy, Debug, PartialEq, Eq, Structural, Hash)]
pub struct TNodeId(pub u32);

#[derive(Clone, Copy, Debug, PartialEq, Eq, Structural, Hash)]
pub struct TEdgeId(pub u32);

impl TNodeId {
    /// The position of the node in the arena.
    pub fn index(self) -> (r: usize)
        ensures
            r == self.0,
    {
        self.0 as usize
    }
}

impl TEdgeId {
    /// The position of the edge in the arena.
    pub fn index(self) -> (r: usize)
        ensures
            r == self.0,
    {
        self.0 as usize
    }
}

/// A node of the tree graph.
pub struct TNode {
    /// A public number, reassigned by several processors.
    pub id: i32,
    pub label: String,
    pub properties: PropertyMap,
    /// The index of the input node it stands for.
    pub origin: Option<usize>,
    pub outgoing: Vec<TEdgeId>,
    pub incoming: Vec<TEdgeId>,
    pub root: bool,
    pub dummy: bool,
    pub fan: i32,
    pub descendants: i32,
    pub id_string: String,
    pub position: i32,
    pub left_neighbor: Option<TNodeId>,
    pub right_neighbor: Option<TNodeId>,
    pub left_sibling: Option<TNodeId>,
    pub right_sibling: Option<TNodeId>,
    pub xcoor: i32,
    pub ycoor: i32,
    pub compact_level_ascension: bool,
    pub compact_constraints: Vec<TNodeId>,
}

/// An edge of the tree graph.
pub struct TEdge {
    pub source: TNodeId,
    pub target: TNodeId,
    pub properties: PropertyMap,
    /// The index of the input edge it stands for.
    pub origin: Option<usize>,
    pub dummy: bool,
}

/// Owner of every node and edge of a tree layout run.
pub struct TArena {
    pub nodes: Vec<TNode>,
    pub edges: Vec<TEdge>,
}

/// A tree graph: indices into a shared arena.
pub struct TGraph {
    pub properties: PropertyMap,
    pub nodes: Vec<TNodeId>,
    pub edges: Vec<TEdgeId>,
    /// The index of the input node the graph stands for.
    pub origin: Option<usize>,
    pub removable_edges: Vec<TEdgeId>,
    pub priority: i32,
}

/// Every index stored in the arena refers to an element of the arena.
pub open spec fn tree_wf(a: &TArena) -> bool {
    &&& forall|e: int| 0 <= e < a.edges@.len() ==> (#[trigger] a.edges@[e]).source.0 < a.nodes@.len() && a.edges@[e].target.0 < a.nodes@.len()
    &&& forall|n: int, k: int| 0 <= n < a.nodes@.len() && 0 <= k < a.nodes@[n].outgoing@.len() ==> (#[trigger] a.nodes@[n].outgoing@[k]).0 < a.edges@.len()
    &&& forall|n: int, k: int| 0 <= n < a.nodes@.len() && 0 <= k < a.nodes@[n].incoming@.len() ==> (#[trigger] a.nodes@[n].incoming@[k]).0 < a.edges@.len()
}

/// A node just created with the given id and label: every other field is
/// unset, zero or empty.
pub open spec fn fresh_tnode(n: TNode, id: i32, label: Seq<char>) -> bool {
    &&& n.id == id
    &&& n.label@ == label
    &&& n.properties@.len() == 0
    &&& n.origin is None
    &&& n.outgoing@.len() == 0
    &&& n.incoming@.len() == 0
    &&& !n.root
    &&& !n.dummy
    &&& n.fan == 0
    &&& n.descendants == 0
    &&& n.id_string@.len() == 0
    &&& n.position == 0
    &&& n.left_neighbor is None
    &&& n.right_neighbor is None
    &&& n.left_sibling is None
    &&& n.right_sibling is None
    &&& n.xcoor == 0
    &&& n.ycoor == 0
    &&& !n.compact_level_ascension
    &&& n.compact_constraints@.len() == 0
}

/// How a node prints: `n_` and the label, or the id if the label is
/// empty.
pub open spec fn tnode_string(n: TNode) -> Seq<char> {
    seq!['n', '_'] + if n.label@.len() == 0 {
        java_int_string(n.id as int)
    } else {
        n.label@
    }
}

pub open spec fn tree_level_id() -> Seq<char> {
    "org.eclipse.elk.mrtree.treeLevel"@
}

/// The level of a node in the tree (default 0).
pub fn tree_level_property() -> (r: Property<i32>)
    ensures
        r.id@ == tree_level_id(),
        r.default == Some(0i32),
{
    Property::with_default("org.eclipse.elk.mrtree.treeLevel", 0)
}

impl TNode {
    /// A node with the given id and label, every other field unset.
    pub fn new(id: i32, label: String) -> (r: TNode)
        ensures
            fresh_tnode(r, id, label@),
    {
        TNode {
            id,
            label,
            properties: PropertyMap::new(),
            origin: None,
            outgoing: Vec::new(),
            incoming: Vec::new(),
            root: false,
            dummy: false,
            fan: 0,
            descendants: 0,
            id_string: String::new(),
            position: 0,
            left_neighbor: None,
            right_neighbor: None,
            left_sibling: None,
            right_sibling: None,
            xcoor: 0,
            ycoor: 0,
            compact_level_ascension: false,
            compact_constraints: Vec::new(),
        }
    }
}

impl TArena {
    /// An empty arena.
    pub fn new() -> (r: TArena)
        ensures
            tree_wf(&r),
            r.nodes@.len() == 0,
            r.edges@.len() == 0,
    {
        TArena { nodes: Vec::new(), edges: Vec::new() }
    }

    /// The node with the given id.
    pub fn node(&self, id: TNodeId) -> (r: &TNode)
        requires
            id.0 < self.nodes@.len(),
        ensures
            *r == self.nodes@[id.0 as int],
    {
        &self.nodes[id.index()]
    }

    /// The node with the given id, to change in place: the arena afterwards
    /// holds at that position what the node was changed to.
    pub fn node_mut(&mut self, id: TNodeId) -> (r: &mut TNode)
        requires
            id.0 < old(self).nodes@.len(),
        ensures
            *r == old(self).nodes@[id.0 as int],
            final(self).nodes@ == old(self).nodes@.update(id.0 as int, *final(r)),
            final(self).edges@ == old(self).edges@,
    {
        &mut self.nodes[id.index()]
    }

    /// The edge with the given id.
    pub fn edge(&self, id: TEdgeId) -> (r: &TEdge)
        requires
            id.0 < self.edges@.len(),
        ensures
            *r == self.edges@[id.0 as int],
    {
        &self.edges[id.index()]
    }

    /// The edge with the given id, to change in place: the arena afterwards
    /// holds at that position what the edge was changed to.
    pub fn edge_mut(&mut self, id: TEdgeId) -> (r: &mut TEdge)
        requires
            id.0 < old(self).edges@.len(),
        ensures
            *r == old(self).edges@[id.0 as int],
            final(self).edges@ == old(self).edges@.update(id.0 as int, *final(r)),
            final(self).nodes@ == old(self).nodes@,
    {
        &mut self.edges[id.index()]
    }

    /// Adds a node with the given id and label.
    pub fn create_node(&mut self, id: i32, label: String) -> (r: TNodeId)
        requires
            tree_wf(old(self)),
            old(self).nodes@.len() < 0x1_0000_0000,
        ensures
            tree_wf(final(self)),
            r.0 == old(self).nodes@.len(),
            final(self).nodes@.len() == old(self).nodes@.len() + 1,
            final(self).nodes@.drop_last() == old(self).nodes@,
            fresh_tnode(final(self).nodes@.last(), id, label@),
            final(self).edges@ == old(self).edges@,
    {
        let ghost a0 = *self;
        let r = TNodeId(self.nodes.len() as u32);
        self.nodes.push(TNode::new(id, label));
        proof {
            assert(self.nodes@.drop_last() =~= a0.nodes@);
            assert forall|n: int, k: int| 0 <= n < self.nodes@.len() && 0 <= k < self.nodes@[n].outgoing@.len() implies (
                #[trigger] self.nodes@[n].outgoing@[k]).0 < self.edges@.len() by {
                if n < a0.nodes@.len() {
                    assert(self.nodes@[n] == a0.nodes@[n]);
                }
            }
            assert forall|n: int, k: int| 0 <= n < self.nodes@.len() && 0 <= k < self.nodes@[n].incoming@.len() implies (
                #[trigger] self.nodes@[n].incoming@[k]).0 < self.edges@.len() by {
                if n < a0.nodes@.len() {
                    assert(self.nodes@[n] == a0.nodes@[n]);
                }
            }
        }
        r
    }

    /// Adds an edge from `source` to `target`; the nodes' edge lists are
    /// left as they are.
    pub fn create_edge(&mut self, source: TNodeId, target: TNodeId) -> (r: TEdgeId)
        requires
            tree_wf(old(self)),
            source.0 < old(self).nodes@.len(),
            target.0 < old(self).nodes@.len(),
            old(self).edges@.len() < 0x1_0000_0000,
        ensures
            tree_wf(final(self)),
            r.0 == old(self).edges@.len(),
            final(self).edges@.len() == old(self).edges@.len() + 1,
            final(self).edges@.drop_last() == old(self).edges@,
            final(self).edges@.last().source == source,
            final(self).edges@.last().target == target,
            final(self).edges@.last().properties@.len() == 0,
            final(self).edges@.last().origin is None,
            !final(self).edges@.last().dummy,
            final(self).nodes@ == old(self).nodes@,
    {
        let ghost a0 = *self;
        let r = TEdgeId(self.edges.len() as u32);
        self.edges.push(TEdge { source, target, properties: PropertyMap::new(), origin: None, dummy: false });
        proof {
            assert(self.edges@.drop_last() =~= a0.edges@);
            assert forall|e: int| 0 <= e < self.edges@.len() implies (#[trigger] self.edges@[e]).source.0 < self.nodes@.len()
                && self.edges@[e].target.0 < self.nodes@.len() by {
                if e < a0.edges@.len() {
                    assert(self.edges@[e] == a0.edges@[e]);
                }
            }
        }
        r
    }

    /// How the node prints (see `tnode_string`).
    pub fn node_string(&self, n: TNodeId) -> (r: String)
        requires
            n.0 < self.nodes@.len(),
        ensures
            r@ == tnode_string(self.nodes@[n.0 as int]),
    {
        let node = &self.nodes[n.index()];
        let mut out = String::from_str("n_");
        proof {
            reveal_strlit("n_");
        }
        if node.label.unicode_len() == 0 {
            let digits = node.id.java_string();
            out.append(digits.as_str());
        } else {
            out.append(node.label.as_str());
        }
        proof {
            assert(out@ =~= tnode_string(self.nodes@[n.0 as int]));
        }
        out
    }

    /// How the edge prints: `source->target`.
    pub fn edge_string(&self, e: TEdgeId) -> (r: String)
        requires
            tree_wf(self),
            e.0 < self.edges@.len(),
        ensures
            r@ == tnode_string(self.nodes@[self.edges@[e.0 as int].source.0 as int]) + seq!['-', '>']
                + tnode_string(self.nodes@[self.edges@[e.0 as int].target.0 as int]),
    {
        let edge = &self.edges[e.index()];
        let mut out = self.node_string(edge.source);
        out.append("->");
        let target = self.node_string(edge.target);
        out.append(target.as_str());
        proof {
            reveal_strlit("->");
        }
        out
    }

    /// The node's parent: the source of its first incoming edge.
    pub fn parent(&self, n: TNodeId) -> (r: Option<TNodeId>)
        requires
            tree_wf(self),
            n.0 < self.nodes@.len(),
        ensures
            r == if self.nodes@[n.0 as int].incoming@.len() == 0 {
                None
            } else {
                Some(self.edges@[self.nodes@[n.0 as int].incoming@[0].0 as int].source)
            },
    {
        let node = &self.nodes[n.index()];
        if node.incoming.len() == 0 {
            None
        } else {
            Some(self.edges[node.incoming[0].index()].source)
        }
    }

    /// The node's children: the targets of its outgoing edges, in
    /// order (a target reached twice is listed twice).
    pub fn children(&self, n: TNodeId) -> (r: Vec<TNodeId>)
        requires
            tree_wf(self),
            n.0 < self.nodes@.len(),
        ensures
            r@.len() == self.nodes@[n.0 as int].outgoing@.len(),
            forall|k: int| 0 <= k < r@.len() ==> #[trigger] r@[k] == self.edges@[self.nodes@[n.0 as int].outgoing@[k].0 as int].target,
    {
        let node = &self.nodes[n.index()];
        let mut out: Vec<TNodeId> = Vec::new();
        let mut k: usize = 0;
        while k < node.outgoing.len()
            invariant
                tree_wf(self),
                n.0 < self.nodes@.len(),
                *node == self.nodes@[n.0 as int],
                k <= node.outgoing@.len(),
                out@.len() == k,
                forall|j: int| 0 <= j < k ==> #[trigger] out@[j] == self.edges@[node.outgoing@[j].0 as int].target,
            decreases node.outgoing@.len() - k,
        {
            out.push(self.edges[node.outgoing[k].index()].target);
            k = k + 1;
        }
        out
    }

    /// Whether the node is a leaf: it has no outgoing edges.
    pub fn is_leaf(&self, n: TNodeId) -> (r: bool)
        requires
            n.0 < self.nodes@.len(),
        ensures
            r == (self.nodes@[n.0 as int].outgoing@.len() == 0),
    {
        self.nodes[n.index()].outgoing.len() == 0
    }

    /// The node's level in the tree (its `treeLevel` property, default 0).
    pub fn tree_level(&self, n: TNodeId) -> (r: i32)
        requires
            n.0 < self.nodes@.len(),
        ensures
            r == match read::<i32>(self.nodes@[n.0 as int].properties@, tree_level_id()) {
                Some(l) => l,
                None => 0,
            },
    {
        self.nodes[n.index()].properties.get(&tree_level_property())
    }

    /// Sets the node's level in the tree.
    pub fn set_tree_level(&mut self, n: TNodeId, level: i32)
        requires
            tree_wf(old(self)),
            n.0 < old(self).nodes@.len(),
        ensures
            tree_wf(final(self)),
            final(self).nodes@.len() == old(self).nodes@.len(),
            forall|m: int| 0 <= m < old(self).nodes@.len() && m != n.0 ==> #[trigger] final(self).nodes@[m] == old(self).nodes@[m],
            final(self).nodes@[n.0 as int].properties@ == put(old(self).nodes@[n.0 as int].properties@, tree_level_id(), level.stored_spec()),
            final(self).nodes@[n.0 as int].outgoing == old(self).nodes@[n.0 as int].outgoing,
            final(self).nodes@[n.0 as int].incoming == old(self).nodes@[n.0 as int].incoming,
            final(self).nodes@[n.0 as int].id == old(self).nodes@[n.0 as int].id,
            final(self).nodes@[n.0 as int].label == old(self).nodes@[n.0 as int].label,
            final(self).edges@ == old(self).edges@,
    {
        let ghost a0 = *self;
        let mut tmp = TNode::new(0, String::new());
        self.nodes.set_and_swap(n.index(), &mut tmp);
        tmp.properties.set(&tree_level_property(), level);
        self.nodes.set_and_swap(n.index(), &mut tmp);
        proof {
            assert forall|m: int, k: int| 0 <= m < self.nodes@.len() && 0 <= k < self.nodes@[m].outgoing@.len() implies (
                #[trigger] self.nodes@[m].outgoing@[k]).0 < self.edges@.len() by {
                assert(self.nodes@[m].outgoing == a0.nodes@[m].outgoing);
                assert(a0.nodes@[m].outgoing@[k] == self.nodes@[m].outgoing@[k]);
            }
            assert forall|m: int, k: int| 0 <= m < self.nodes@.len() && 0 <= k < self.nodes@[m].incoming@.len() implies (
                #[trigger] self.nodes@[m].incoming@[k]).0 < self.edges@.len() by {
                assert(self.nodes@[m].incoming == a0.nodes@[m].incoming);
                assert(a0.nodes@[m].incoming@[k] == self.nodes@[m].incoming@[k]);
            }
        }
    }
}

/// The node with the edge `e` appended to its outgoing edges if it is
/// `parent` and to its incoming edges if it is `child`; nothing else
/// changes.
pub open spec fn linked_node(old_node: TNode, new_node: TNode, n: int, parent: TNodeId, child: TNodeId, e: TEdgeId) -> bool {
    &&& new_node.id == old_node.id
    &&& new_node.label == old_node.label
    &&& new_node.properties == old_node.properties
    &&& new_node.origin == old_node.origin
    &&& new_node.outgoing@ == if n == parent.0 {
        old_node.outgoing@.push(e)
    } else {
        old_node.outgoing@
    }
    &&& new_node.incoming@ == if n == child.0 {
        old_node.incoming@.push(e)
    } else {
        old_node.incoming@
    }
}

/// Adds a child to a node: a dummy edge from `parent` to `child` is added
/// to the arena and to the graph, as the parent's last outgoing and the
/// child's last incoming edge.
pub fn add_child(arena: &mut TArena, graph: &mut TGraph, parent: TNodeId, child: TNodeId)
    requires
        tree_wf(old(arena)),
        parent.0 < old(arena).nodes@.len(),
        child.0 < old(arena).nodes@.len(),
        old(arena).edges@.len() < 0x1_0000_0000,
    ensures
        tree_wf(final(arena)),
        final(arena).edges@.len() == old(arena).edges@.len() + 1,
        final(arena).edges@.drop_last() == old(arena).edges@,
        final(arena).edges@.last().source == parent,
        final(arena).edges@.last().target == child,
        final(arena).edges@.last().dummy,
        final(arena).edges@.last().properties@.len() == 0,
        final(arena).edges@.last().origin is None,
        final(graph).edges@ == old(graph).edges@.push(TEdgeId(old(arena).edges@.len() as u32)),
        final(graph).nodes == old(graph).nodes,
        final(graph).properties == old(graph).properties,
        final(arena).nodes@.len() == old(arena).nodes@.len(),
        forall|n: int| 0 <= n < old(arena).nodes@.len() ==> linked_node(
            old(arena).nodes@[n],
            #[trigger] final(arena).nodes@[n],
            n,
            parent,
            child,
            TEdgeId(old(arena).edges@.len() as u32),
        ),
{
    let ghost a0 = *arena;
    let e = arena.create_edge(parent, child);
    let mut tmp = TEdge { source: parent, target: child, properties: PropertyMap::new(), origin: None, dummy: false };
    arena.edges.set_and_swap(e.index(), &mut tmp);
    tmp.dummy = true;
    arena.edges.set_and_swap(e.index(), &mut tmp);
    graph.edges.push(e);
    let ghost a1 = *arena;
    let mut pn = TNode::new(0, String::new());
    arena.nodes.set_and_swap(parent.index(), &mut pn);
    pn.outgoing.push(e);
    arena.nodes.set_and_swap(parent.index(), &mut pn);
    let ghost a2 = *arena;
    let mut cn = TNode::new(0, String::new());
    arena.nodes.set_and_swap(child.index(), &mut cn);
    cn.incoming.push(e);
    arena.nodes.set_and_swap(child.index(), &mut cn);
    proof {
        assert(arena.edges@.drop_last() =~= a0.edges@);
        assert forall|n: int| 0 <= n < a0.nodes@.len() implies linked_node(a0.nodes@[n], #[trigger] arena.nodes@[n], n, parent, child, e) by {
            assert(a1.nodes@[n] == a0.nodes@[n]);
        }
        assert forall|ee: int| 0 <= ee < arena.edges@.len() implies (#[trigger] arena.edges@[ee]).source.0 < arena.nodes@.len()
            && arena.edges@[ee].target.0 < arena.nodes@.len() by {
            if ee < a0.edges@.len() {
                assert(arena.edges@[ee] == a0.edges@[ee]);
            }
        }
        assert forall|n: int, k: int| 0 <= n < arena.nodes@.len() && 0 <= k < arena.nodes@[n].outgoing@.len() implies (
            #[trigger] arena.nodes@[n].outgoing@[k]).0 < arena.edges@.len() by {
            assert(linked_node(a0.nodes@[n], arena.nodes@[n], n, parent, child, e));
            if k < a0.nodes@[n].outgoing@.len() {
                assert(arena.nodes@[n].outgoing@[k] == a0.nodes@[n].outgoing@[k]);
            }
        }
        assert forall|n: int, k: int| 0 <= n < arena.nodes@.len() && 0 <= k < arena.nodes@[n].incoming@.len() implies (
            #[trigger] arena.nodes@[n].incoming@[k]).0 < arena.edges@.len() by {
            assert(linked_node(a0.nodes@[n], arena.nodes@[n], n, parent, child, e));
            if k < a0.nodes@[n].incoming@.len() {
                assert(arena.nodes@[n].incoming@[k] == a0.nodes@[n].incoming@[k]);
            }
        }
    }
}

/// After a child is added, it is the parent's last child, and a child that
/// had no parent has the new one.
pub proof fn lemma_add_child(a0: &TArena, a1: &TArena, parent: TNodeId, child: TNodeId)
    requires
        tree_wf(a0),
        parent.0 < a0.nodes@.len(),
        child.0 < a0.nodes@.len(),
        a1.edges@.len() == a0.edges@.len() + 1,
        a1.edges@.drop_last() == a0.edges@,
        a1.edges@.last().source == parent,
        a1.edges@.last().target == child,
        a1.nodes@.len() == a0.nodes@.len(),
        a0.edges@.len() < 0x1_0000_0000,
        forall|n: int| 0 <= n < a0.nodes@.len() ==> linked_node(
            a0.nodes@[n],
            #[trigger] a1.nodes@[n],
            n,
            parent,
            child,
            TEdgeId(a0.edges@.len() as u32),
        ),
    ensures
        a1.nodes@[parent.0 as int].outgoing@.len() == a0.nodes@[parent.0 as int].outgoing@.len() + 1,
        a1.edges@[a1.nodes@[parent.0 as int].outgoing@.last().0 as int].target == child,
        a0.nodes@[child.0 as int].incoming@.len() == 0 ==> a1.edges@[a1.nodes@[child.0 as int].incoming@[0].0 as int].source == parent,
{
    assert(linked_node(a0.nodes@[parent.0 as int], a1.nodes@[parent.0 as int], parent.0 as int, parent, child, TEdgeId(a0.edges@.len() as u32)));
    assert(linked_node(a0.nodes@[child.0 as int], a1.nodes@[child.0 as int], child.0 as int, parent, child, TEdgeId(a0.edges@.len() as u32)));
    assert(a1.edges@[a0.edges@.len() as int] == a1.edges@.last());
}

impl PropertyHolder for TNode {
    open spec fn held(&self) -> PropertyMap {
        self.properties
    }

    open spec fn with_held(&self, m: PropertyMap) -> Self {
        TNode { properties: m, ..*self }
    }

    proof fn lemma_held_with(&self) {
    }

    fn properties(&self) -> (r: &PropertyMap) {
        &self.properties
    }

    fn properties_mut(&mut self) -> (r: &mut PropertyMap) {
        &mut self.properties
    }
}

impl PropertyHolder for TEdge {
    open spec fn held(&self) -> PropertyMap {
        self.properties
    }

    open spec fn with_held(&self, m: PropertyMap) -> Self {
        TEdge { properties: m, ..*self }
    }

    proof fn lemma_held_with(&self) {
    }

    fn properties(&self) -> (r: &PropertyMap) {
        &self.properties
    }

    fn properties_mut(&mut self) -> (r: &mut PropertyMap) {
        &mut self.properties
    }
}

impl PropertyHolder for TGraph {
    open spec fn held(&self) -> PropertyMap {
        self.properties
    }

    open spec fn with_held(&self, m: PropertyMap) -> Self {
        TGraph { properties: m, ..*self }
    }

    proof fn lemma_held_with(&self) {
    }

    fn properties(&self) -> (r: &PropertyMap) {
        &self.properties
    }

    fn properties_mut(&mut self) -> (r: &mut PropertyMap) {
        &mut self.properties
    }
}

} // verus!
