//! Handles of the layout options and internal properties that the layered
//! algorithm's structural passes read and write.

use vstd::prelude::*;
use crate::options::{ComponentOrderingStrategy, Direction, EdgeLabelPlacement, GraphProperties, PortConstraints, PortSide};
use crate::properties::EnumSet;
use crate::property_map::{Property, StoredValue};

verus! {

pub open spec fn separate_connected_components_id() -> Seq<char> {
    "org.eclipse.elk.separateConnectedComponents"@
}

/// Whether the connected components are laid out separately (default true).
pub fn separate_connected_components() -> (r: Property<bool>)
    ensures
        r.id@ == separate_connected_components_id(),
        r.default == Some(true),
{
    Property::with_default("org.eclipse.elk.separateConnectedComponents", true)
}

pub open spec fn port_constraints_id() -> Seq<char> {
    "org.eclipse.elk.portConstraints"@
}

/// How freely the ports of a node may be moved.
pub fn port_constraints() -> (r: Property<PortConstraints>)
    ensures
        r.id@ == port_constraints_id(),
        r.default == Some(PortConstraints::UNDEFINED),
{
    Property::with_default("org.eclipse.elk.portConstraints", PortConstraints::UNDEFINED)
}

pub open spec fn consider_model_order_components_id() -> Seq<char> {
    "org.eclipse.elk.layered.considerModelOrder.components"@
}

/// Whether components are ordered by the model order.
pub fn consider_model_order_components() -> (r: Property<ComponentOrderingStrategy>)
    ensures
        r.id@ == consider_model_order_components_id(),
        r.default == Some(ComponentOrderingStrategy::NONE),
{
    Property::with_default("org.eclipse.elk.layered.considerModelOrder.components", ComponentOrderingStrategy::NONE)
}

pub open spec fn node_size_minimum_id() -> Seq<char> {
    "org.eclipse.elk.nodeSize.minimum"@
}

/// The minimal size of a node; its values are vectors of coordinates, which
/// the geometric passes store.
pub fn node_size_minimum() -> (r: Property<StoredValue>)
    ensures
        r.id@ == node_size_minimum_id(),
        r.default is None,
{
    Property::new("org.eclipse.elk.nodeSize.minimum")
}

pub open spec fn edge_labels_placement_id() -> Seq<char> {
    "org.eclipse.elk.edgeLabels.placement"@
}

/// Where an edge label sits along its edge.
pub fn edge_labels_placement() -> (r: Property<EdgeLabelPlacement>)
    ensures
        r.id@ == edge_labels_placement_id(),
        r.default == Some(EdgeLabelPlacement::CENTER),
{
    Property::with_default("org.eclipse.elk.edgeLabels.placement", EdgeLabelPlacement::CENTER)
}

pub open spec fn direction_id() -> Seq<char> {
    "org.eclipse.elk.direction"@
}

/// The overall direction of the layout.
pub fn direction() -> (r: Property<Direction>)
    ensures
        r.id@ == direction_id(),
        r.default == Some(Direction::UNDEFINED),
{
    Property::with_default("org.eclipse.elk.direction", Direction::UNDEFINED)
}

pub open spec fn graph_properties_id() -> Seq<char> {
    "graphProperties"@
}

/// Structural features found in a graph.
pub fn graph_properties() -> (r: Property<EnumSet<GraphProperties>>)
    ensures
        r.id@ == graph_properties_id(),
        r.default matches Some(d) && d@ == Set::<GraphProperties>::empty(),
{
    Property::with_default("graphProperties", EnumSet::none())
}

pub open spec fn ext_port_side_id() -> Seq<char> {
    "externalPortSide"@
}

/// The side of the graph an external port dummy stands for.
pub fn ext_port_side() -> (r: Property<PortSide>)
    ensures
        r.id@ == ext_port_side_id(),
        r.default == Some(PortSide::UNDEFINED),
{
    Property::with_default("externalPortSide", PortSide::UNDEFINED)
}

pub open spec fn ext_port_connections_id() -> Seq<char> {
    "externalPortConnections"@
}

/// The sides of the graph that a component connects to through external ports.
pub fn ext_port_connections() -> (r: Property<EnumSet<PortSide>>)
    ensures
        r.id@ == ext_port_connections_id(),
        r.default matches Some(d) && d@ == Set::<PortSide>::empty(),
{
    Property::with_default("externalPortConnections", EnumSet::none())
}

pub open spec fn input_collect_id() -> Seq<char> {
    "inputCollect"@
}

/// Marks the port that collects all incoming edges of a node.
pub fn input_collect() -> (r: Property<bool>)
    ensures
        r.id@ == input_collect_id(),
        r.default == Some(false),
{
    Property::with_default("inputCollect", false)
}

pub open spec fn output_collect_id() -> Seq<char> {
    "outputCollect"@
}

/// Marks the port that collects all outgoing edges of a node.
pub fn output_collect() -> (r: Property<bool>)
    ensures
        r.id@ == output_collect_id(),
        r.default == Some(false),
{
    Property::with_default("outputCollect", false)
}

pub open spec fn reversed_id() -> Seq<char> {
    "reversed"@
}

/// Marks an edge that was reversed to break a cycle.
pub fn reversed() -> (r: Property<bool>)
    ensures
        r.id@ == reversed_id(),
        r.default == Some(false),
{
    Property::with_default("reversed", false)
}

pub open spec fn merge_edges_id() -> Seq<char> {
    "org.eclipse.elk.layered.mergeEdges"@
}

/// Whether the edges of a node are merged into one port per side.
pub fn merge_edges() -> (r: Property<bool>)
    ensures
        r.id@ == merge_edges_id(),
        r.default == Some(false),
{
    Property::with_default("org.eclipse.elk.layered.mergeEdges", false)
}

pub open spec fn hypernode_id() -> Seq<char> {
    "org.eclipse.elk.hypernode"@
}

/// Whether a node is a hypernode, whose edges all meet at one port.
pub fn hypernode() -> (r: Property<bool>)
    ensures
        r.id@ == hypernode_id(),
        r.default == Some(false),
{
    Property::with_default("org.eclipse.elk.hypernode", false)
}

pub open spec fn priority_id() -> Seq<char> {
    "org.eclipse.elk.priority"@
}

/// The priority of an element (default 0).
pub fn priority() -> (r: Property<i32>)
    ensures
        r.id@ == priority_id(),
        r.default == Some(0i32),
{
    Property::with_default("org.eclipse.elk.priority", 0)
}

pub open spec fn compaction_connected_components_id() -> Seq<char> {
    "org.eclipse.elk.layered.compaction.connectedComponents"@
}

/// Whether the connected components are compacted after placement.
pub fn compaction_connected_components() -> (r: Property<bool>)
    ensures
        r.id@ == compaction_connected_components_id(),
        r.default == Some(false),
{
    Property::with_default("org.eclipse.elk.layered.compaction.connectedComponents", false)
}

} // verus!
