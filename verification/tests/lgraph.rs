use elkrs::components::ComponentsProcessor;
use elkrs::compound::{has_cross_hierarchy_edge, postprocess, preprocess, CrossHierarchyEdge, CrossHierarchyMap};
use elkrs::layered_options::{
    compaction_connected_components, consider_model_order_components, direction, edge_labels_placement,
    ext_port_connections, ext_port_side, graph_properties, hypernode, input_collect, merge_edges,
    node_size_minimum, output_collect, port_constraints, priority, reversed, separate_connected_components,
};
use elkrs::lgraph::{LEdge, LEdgeId, LGraphArena, LGraphId, LLabel, LLabelId, LNode, LNodeId, LPortId};
use elkrs::lgraph_util::{create_port, edge_reverse, get_direction, provide_collector_port};
use elkrs::options::{
    ComponentOrderingStrategy, Direction, EdgeLabelPlacement, GraphProperties, NodeType, PortConstraints, PortSide,
    PortType,
};
use elkrs::properties::EnumSet;
use elkrs::property_map::{PropertyHolder, PropertyMap, StoredValue};

fn add_node(a: &mut LGraphArena, g: LGraphId) -> LNodeId {
    let id = LNodeId(a.nodes.len());
    let mut n = LNode::new();
    n.graph = Some(g);
    a.nodes.push(n);
    a.graphs[g.0].layerless_nodes.push(id);
    id
}

fn add_port(a: &mut LGraphArena, n: LNodeId, side: PortSide) -> LPortId {
    let p = a.create_port();
    a.set_port_node(p, Some(n));
    a.set_port_side(p, side);
    p
}

fn add_edge(a: &mut LGraphArena, s: LPortId, t: LPortId) -> LEdgeId {
    let e = LEdgeId(a.edges.len());
    a.edges.push(LEdge::new());
    a.set_edge_source(e, Some(s));
    a.set_edge_target(e, Some(t));
    e
}

/// Nodes 0-1 joined by an edge, node 2 alone, nodes 3-4 joined by an edge
/// that runs from 4 to 3.
fn three_components() -> (LGraphArena, LGraphId, Vec<LNodeId>) {
    let mut a = LGraphArena::new();
    let g = a.create_graph();
    let n: Vec<LNodeId> = (0..5).map(|_| add_node(&mut a, g)).collect();
    let p0 = add_port(&mut a, n[0], PortSide::EAST);
    let p1 = add_port(&mut a, n[1], PortSide::WEST);
    add_edge(&mut a, p0, p1);
    let p3 = add_port(&mut a, n[3], PortSide::WEST);
    let p4 = add_port(&mut a, n[4], PortSide::EAST);
    add_edge(&mut a, p4, p3);
    (a, g, n)
}

#[test]
fn split_finds_components_in_node_order() {
    let (mut a, g, n) = three_components();
    a.graphs[g.0].properties.set(&direction(), Direction::DOWN);
    a.graphs[g.0].properties.set_by_id("org.eclipse.elk.nodeSize.minimum", StoredValue::Int(7));
    let parts = ComponentsProcessor::split(&mut a, g).unwrap();
    assert_eq!(parts, vec![LGraphId(1), LGraphId(2), LGraphId(3)]);
    assert_eq!(a.graphs[1].layerless_nodes, vec![n[0], n[1]]);
    assert_eq!(a.graphs[2].layerless_nodes, vec![n[2]]);
    assert_eq!(a.graphs[3].layerless_nodes, vec![n[3], n[4]]);
    for (i, &node) in n.iter().enumerate() {
        let expected = if i < 2 { 1 } else if i == 2 { 2 } else { 3 };
        assert_eq!(a.nodes[node.0].graph, Some(LGraphId(expected)));
        assert_eq!(a.nodes[node.0].id, 1);
    }
    // the graph that was split keeps its node list
    assert_eq!(a.graphs[g.0].layerless_nodes.len(), 5);
    for c in 1..4 {
        let props = &a.graphs[c].properties;
        assert_eq!(props.get(&direction()), Direction::DOWN);
        assert!(props.has(&ext_port_connections()));
        assert!(props.get(&ext_port_connections()).is_empty());
        assert!(!props.has(&node_size_minimum()));
    }
}

#[test]
fn split_follows_incoming_edges_before_outgoing_ones() {
    // node 0 has one port with an incoming edge from node 2 and an outgoing
    // edge to node 1: the search reaches 2 before 1
    let mut a = LGraphArena::new();
    let g = a.create_graph();
    let n: Vec<LNodeId> = (0..3).map(|_| add_node(&mut a, g)).collect();
    let hub = add_port(&mut a, n[0], PortSide::EAST);
    let p1 = add_port(&mut a, n[1], PortSide::WEST);
    let p2 = add_port(&mut a, n[2], PortSide::EAST);
    add_edge(&mut a, hub, p1);
    add_edge(&mut a, p2, hub);
    let parts = ComponentsProcessor::split(&mut a, g).unwrap();
    assert_eq!(parts.len(), 1);
    assert_eq!(a.graphs[parts[0].0].layerless_nodes, vec![n[0], n[2], n[1]]);
}

#[test]
fn split_records_external_port_sides() {
    let mut a = LGraphArena::new();
    let g = a.create_graph();
    let inner = add_node(&mut a, g);
    let ext = add_node(&mut a, g);
    a.nodes[ext.0].node_type = NodeType::EXTERNAL_PORT;
    a.nodes[ext.0].properties.set(&ext_port_side(), PortSide::EAST);
    let p = add_port(&mut a, inner, PortSide::EAST);
    let q = add_port(&mut a, ext, PortSide::WEST);
    add_edge(&mut a, p, q);
    let parts = ComponentsProcessor::split(&mut a, g).unwrap();
    assert_eq!(parts, vec![LGraphId(1)]);
    let sides = a.graphs[1].properties.get(&ext_port_connections());
    assert!(sides.contains(PortSide::EAST));
    assert_eq!(sides.len(), 1);
}

#[test]
fn split_without_separation_keeps_the_graph() {
    let (mut a, g, n) = three_components();
    a.graphs[g.0].properties.set(&separate_connected_components(), false);
    let parts = ComponentsProcessor::split(&mut a, g).unwrap();
    assert_eq!(parts, vec![g]);
    assert_eq!(a.graphs.len(), 1);
    assert_eq!(a.nodes[n[3].0].id, 0);
}

#[test]
fn split_with_external_ports_and_free_ports_separates_the_components() {
    let (mut a, g, _) = three_components();
    a.graphs[g.0].properties.set(&graph_properties(), EnumSet::of(&[GraphProperties::EXTERNAL_PORTS]));
    assert_eq!(ComponentsProcessor::split(&mut a, g).unwrap(), vec![LGraphId(1), LGraphId(2), LGraphId(3)]);
}

#[test]
fn split_with_external_ports_and_fixed_order_keeps_the_graph() {
    let (mut a, g, _) = three_components();
    a.graphs[g.0].properties.set(&graph_properties(), EnumSet::of(&[GraphProperties::EXTERNAL_PORTS]));
    a.graphs[g.0].properties.set(&port_constraints(), PortConstraints::FIXED_ORDER);
    assert_eq!(ComponentsProcessor::split(&mut a, g).unwrap(), vec![g]);
}

#[test]
fn split_with_model_order_is_an_error() {
    let (mut a, g, _) = three_components();
    a.graphs[g.0]
        .properties
        .set(&consider_model_order_components(), ComponentOrderingStrategy::INSIDE_PORT_SIDE_GROUPS);
    assert!(ComponentsProcessor::split(&mut a, g).is_err());
}

#[test]
fn split_puts_both_ends_of_every_edge_in_one_component() {
    let (mut a, g, n) = three_components();
    let parts = ComponentsProcessor::split(&mut a, g).unwrap();
    for e in &a.edges {
        let s = a.ports[e.source.unwrap().0].node.unwrap();
        let t = a.ports[e.target.unwrap().0].node.unwrap();
        assert_eq!(a.nodes[s.0].graph, a.nodes[t.0].graph);
    }
    // every node lies in exactly one component
    for &node in &n {
        let count = parts.iter().filter(|c| a.graphs[c.0].layerless_nodes.contains(&node)).count();
        assert_eq!(count, 1);
    }
}

#[test]
fn combine_gathers_the_components_back() {
    let (mut a, g, n) = three_components();
    a.nodes[n[2].0].properties.set(&priority(), 5);
    let mut parts = ComponentsProcessor::split(&mut a, g).unwrap();
    // equal areas: sorted by falling priority, ties kept in their order
    ComponentsProcessor::combine(&mut a, &mut parts, g, &vec![0, 0, 0]).unwrap();
    assert_eq!(a.graphs[2].id, 5);
    assert_eq!(a.graphs[1].id, 0);
    assert_eq!(parts, vec![LGraphId(2), LGraphId(1), LGraphId(3)]);
    assert_eq!(a.graphs[g.0].layerless_nodes, vec![n[2], n[0], n[1], n[3], n[4]]);
    for &node in &n {
        assert_eq!(a.nodes[node.0].graph, Some(g));
    }
}

#[test]
fn sort_components_breaks_priority_ties_by_area_rank() {
    let (mut a, g, _) = three_components();
    let mut parts = ComponentsProcessor::split(&mut a, g).unwrap();
    assert!(elkrs::components::sort_components(&mut a, &mut parts, g, &vec![2, 0, 1]));
    assert_eq!(parts, vec![LGraphId(2), LGraphId(3), LGraphId(1)]);
    // equal ranks keep their order
    let (mut a, g, _) = three_components();
    let mut parts = ComponentsProcessor::split(&mut a, g).unwrap();
    assert!(elkrs::components::sort_components(&mut a, &mut parts, g, &vec![1, 0, 1]));
    assert_eq!(parts, vec![LGraphId(2), LGraphId(1), LGraphId(3)]);
}

#[test]
fn sort_components_puts_the_higher_priority_first_whatever_the_area() {
    let (mut a, g, n) = three_components();
    a.nodes[n[3].0].properties.set(&priority(), 2);
    a.nodes[n[4].0].properties.set(&priority(), -1);
    a.nodes[n[0].0].properties.set(&priority(), -3);
    let mut parts = ComponentsProcessor::split(&mut a, g).unwrap();
    assert!(elkrs::components::sort_components(&mut a, &mut parts, g, &vec![0, 1, 2]));
    assert_eq!(a.graphs[1].id, -3);
    assert_eq!(a.graphs[3].id, 1);
    assert_eq!(parts, vec![LGraphId(3), LGraphId(2), LGraphId(1)]);
}

#[test]
fn combine_gathers_in_the_sorted_order() {
    let (mut a, g, n) = three_components();
    let mut parts = ComponentsProcessor::split(&mut a, g).unwrap();
    ComponentsProcessor::combine(&mut a, &mut parts, g, &vec![2, 0, 1]).unwrap();
    assert_eq!(parts, vec![LGraphId(2), LGraphId(3), LGraphId(1)]);
    assert_eq!(a.graphs[g.0].layerless_nodes, vec![n[2], n[3], n[4], n[0], n[1]]);
}

#[test]
fn sort_components_keeps_the_model_order() {
    let (mut a, g, n) = three_components();
    a.nodes[n[2].0].properties.set(&priority(), 5);
    let mut parts = ComponentsProcessor::split(&mut a, g).unwrap();
    a.graphs[g.0]
        .properties
        .set(&consider_model_order_components(), ComponentOrderingStrategy::MODEL_ORDER);
    assert!(!elkrs::components::sort_components(&mut a, &mut parts, g, &vec![2, 1, 0]));
    assert_eq!(parts, vec![LGraphId(1), LGraphId(2), LGraphId(3)]);
    assert_eq!(a.graphs[2].id, 0);
}

#[test]
fn combine_with_compaction_is_an_error() {
    let (mut a, g, _) = three_components();
    let mut parts = ComponentsProcessor::split(&mut a, g).unwrap();
    a.graphs[parts[0].0].properties.set(&compaction_connected_components(), true);
    assert!(ComponentsProcessor::combine(&mut a, &mut parts, g, &vec![0, 0, 0]).is_err());
    assert!(a.graphs[g.0].layerless_nodes.is_empty());
}

#[test]
fn combine_of_the_graph_itself_changes_nothing() {
    let (mut a, g, n) = three_components();
    ComponentsProcessor::combine(&mut a, &mut vec![g], g, &vec![7]).unwrap();
    assert_eq!(a.graphs[g.0].layerless_nodes, n);
}

#[test]
fn combine_of_nothing_empties_the_target() {
    let (mut a, g, _) = three_components();
    ComponentsProcessor::combine(&mut a, &mut vec![], g, &vec![]).unwrap();
    assert!(a.graphs[g.0].layerless_nodes.is_empty());
}

#[test]
fn component_priority_wraps_like_java_int() {
    let mut a = LGraphArena::new();
    let g = a.create_graph();
    let x = add_node(&mut a, g);
    let y = add_node(&mut a, g);
    a.nodes[x.0].properties.set(&priority(), i32::MAX);
    a.nodes[y.0].properties.set(&priority(), 2);
    assert_eq!(elkrs::components::component_priority(&a, g), i32::MIN + 1);
}

fn two_nodes_one_edge() -> (LGraphArena, LGraphId, LNodeId, LNodeId, LPortId, LPortId, LEdgeId) {
    let mut a = LGraphArena::new();
    let g = a.create_graph();
    let x = add_node(&mut a, g);
    let y = add_node(&mut a, g);
    let p = add_port(&mut a, x, PortSide::EAST);
    let q = add_port(&mut a, y, PortSide::WEST);
    let e = add_edge(&mut a, p, q);
    (a, g, x, y, p, q, e)
}

#[test]
fn edge_reverse_swaps_ends_labels_and_flag() {
    let (mut a, g, _, _, p, q, e) = two_nodes_one_edge();
    let tail = LLabelId(a.labels.len());
    a.labels.push(LLabel::new());
    a.labels[tail.0].properties.set(&edge_labels_placement(), EdgeLabelPlacement::TAIL);
    let center = LLabelId(a.labels.len());
    a.labels.push(LLabel::new());
    a.edges[e.0].labels = vec![tail, center];
    edge_reverse(&mut a, g, e, false);
    assert_eq!(a.edges[e.0].source, Some(q));
    assert_eq!(a.edges[e.0].target, Some(p));
    assert_eq!(a.ports[p.0].incoming_edges, vec![e]);
    assert!(a.ports[p.0].outgoing_edges.is_empty());
    assert_eq!(a.ports[q.0].outgoing_edges, vec![e]);
    assert!(a.edges[e.0].properties.get(&reversed()));
    assert_eq!(a.labels[tail.0].properties.get(&edge_labels_placement()), EdgeLabelPlacement::HEAD);
    assert!(!a.labels[center.0].properties.has(&edge_labels_placement()));
}

#[test]
fn edge_reverse_twice_restores_the_edge() {
    let (mut a, g, _, _, p, q, e) = two_nodes_one_edge();
    let label = LLabelId(a.labels.len());
    a.labels.push(LLabel::new());
    a.labels[label.0].properties.set(&edge_labels_placement(), EdgeLabelPlacement::HEAD);
    a.edges[e.0].labels = vec![label];
    edge_reverse(&mut a, g, e, false);
    edge_reverse(&mut a, g, e, false);
    assert_eq!(a.edges[e.0].source, Some(p));
    assert_eq!(a.edges[e.0].target, Some(q));
    assert!(!a.edges[e.0].properties.get(&reversed()));
    assert_eq!(a.labels[label.0].properties.get(&edge_labels_placement()), EdgeLabelPlacement::HEAD);
    assert_eq!(a.ports.len(), 2);
}

#[test]
fn edge_reverse_moves_collector_ends_to_new_collectors() {
    let (mut a, g, x, y, p, q, e) = two_nodes_one_edge();
    a.ports[q.0].properties.set(&input_collect(), true);
    a.ports[p.0].properties.set(&output_collect(), true);
    edge_reverse(&mut a, g, e, true);
    // a new output collector on the target's node, then an input collector
    // on the source's node
    assert_eq!(a.ports.len(), 4);
    assert_eq!(a.edges[e.0].source, Some(LPortId(2)));
    assert_eq!(a.edges[e.0].target, Some(LPortId(3)));
    assert_eq!(a.ports[2].node, Some(y));
    assert_eq!(a.ports[2].side, PortSide::EAST);
    assert!(a.ports[2].properties.get(&output_collect()));
    assert_eq!(a.ports[3].node, Some(x));
    assert_eq!(a.ports[3].side, PortSide::WEST);
    assert!(a.ports[3].properties.get(&input_collect()));
    assert_eq!(a.nodes[y.0].ports, vec![q, LPortId(2)]);
    assert_eq!(a.nodes[x.0].ports, vec![p, LPortId(3)]);
    assert!(a.ports[p.0].outgoing_edges.is_empty());
    assert!(a.ports[q.0].incoming_edges.is_empty());
}

#[test]
fn provide_collector_port_reuses_the_first_collector() {
    let (mut a, g, x, _, p, _, _) = two_nodes_one_edge();
    let second = add_port(&mut a, x, PortSide::NORTH);
    a.ports[second.0].properties.set(&output_collect(), true);
    a.ports[p.0].properties.set(&input_collect(), true);
    let found = provide_collector_port(&mut a, g, x, PortType::OUTPUT, PortSide::EAST);
    assert_eq!(found, second);
    assert_eq!(a.ports.len(), 3);
    let made = provide_collector_port(&mut a, g, x, PortType::INPUT, PortSide::WEST);
    assert_eq!(made, p);
}

#[test]
fn provide_collector_port_makes_one_if_none_exists() {
    let (mut a, g, x, _, _, _, _) = two_nodes_one_edge();
    let made = provide_collector_port(&mut a, g, x, PortType::INPUT, PortSide::WEST);
    assert_eq!(made, LPortId(2));
    assert_eq!(a.ports[2].node, Some(x));
    assert_eq!(a.ports[2].side, PortSide::WEST);
    assert!(a.ports[2].properties.get(&input_collect()));
    assert_eq!(a.nodes[x.0].ports.len(), 2);
}

#[test]
fn get_direction_falls_back_on_the_aspect_ratio() {
    let mut a = LGraphArena::new();
    let g = a.create_graph();
    assert_eq!(get_direction(&a, g, true), Direction::RIGHT);
    assert_eq!(get_direction(&a, g, false), Direction::DOWN);
    a.graphs[g.0].properties.set(&direction(), Direction::UP);
    assert_eq!(get_direction(&a, g, false), Direction::UP);
}

#[test]
fn create_port_uses_the_default_side_and_marks_north_south_ports() {
    let mut a = LGraphArena::new();
    let g = a.create_graph();
    let x = add_node(&mut a, g);
    let out = create_port(&mut a, x, None, PortType::OUTPUT, g, Direction::RIGHT);
    assert_eq!(a.ports[out.0].side, PortSide::EAST);
    let inp = create_port(&mut a, x, None, PortType::INPUT, g, Direction::RIGHT);
    assert_eq!(a.ports[inp.0].side, PortSide::WEST);
    assert!(!a.graphs[g.0].properties.get(&graph_properties()).contains(GraphProperties::NORTH_SOUTH_PORTS));
    let north = create_port(&mut a, x, Some(PortSide::NORTH), PortType::INPUT, g, Direction::RIGHT);
    assert_eq!(a.ports[north.0].side, PortSide::NORTH);
    assert!(a.graphs[g.0].properties.get(&graph_properties()).contains(GraphProperties::NORTH_SOUTH_PORTS));
    assert_eq!(a.nodes[x.0].ports, vec![out, inp, north]);
}

#[test]
fn create_port_on_a_hypernode_provides_a_collector() {
    let mut a = LGraphArena::new();
    let g = a.create_graph();
    let x = add_node(&mut a, g);
    a.nodes[x.0].properties.set(&hypernode(), true);
    let first = create_port(&mut a, x, None, PortType::OUTPUT, g, Direction::DOWN);
    assert_eq!(a.ports[first.0].side, PortSide::SOUTH);
    assert!(a.ports[first.0].properties.get(&output_collect()));
    let again = create_port(&mut a, x, None, PortType::OUTPUT, g, Direction::DOWN);
    assert_eq!(again, first);
    let input = create_port(&mut a, x, None, PortType::INPUT, g, Direction::DOWN);
    assert_eq!(a.ports[input.0].side, PortSide::NORTH);
    // merging is off when the node's port sides are fixed
    a.nodes[x.0].properties.set(&port_constraints(), PortConstraints::FIXED_SIDE);
    let plain = create_port(&mut a, x, None, PortType::OUTPUT, g, Direction::DOWN);
    assert!(!a.ports[plain.0].properties.has(&output_collect()));
    a.graphs[g.0].properties.set(&merge_edges(), true);
    assert_eq!(a.nodes[x.0].ports.len(), 3);
}

#[test]
fn flat_graphs_have_no_cross_hierarchy_edges() {
    let (mut a, g, _, _, _, _, _) = two_nodes_one_edge();
    assert!(!has_cross_hierarchy_edge(&a, g));
    let before = a.graphs[g.0].properties.len();
    assert!(preprocess(&mut a, g).is_ok());
    // an empty cross-hierarchy map is attached
    assert_eq!(a.graphs[g.0].properties.len(), before + 1);
    match a.graphs[g.0].properties.get_by_id("crossHierarchyMap") {
        Some(StoredValue::CrossHierarchy(m)) => {
            assert!(m.0.is_empty());
            assert!(**m == CrossHierarchyMap::default());
        },
        _ => panic!("no cross-hierarchy map"),
    }
    // copying the properties copies the map's entries
    let mut copy = PropertyMap::new();
    copy.copy_from(&a.graphs[g.0].properties);
    assert!(copy == a.graphs[g.0].properties);
    match copy.get_by_id("crossHierarchyMap") {
        Some(StoredValue::CrossHierarchy(m)) => assert!(m.0.is_empty()),
        _ => panic!("no cross-hierarchy map in the copy"),
    }
    assert!(postprocess(&mut a, g).is_ok());
}

#[test]
fn cross_hierarchy_maps_compare_by_their_entries() {
    let seg = |e: usize, g: usize| CrossHierarchyEdge { edge: LEdgeId(e), graph: LGraphId(g), source_port: None, target_port: None };
    let mut x = CrossHierarchyMap::new();
    x.0.insert(LEdgeId(1), vec![seg(1, 0), seg(1, 1)]);
    x.0.insert(LEdgeId(2), vec![seg(2, 0)]);
    let mut y = CrossHierarchyMap::new();
    y.0.insert(LEdgeId(2), vec![seg(2, 0)]);
    y.0.insert(LEdgeId(1), vec![seg(1, 0), seg(1, 1)]);
    assert!(x == y);
    y.0.insert(LEdgeId(2), vec![seg(2, 1)]);
    assert!(x != y);
    let z = x.duplicate();
    assert!(z == x);
    assert_eq!(z.0.len(), 2);
}

#[test]
fn an_edge_into_a_nested_graph_crosses_levels() {
    let mut a = LGraphArena::new();
    let top = a.create_graph();
    let inner = a.create_graph();
    let parent = add_node(&mut a, top);
    let other = add_node(&mut a, top);
    a.nodes[parent.0].nested_graph = Some(inner);
    let child = add_node(&mut a, inner);
    let p = add_port(&mut a, other, PortSide::EAST);
    let q = add_port(&mut a, child, PortSide::WEST);
    add_edge(&mut a, p, q);
    assert!(has_cross_hierarchy_edge(&a, top));
    assert!(!has_cross_hierarchy_edge(&a, inner));
    assert!(preprocess(&mut a, top).is_err());
}

#[test]
fn an_edge_deep_in_the_hierarchy_is_found() {
    let mut a = LGraphArena::new();
    let top = a.create_graph();
    let mid = a.create_graph();
    let low = a.create_graph();
    let n_top = add_node(&mut a, top);
    let n_mid = add_node(&mut a, mid);
    a.nodes[n_top.0].nested_graph = Some(mid);
    a.nodes[n_mid.0].nested_graph = Some(low);
    let lone = add_node(&mut a, low);
    let p = add_port(&mut a, lone, PortSide::EAST);
    let q = add_port(&mut a, n_top, PortSide::WEST);
    add_edge(&mut a, p, q);
    assert!(has_cross_hierarchy_edge(&a, top));
    assert!(has_cross_hierarchy_edge(&a, mid));
    assert!(has_cross_hierarchy_edge(&a, low));
    // without the edge nothing crosses
    let only = a.create_graph();
    add_node(&mut a, only);
    assert!(!has_cross_hierarchy_edge(&a, only));
}

#[test]
fn graph_elements_hold_properties() {
    let mut n = LNode::new();
    assert!(!n.has_property(&priority()));
    assert_eq!(n.get_property(&priority()), 0);
    n.set_property(&priority(), 3);
    assert!(n.has_property(&priority()));
    assert_eq!(n.get_property(&priority()), 3);
    let mut other = PropertyMap::new();
    other.set(&priority(), 9);
    other.set(&hypernode(), true);
    n.copy_properties_from(&other);
    assert_eq!(n.get_property(&priority()), 9);
    assert!(n.get_property(&hypernode()));
    assert_eq!(n.properties().len(), 2);
    n.properties_mut().unset(&priority());
    assert!(!n.has_property(&priority()));
    assert_eq!(n.id, 0);
}
