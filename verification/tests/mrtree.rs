use elkrs::mrtree::{add_child, integer_ref_neq, TArena, TGraph, TNodeId};
use elkrs::property_map::PropertyMap;

fn empty_graph() -> TGraph {
    TGraph {
        properties: PropertyMap::new(),
        nodes: Vec::new(),
        edges: Vec::new(),
        origin: None,
        removable_edges: Vec::new(),
        priority: 0,
    }
}

#[test]
fn node_and_edge_strings() {
    let mut a = TArena::new();
    let x = a.create_node(5, String::new());
    let y = a.create_node(-12, String::from("leaf"));
    let e = a.create_edge(x, y);
    assert_eq!(a.node_string(x), "n_5");
    assert_eq!(a.node_string(y), "n_leaf");
    assert_eq!(a.edge_string(e), "n_5->n_leaf");
    let z = a.create_node(-12, String::new());
    assert_eq!(a.node_string(z), "n_-12");
}

#[test]
fn add_child_links_parent_and_child() {
    let mut a = TArena::new();
    let mut g = empty_graph();
    let root = a.create_node(0, String::new());
    let c1 = a.create_node(1, String::new());
    let c2 = a.create_node(2, String::new());
    assert!(a.is_leaf(root));
    assert_eq!(a.parent(c1), None);
    add_child(&mut a, &mut g, root, c1);
    add_child(&mut a, &mut g, root, c2);
    assert_eq!(a.children(root), vec![c1, c2]);
    assert_eq!(a.parent(c1), Some(root));
    assert_eq!(a.parent(c2), Some(root));
    assert!(!a.is_leaf(root));
    assert!(a.is_leaf(c2));
    assert_eq!(g.edges.len(), 2);
    assert!(a.edges[g.edges[0].index()].dummy);
    assert_eq!(a.edges[1].source, root);
    assert_eq!(a.edges[1].target, c2);
}

#[test]
fn a_second_parent_does_not_replace_the_first() {
    let mut a = TArena::new();
    let mut g = empty_graph();
    let p1 = a.create_node(0, String::new());
    let p2 = a.create_node(1, String::new());
    let c = a.create_node(2, String::new());
    add_child(&mut a, &mut g, p1, c);
    add_child(&mut a, &mut g, p2, c);
    assert_eq!(a.parent(c), Some(p1));
    assert_eq!(a.children(p2), vec![c]);
}

#[test]
fn tree_levels_default_to_zero() {
    let mut a = TArena::new();
    let x = a.create_node(0, String::new());
    assert_eq!(a.tree_level(x), 0);
    a.set_tree_level(x, 3);
    assert_eq!(a.tree_level(x), 3);
    assert_eq!(a.tree_level(TNodeId(0)), 3);
}

#[test]
fn boxed_integers_compare_by_identity_outside_the_cache() {
    assert!(!integer_ref_neq(127, 127));
    assert!(integer_ref_neq(128, 128));
    assert!(!integer_ref_neq(-128, -128));
    assert!(integer_ref_neq(-129, -129));
    assert!(integer_ref_neq(1, 2));
}

#[test]
fn nodes_and_edges_change_in_place() {
    let mut a = TArena::new();
    let x = a.create_node(1, String::new());
    let y = a.create_node(2, String::new());
    let e = a.create_edge(x, y);
    a.node_mut(x).id = 7;
    assert_eq!(a.node(x).id, 7);
    assert_eq!(a.node(y).id, 2);
    a.edge_mut(e).target = x;
    assert_eq!(a.edge(e).target, x);
    assert_eq!(a.edge(e).source, x);
}
