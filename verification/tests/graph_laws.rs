use aris::graph::Graph;
use aris::types::{EdgeType, encode_edge, decode_edge};

#[test]
fn edge_codes_round_trip() {
    for kind in [EdgeType::Calls, EdgeType::Imports, EdgeType::Contains, EdgeType::Extends] {
        let code = encode_edge(u32::MAX, kind);
        assert_eq!(decode_edge(code), (u32::MAX, kind));
    }
    assert_eq!(encode_edge(2, EdgeType::Contains), 10);
}

#[test]
fn add_edge_counts_each_edge_once() {
    let mut g = Graph::new();
    g.add_edge(1, 2, EdgeType::Calls);
    g.add_edge(1, 2, EdgeType::Calls);
    g.add_edge(1, 2, EdgeType::Imports);
    assert_eq!(g.out_degree(1), 2);
    assert_eq!(g.in_degree(2), 2);
    assert_eq!(g.in_degree(1), 0);
    assert!(g.in_edges(1).is_none());
    assert!(g.validate());
}

#[test]
fn add_node_keeps_existing_edges() {
    let mut g = Graph::new();
    g.add_edge(1, 2, EdgeType::Calls);
    g.add_node(1);
    g.add_node(1);
    assert_eq!(g.out_edges(1).unwrap(), vec![(2, EdgeType::Calls)]);
    assert_eq!(g.out_degree(1), 1);
    assert!(g.in_edges(1).unwrap().is_empty());
}

#[test]
fn remove_node_unlinks_both_directions() {
    let mut g = Graph::new();
    g.add_edge(1, 2, EdgeType::Calls);
    g.add_edge(3, 1, EdgeType::Imports);
    g.add_edge(1, 1, EdgeType::Extends);
    g.add_edge(3, 2, EdgeType::Calls);
    g.remove_node(1);
    assert!(g.out_edges(1).is_none());
    assert!(g.in_edges(1).is_none());
    assert_eq!(g.out_edges(3).unwrap(), vec![(2, EdgeType::Calls)]);
    assert_eq!(g.in_edges(2).unwrap(), vec![(3, EdgeType::Calls)]);
    assert_eq!(g.out_degree(3), 1);
    assert_eq!(g.in_degree(2), 1);
    assert!(g.validate());
}

#[test]
fn remove_missing_node_changes_no_edge() {
    let mut g = Graph::new();
    g.add_edge(1, 2, EdgeType::Calls);
    g.remove_node(9);
    assert_eq!(g.out_edges(1).unwrap(), vec![(2, EdgeType::Calls)]);
    assert!(g.validate());
}

#[test]
fn supernode_threshold_is_strict() {
    let mut g = Graph::new();
    for t in 0..300u32 {
        g.add_edge(1000, t, EdgeType::Calls);
    }
    assert!(!g.is_supernode(1000));
    g.add_edge(1000, 300, EdgeType::Calls);
    assert!(g.is_supernode(1000));
    assert!(!g.is_supernode(5));
}

#[test]
fn empty_graph_and_node_listing() {
    let mut g = Graph::new();
    assert!(g.is_empty());
    g.add_edge(4, 5, EdgeType::Calls);
    assert!(!g.is_empty());
    assert_eq!(g.nodes(), vec![4]);
    let mut all = g.all_edges();
    all.sort();
    assert_eq!(all, vec![(4, 5, EdgeType::Calls)]);
}
