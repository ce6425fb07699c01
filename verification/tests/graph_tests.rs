use aris::graph::Graph;
use aris::types::EdgeType;

#[test]
fn test_add_edge() {
    let mut g = Graph::new();
    g.add_node(1);
    g.add_node(2);
    g.add_edge(1, 2, EdgeType::Calls);

    assert!(g.out_edges(1).unwrap().contains(&(2, EdgeType::Calls)));
    assert!(g.in_edges(2).unwrap().contains(&(1, EdgeType::Calls)));
}

#[test]
fn test_no_duplicate_edges() {
    let mut g = Graph::new();
    g.add_edge(1, 2, EdgeType::Calls);
    g.add_edge(1, 2, EdgeType::Calls);
    assert_eq!(g.out_edges(1).unwrap().len(), 1);
}

#[test]
fn test_remove_node() {
    let mut g = Graph::new();
    g.add_edge(1, 2, EdgeType::Calls);
    g.remove_node(1);

    assert!(g.out_edges(1).is_none());
    assert!(!g.in_edges(2).unwrap().contains(&(1, EdgeType::Calls)));
}
