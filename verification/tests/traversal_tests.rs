use aris::graph::Graph;
use aris::traversal::extract_bounded_subgraph;
use aris::types::EdgeType;

fn sorted_nodes(sub: &aris::traversal::Subgraph) -> Vec<u32> {
    let mut v: Vec<u32> = sub.nodes.iter().copied().collect();
    v.sort();
    v
}

#[test]
fn chain_is_cut_after_four_steps() {
    let mut g = Graph::new();
    for i in 0..10u32 {
        g.add_edge(i, i + 1, EdgeType::Calls);
    }
    let sub = extract_bounded_subgraph(&g, 0);
    assert_eq!(sorted_nodes(&sub), vec![0, 1, 2, 3, 4]);
    let mut edges = sub.edges.clone();
    edges.sort();
    assert_eq!(edges, vec![(0, 1, EdgeType::Calls), (1, 2, EdgeType::Calls), (2, 3, EdgeType::Calls), (3, 4, EdgeType::Calls)]);
}

#[test]
fn cycles_are_visited_once() {
    let mut g = Graph::new();
    g.add_edge(1, 2, EdgeType::Calls);
    g.add_edge(2, 1, EdgeType::Calls);
    g.add_edge(2, 2, EdgeType::Extends);
    let sub = extract_bounded_subgraph(&g, 1);
    assert_eq!(sorted_nodes(&sub), vec![1, 2]);
    assert_eq!(sub.edges.len(), 3);
}

#[test]
fn start_without_edges_is_kept() {
    let g = Graph::new();
    let sub = extract_bounded_subgraph(&g, 42);
    assert_eq!(sorted_nodes(&sub), vec![42]);
    assert!(sub.edges.is_empty());
}

#[test]
fn hubs_are_kept_but_not_expanded() {
    let mut g = Graph::new();
    g.add_edge(1, 2, EdgeType::Calls);
    for t in 100..401u32 {
        g.add_edge(2, t, EdgeType::Calls);
    }
    assert!(g.is_supernode(2));
    let sub = extract_bounded_subgraph(&g, 1);
    assert_eq!(sorted_nodes(&sub), vec![1, 2]);
}

#[test]
fn at_most_150_nodes_nearest_first() {
    let mut g = Graph::new();
    for t in 1..=100u32 {
        g.add_edge(0, t, EdgeType::Calls);
        g.add_edge(t, 1000 + t, EdgeType::Calls);
    }
    let sub = extract_bounded_subgraph(&g, 0);
    assert_eq!(sub.nodes.len(), 150);
    for t in 0..=100u32 {
        assert!(sub.nodes.contains(&t));
    }
    for e in &sub.edges {
        assert!(sub.nodes.contains(&e.0) && sub.nodes.contains(&e.1));
    }
}
