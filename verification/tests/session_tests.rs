use aris::graph::Graph;
use aris::interner::Interner;
use aris::session::{select_start_nodes, gather_context, top_files, rebuild_from_payload};
use aris::types::{EdgeType, GraphPayload, NodePayload, EdgePayload};

#[test]
fn start_nodes_cover_hubs() {
    let mut g = Graph::new();
    assert!(select_start_nodes(&g, 1).is_empty());
    g.add_edge(1, 2, EdgeType::Calls);
    g.add_edge(3, 2, EdgeType::Calls);
    g.add_edge(1, 3, EdgeType::Calls);
    g.add_node(2);
    let starts = select_start_nodes(&g, 1);
    // node 2 has the most incoming edges, node 1 the most outgoing, and
    // node 3 (total degree 3, like 1 and 2) may or may not be the pick
    assert_eq!(starts[0], 2);
    assert_eq!(starts[1], 1);
    assert!(starts.len() <= 3);
}

#[test]
fn merged_context_sorted_and_unique() {
    let mut g = Graph::new();
    g.add_edge(2, 1, EdgeType::Imports);
    g.add_edge(1, 2, EdgeType::Calls);
    let sub = gather_context(&g, &vec![1, 2, 1]);
    assert_eq!(sub.nodes.len(), 2);
    assert_eq!(sub.edges, vec![(1, 2, EdgeType::Calls), (2, 1, EdgeType::Imports)]);
}

#[test]
fn top_files_by_total_degree() {
    let mut names = Interner::new();
    let a = names.intern("a.rs");
    let b = names.intern("b.rs");
    let mut g = Graph::new();
    g.add_edge(a, b, EdgeType::Imports);
    g.add_edge(b, 50, EdgeType::Imports);
    g.add_edge(60, b, EdgeType::Imports);
    let nodes: std::collections::HashSet<u32> = [a, b, 50, 60].into_iter().collect();
    assert_eq!(top_files(&g, &names, &nodes), vec!["b.rs".to_string(), "a.rs".to_string()]);
}

#[test]
fn payload_rebuilds_graph() {
    let payload = GraphPayload {
        nodes: vec![
            NodePayload { id: 7, label: "x.rs".to_string() },
            NodePayload { id: 9, label: "y.rs".to_string() },
        ],
        edges: vec![
            EdgePayload { source: 7, target: 9, kind: "Imports".to_string() },
            EdgePayload { source: 7, target: 5, kind: "Imports".to_string() },
        ],
    };
    let mut names = Interner::new();
    let mut g = Graph::new();
    rebuild_from_payload(&payload, &mut names, &mut g);
    assert_eq!(names.resolve(0), Some("x.rs"));
    assert_eq!(g.out_edges(0).unwrap(), vec![(1, EdgeType::Imports)]);
    assert_eq!(g.out_degree(1), 0);
}
