use aris::context::ContextBuilder;
use aris::graph::Graph;
use aris::interner::Interner;
use aris::traversal::extract_bounded_subgraph;
use aris::types::EdgeType;

#[test]
fn renders_entities_and_relationships() {
    let mut names = Interner::new();
    let a = names.intern("alpha");
    let b = names.intern("beta");
    let mut g = Graph::new();
    g.add_edge(a, b, EdgeType::Calls);
    let sub = extract_bounded_subgraph(&g, a);
    let text = ContextBuilder::new(&names, 1000).build(&g, &sub);
    assert_eq!(
        text,
        "\n=== ENTITIES ===\n- alpha\n- beta\n\n=== RELATIONSHIPS ===\nalpha [CALLS] beta\n"
    );
}

#[test]
fn budget_cuts_entities_and_drops_their_edges() {
    let mut names = Interner::new();
    let a = names.intern("alpha_function_name");
    let b = names.intern("beta_function_name");
    let mut g = Graph::new();
    g.add_edge(a, b, EdgeType::Imports);
    let sub = extract_bounded_subgraph(&g, a);
    // heading: 18 bytes = 4 tokens; "- alpha_function_name\n": 22 bytes = 5 tokens
    let text = ContextBuilder::new(&names, 10).build(&g, &sub);
    assert_eq!(text, "\n=== ENTITIES ===\n- alpha_function_name\n");
}

#[test]
fn unnamed_nodes_are_skipped() {
    let names = Interner::new();
    let mut g = Graph::new();
    g.add_edge(7, 8, EdgeType::Contains);
    let sub = extract_bounded_subgraph(&g, 7);
    let text = ContextBuilder::new(&names, 100).build(&g, &sub);
    assert_eq!(text, "\n=== ENTITIES ===\n\n=== RELATIONSHIPS ===\n");
}

#[test]
fn add_section_respects_budget() {
    let names = Interner::new();
    let mut b = ContextBuilder::new(&names, 3);
    b.add_section("LONG SECTION TITLE");
    let g = Graph::new();
    let sub = extract_bounded_subgraph(&g, 1);
    let text = b.build(&g, &sub);
    assert_eq!(text, "");
}

#[test]
fn try_push_appends_only_what_fits() {
    let names = Interner::new();
    let mut b = ContextBuilder::new(&names, 2);
    assert!(b.try_push("abcdefgh"));
    assert!(!b.try_push("abcd"));
    assert!(b.try_push("abc"));
    let g = Graph::new();
    let sub = extract_bounded_subgraph(&g, 1);
    assert_eq!(b.build(&g, &sub), "abcdefghabc");
}
