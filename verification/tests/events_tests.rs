use aris::events::{Event, EventBatch, GraphState, flush_batch};
use aris::interner::Interner;
use aris::parser::extract_semantic_events;
use aris::types::{EdgeType, NodeType};

#[test]
fn clears_run_before_adds() {
    let mut st = GraphState::new();
    st.apply_batch(&vec![Event::AddNode { id: 1, kind: NodeType::File, file_id: 9 }]);
    let batch = vec![
        Event::AddNode { id: 2, kind: NodeType::Function, file_id: 9 },
        Event::ClearFile { file_id: 9 },
    ];
    st.apply_batch(&batch);
    assert!(st.graph.out_edges(1).is_none());
    assert!(st.graph.out_edges(2).is_some());
    assert_eq!(st.file_index.get(&9), Some(&vec![2]));
}

#[test]
fn clear_removes_edges_of_file_nodes() {
    let mut st = GraphState::new();
    st.apply_batch(&vec![
        Event::AddNode { id: 1, kind: NodeType::Function, file_id: 9 },
        Event::AddNode { id: 2, kind: NodeType::Function, file_id: 8 },
        Event::AddEdge { src: 2, dst: 1, kind: EdgeType::Calls },
    ]);
    assert!(st.graph.out_edges(2).unwrap().contains(&(1, EdgeType::Calls)));
    st.apply_batch(&vec![Event::ClearFile { file_id: 9 }]);
    assert!(st.graph.out_edges(2).unwrap().is_empty());
    assert_eq!(st.graph.out_degree(2), 0);
    assert!(st.file_index.get(&9).is_none());
}

#[test]
fn batch_keeps_each_event_once() {
    let mut b = EventBatch::new();
    assert!(b.insert(Event::ClearFile { file_id: 1 }));
    assert!(!b.insert(Event::ClearFile { file_id: 1 }));
    assert!(b.insert(Event::ClearFile { file_id: 2 }));
    assert_eq!(b.len(), 2);
}

#[test]
fn flush_applies_checks_and_empties() {
    let mut st = GraphState::new();
    let mut b = EventBatch::new();
    assert_eq!(flush_batch(&mut st, &mut b), None);
    b.insert(Event::AddEdge { src: 1, dst: 2, kind: EdgeType::Imports });
    assert_eq!(flush_batch(&mut st, &mut b), Some(true));
    assert!(b.is_empty());
    assert_eq!(st.graph.in_degree(2), 1);
}

#[test]
fn reparsing_a_file_replaces_its_nodes() {
    let mut names = Interner::new();
    let mut st = GraphState::new();
    let first = extract_semantic_events("src/a.rs", "", &mut names);
    assert_eq!(first[0], Event::ClearFile { file_id: 0 });
    assert_eq!(first[1], Event::AddNode { id: 1, kind: NodeType::Function, file_id: 0 });
    assert_eq!(names.resolve(1), Some("src/a.rs::mock_func"));
    st.apply_batch(&first);
    let again = extract_semantic_events("src/a.rs", "", &mut names);
    assert_eq!(again, first);
    st.apply_batch(&again);
    assert_eq!(st.file_index.get(&0), Some(&vec![1]));
}

#[test]
fn batch_outcome_lists_new_nodes_and_edges() {
    let mut st = GraphState::new();
    st.apply_batch(&vec![
        Event::AddNode { id: 1, kind: NodeType::Function, file_id: 9 },
        Event::AddNode { id: 5, kind: NodeType::Function, file_id: 7 },
    ]);
    st.apply_batch(&vec![
        Event::AddNode { id: 3, kind: NodeType::Function, file_id: 9 },
        Event::AddEdge { src: 3, dst: 4, kind: EdgeType::Calls },
        Event::ClearFile { file_id: 9 },
        Event::AddNode { id: 4, kind: NodeType::Class, file_id: 9 },
        Event::ClearFile { file_id: 7 },
    ]);
    assert_eq!(st.file_index.get(&9), Some(&vec![3, 4]));
    assert!(st.file_index.get(&7).is_none());
    assert!(st.graph.out_edges(3).unwrap().contains(&(4, EdgeType::Calls)));
    assert!(st.graph.in_edges(4).unwrap().contains(&(3, EdgeType::Calls)));
    assert!(st.graph.out_edges(1).is_none());
    assert!(st.graph.validate());
}
