use aris::chaos_test::chaos_events;
use aris::events::Event;
use aris::llm::{answer_text, build_prompt, clean_api_key, gemini_url};
use aris::network::task_message;
use aris::orchestrator::{classify, classify_lowercase, inference_result, merge_results, PoolState, QueryType, ReasoningLoop, Task, TaskOutcome};

#[test]
fn classify_by_keywords() {
    assert_eq!(classify("Please TRACE the request"), QueryType::PathTrace);
    assert_eq!(classify("data Flow?"), QueryType::PathTrace);
    assert_eq!(classify("Summarize this"), QueryType::GlobalSummary);
    assert_eq!(classify("what is the ARCHITECTURE"), QueryType::GlobalSummary);
    assert_eq!(classify("where is main"), QueryType::Local);
    assert_eq!(classify("trace the architecture"), QueryType::PathTrace);
}

#[test]
fn merge_joins_with_separator() {
    assert_eq!(merge_results(vec![]), "");
    assert_eq!(merge_results(vec!["one".to_string()]), "one");
    assert_eq!(merge_results(vec!["a".to_string(), "b".to_string(), "c".to_string()]), "a\n---\nb\n---\nc");
}

#[test]
fn inference_text_format() {
    let t = Task { id: 1207, query: "how?".to_string(), context: String::new() };
    let r = inference_result(&t);
    assert_eq!(r.task_id, 1207);
    assert_eq!(r.output, "[Task 1207 Result]: Analyzed path for 'how?'");
    let z = inference_result(&Task { id: 0, query: String::new(), context: String::new() });
    assert_eq!(z.output, "[Task 0 Result]: Analyzed path for ''");
}

#[test]
fn reasoning_loop_stops_after_five() {
    let mut l = ReasoningLoop::new();
    let mut runs = 0;
    while l.may_continue() {
        l.record(TaskOutcome::Failed);
        l.record(TaskOutcome::TimedOut);
        l.record(TaskOutcome::Completed(format!("r{}", runs)));
        runs += 1;
    }
    assert_eq!(runs, 5);
    assert_eq!(l.finish(), "r0\n---\nr1\n---\nr2\n---\nr3\n---\nr4");
}

#[test]
fn api_key_is_cleaned() {
    assert_eq!(clean_api_key("  \"abc\"\n"), "abc");
    assert_eq!(clean_api_key("'k\"ey'"), "k\"ey");
    assert_eq!(clean_api_key("\u{3000}x "), "x");
    assert_eq!(clean_api_key("   "), "");
}

#[test]
fn prompt_and_url() {
    assert_eq!(build_prompt("CTX", "Q?"), "CTX\n\nBased on the above code structure, answer this question:\nQ?");
    assert_eq!(
        gemini_url("K"),
        "https://generativelanguage.googleapis.com/v1beta/models/gemini-1.5-flash:generateContent?key=K"
    );
    assert_eq!(answer_text(Some("hi".to_string())), Ok("hi".to_string()));
    assert_eq!(answer_text(None), Err("Failed to parse Gemini response structure".to_string()));
}

#[test]
fn chaos_run_shape() {
    let ev = chaos_events(3);
    assert_eq!(ev.len(), 101_000);
    assert_eq!(ev[0], Event::AddNode { id: 0, kind: aris::types::NodeType::Function, file_id: 3 });
    assert_eq!(ev[1], Event::ClearFile { file_id: 3 });
    assert_eq!(ev[2], Event::AddNode { id: 1, kind: aris::types::NodeType::Function, file_id: 3 });
    assert_eq!(ev[ev.len() - 1], Event::AddNode { id: 99_999, kind: aris::types::NodeType::Function, file_id: 3 });
}

#[test]
fn task_wire_form() {
    let m = task_message(Task { id: 4, query: "q".to_string(), context: "c".to_string() });
    assert_eq!((m.id, m.query.as_str(), m.context.as_str()), (4, "q", "c"));
}

#[test]
fn classify_lowercase_reads_words_as_given() {
    assert_eq!(classify_lowercase("trace it"), QueryType::PathTrace);
    assert_eq!(classify_lowercase("TRACE it"), QueryType::Local);
    assert_eq!(classify_lowercase("the architecture"), QueryType::GlobalSummary);
    assert_eq!(classify_lowercase("where"), QueryType::Local);
}

#[test]
fn pool_state_gates_and_collects() {
    let mut p = PoolState::new(2);
    assert!(p.accepts_task());
    p.task_started();
    p.task_started();
    assert!(!p.accepts_task());
    p.task_finished(Some("a".to_string()));
    assert!(p.accepts_task());
    p.task_finished(None);
    assert_eq!(p.running, 0);
    assert_eq!(p.finish(), "a");
}
