//! A code-structure graph: string interning, an adjacency graph with
//! mirrored edge sets and degree counts, bounded traversal, context
//! rendering under a token budget, and the event pipeline that keeps the
//! graph in step with the files it was built from.

pub mod types;
pub mod collections;
pub mod text;
pub mod graph;
pub mod interner;
pub mod traversal;
pub mod context;
pub mod events;
pub mod orchestrator;
pub mod parser;
pub mod github;
pub mod session;
pub mod llm;
pub mod network;
pub mod chaos_test;
