//! Verified core of a local retrieval-augmented search tool for Rust workspaces.
use vstd::prelude::*;

pub mod text;
pub mod error;
pub mod config;
pub mod indexer;
pub mod overlap;
pub mod state;
pub mod server;
pub mod tui;
pub mod vector_store;
pub mod eval;
pub mod callgraph;
pub mod embedding;
pub mod json;
pub mod mcp;
pub mod llm;
pub mod pipeline;
pub mod workspace;
pub mod transcript;
pub mod semantic_cache;
pub mod diagnostics;

verus! {
} // verus!
