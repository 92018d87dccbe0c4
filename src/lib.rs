//! Incremental subsequence search over a vocabulary stored in a trie.
//!
//! A `SearchTrie` holds the vocabulary. A session (`Engine`, `TEngine` or
//! `TPEngine`) takes typed characters one at a time, keeps one frontier of
//! trie positions per character, and lists the completions of the current
//! frontier, with matched characters between hyphens.

pub mod engine;
pub mod laws;
pub mod search;
pub mod t_engine;
mod text;
pub mod tp_engine;
pub mod trie;

pub use engine::Engine;
pub use search::{
    advance_frontier, advance_node, build_path, expand, render_frontier, render_node, traverse,
    HistoryNode, PathNode, SearchEngine, UNDO,
};
pub use t_engine::TEngine;
pub use tp_engine::{EngineError, TPEngine};
pub use trie::{SearchTrie, TrieNode};
