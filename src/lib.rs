//! A lazily evaluated computation graph.
//!
//! Nodes live in an arena and are named by their index. Input leaves hold
//! values; operator nodes memoise the value computed from their arguments.
//! Setting an input clears the memoised value of every node that depends on
//! it, and `compute` recomputes only what is missing.

pub mod node;
pub mod graph;
pub mod laws;
