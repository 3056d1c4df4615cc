//! Graph algorithms over an in-memory graph of entities and directed edges.
pub mod error;
pub mod graph;
pub mod hashing;
pub mod json;
pub mod text;
pub mod graph_rewriting;
pub mod progress;
pub mod graph_diff;
pub mod observability;
pub mod reach;
pub mod traversal;
pub mod graph_ops;
pub mod pattern_match;
pub mod cut_partition;
pub mod partition;
pub mod critical_path;
pub mod call_graph;
pub mod dominators;
pub mod natural_loops;
pub mod control_dependence;
pub mod program_slicing;
