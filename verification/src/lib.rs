//! Subgraph pattern matching on labeled directed graphs.
//!
//! The crate finds all embeddings of a small labeled pattern graph inside a
//! larger labeled data graph: candidate sets are built from a label index,
//! pruned by simulation to a fixpoint, and turned into injective,
//! edge-preserving assignments by backtracking search.

pub mod graph;
pub mod iso;
pub mod sorted;

pub use graph::Graph;
pub use graph::GraphBuilder;
pub use iso::dual_iso;
pub use iso::simple_iso;
