//! The dataflow graph: nodes holding relations and the operations that derive them.

pub mod graph;
pub mod traits;

pub use graph::{DataflowGraph, Node, NodeId, NodeKind, NodeOp};
