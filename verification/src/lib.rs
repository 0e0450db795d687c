//! A relational query engine with differential dataflow semantics.

pub mod tuple;
pub mod change;
pub mod collection;
pub mod cdcl;
pub mod operators;
pub mod dataflow;
pub mod database;
pub mod checkpoint;
pub mod database2;
pub mod pb_check;
pub mod proof_log;
