//! The database: relations, derived relations kept up to date, feedback loops and
//! checkpoints.

pub mod commit_id;
pub mod compute;
pub mod db;
pub mod fixpoint;
pub mod named;
pub mod ops;
pub mod relation;
pub mod stack;
pub mod typed;

pub use commit_id::CommitId;
pub use db::Database;
pub use relation::{Relation, Variable};
