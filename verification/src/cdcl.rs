//! CDCL SAT solver built on the relational query engine.

pub mod solver;
pub mod types;

pub use solver::Solver;
pub use types::{ClauseId, Conflict, Level, Lit, Var};
