//! Pull-based relational operators.
//!
//! A relation is a stream of changes: `(tuple, diff)` pairs. `foreach` takes the pending
//! changes, pulling them from upstream.

pub mod ops_map;
pub mod ops_max;
pub mod ops_min;
pub mod relation;
pub mod variable_relation;

pub use ops_map::MapRelation;
pub use ops_max::{MaxRelation, max};
pub use ops_min::min;
pub use relation::Relation;
pub use variable_relation::VariableRelation;
