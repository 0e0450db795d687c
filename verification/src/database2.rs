//! Push-based feedback over pull-based relational operators.

pub mod feedback;
pub mod relational;
