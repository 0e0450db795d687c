//! Push-based feedback and fixpoint computation.
//!
//! The key abstraction is the `Variable`, which:
//! 1. tracks a "seen set": tuples are only emitted once, when they first become positive;
//! 2. supports checkpointing for push/pop semantics;
//! 3. tracks input totals for reachability during pop.

pub mod counts;
pub mod variable;


pub use variable::Variable;
