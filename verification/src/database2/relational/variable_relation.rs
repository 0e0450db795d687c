//! A relation that reads a variable, for feedback loops.

use vstd::prelude::*;

use crate::change::Diff;
use crate::database2::feedback::variable::{VariableState, pair_views};
use crate::database2::feedback::Variable;
use crate::database2::relational::relation::Relation;
use crate::tuple::Tuple;

verus! {

/// A relation that reads the changes of a variable.
///
/// Used in feedback loops to connect a variable's output to downstream operators.
pub struct VariableRelation<T: Tuple> {
    variable: Variable<T>,
}

impl<T: Tuple> VariableRelation<T> {
    /// The state of the variable read.
    pub closed spec fn state(&self) -> VariableState<T::V> {
        self.variable@
    }

    /// Create a relation reading the given variable.
    pub fn new(variable: Variable<T>) -> (r: Self)
        ensures
            r.state() == variable@,
    {
        VariableRelation { variable }
    }

    /// The variable read, to feed it more changes.
    pub fn variable_mut(&mut self) -> (r: &mut Variable<T>)
        ensures
            r@ == old(self).state(),
            final(self).state() == final(r)@,
    {
        &mut self.variable
    }
}

impl<T: Tuple> Relation<T> for VariableRelation<T> {
    /// A variable relation is always well formed.
    closed spec fn wf(&self) -> bool {
        true
    }

    /// The variable's pending changes.
    closed spec fn pending(&self) -> Seq<(T::V, int)> {
        self.variable@.pending
    }

    /// Take the variable's pending changes; the rest of its state stays.
    fn foreach(&mut self) -> (r: Vec<(T, Diff)>)
        ensures
            pair_views(r@) == old(self).state().pending,
            final(self).state() == (VariableState { pending: Seq::empty(), ..old(self).state() }),
    {
        self.variable.take_changes()
    }
}

} // verus!
