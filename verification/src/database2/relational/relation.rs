//! Relation: a differential stream of changes.

use vstd::prelude::*;

use crate::change::Diff;
use crate::database2::feedback::variable::pair_views;
use crate::tuple::Tuple;

verus! {

/// The core trait for relations. A relation is a stream of changes: `foreach` takes the
/// pending changes, each a tuple with its count.
pub trait Relation<T: Tuple> {
    /// The relation's internal invariant, which `foreach` keeps.
    spec fn wf(&self) -> bool;

    /// The changes the next `foreach` hands out, each tuple by its view.
    spec fn pending(&self) -> Seq<(T::V, int)>;

    /// Take the pending changes, pulling them from upstream.
    fn foreach(&mut self) -> (r: Vec<(T, Diff)>)
        requires
            old(self).wf(),
        ensures
            final(self).wf(),
            pair_views(r@) == old(self).pending(),
    ;
}

/// A boxed relation is the relation it holds.
impl<T: Tuple, R: Relation<T>> Relation<T> for Box<R> {
    closed spec fn wf(&self) -> bool {
        (**self).wf()
    }

    closed spec fn pending(&self) -> Seq<(T::V, int)> {
        (**self).pending()
    }

    fn foreach(&mut self) -> (r: Vec<(T, Diff)>) {
        (**self).foreach()
    }
}

} // verus!
