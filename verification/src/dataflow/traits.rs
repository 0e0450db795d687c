//! Operations on values that derived nodes apply, with their meaning on abstract values.
//!
//! The database wraps the closures that users hand it in implementations of these traits,
//! so that a node can hold its operation whatever the tuple types involved are.

use vstd::prelude::*;

use crate::tuple::{Val, ValView};

verus! {

/// A function from values to values.
pub trait ValFn {
    spec fn wf(&self) -> bool;

    spec fn spec_apply(&self, v: ValView) -> ValView;

    fn apply(&self, v: &Val) -> (r: Val)
        requires
            self.wf(),
        ensures
            r@ == self.spec_apply(v@),
    ;
}

/// A predicate on values.
pub trait ValPred {
    spec fn wf(&self) -> bool;

    spec fn spec_test(&self, v: ValView) -> bool;

    fn test(&self, v: &Val) -> (r: bool)
        requires
            self.wf(),
        ensures
            r == self.spec_test(v@),
    ;
}

/// A function from values to sequences of values.
pub trait ValFlat {
    spec fn wf(&self) -> bool;

    spec fn spec_apply(&self, v: ValView) -> Seq<ValView>;

    fn apply(&self, v: &Val) -> (r: Vec<Val>)
        requires
            self.wf(),
        ensures
            r@.map_values(|x: Val| x@) == self.spec_apply(v@),
    ;
}

/// A function from values to integers.
pub trait ValInt {
    spec fn wf(&self) -> bool;

    spec fn spec_value(&self, v: ValView) -> i64;

    fn value(&self, v: &Val) -> (r: i64)
        requires
            self.wf(),
        ensures
            r == self.spec_value(v@),
    ;
}

/// A strict order on values.
pub trait ValLess {
    spec fn wf(&self) -> bool;

    spec fn spec_less(&self, a: ValView, b: ValView) -> bool;

    fn less(&self, a: &Val, b: &Val) -> (r: bool)
        requires
            self.wf(),
        ensures
            r == self.spec_less(a@, b@),
    ;
}

} // verus!
