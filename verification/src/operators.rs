//! Relational operators for differential dataflow.
//!
//! These operators define how derived relations are computed from their inputs.
//! User functions are closures; their meaning on abstract values is `fn_view`,
//! which is well defined for closures that are total and deterministic on views.

use vstd::prelude::*;

pub mod aggregate;
pub mod basic;
pub mod group_sum_state;
pub mod join;

pub use aggregate::{aggregate, count, max, min, sum};
pub use basic::{distinct, filter, union};
pub use group_sum_state::{GroupSumState, group_sum_changes, group_sum_init};
pub use join::{antijoin, join, join_changes_left, join_changes_right, semijoin};

verus! {

/// `f` can be called on every argument.
pub open spec fn fn_total<A, R, F: Fn(&A) -> R>(f: F) -> bool {
    forall|a: &A| call_requires(f, (a,))
}

/// Every call of `f` returns the result that `g` gives on the argument's view.
pub open spec fn implements<A: View, R: View, F: Fn(&A) -> R>(f: F, g: spec_fn(A::V) -> R::V) -> bool {
    forall|a: &A, r: R| call_ensures(f, (a,), r) ==> r@ == g(a@)
}

/// The views of the elements of `s`.
pub open spec fn views_of<K: View>(s: Seq<K>) -> Seq<K::V> {
    s.map_values(|k: K| k@)
}

/// `f` implements some spec function.
pub open spec fn is_function<A: View, R: View, F: Fn(&A) -> R>(f: F) -> bool {
    exists|g: spec_fn(A::V) -> R::V| implements(f, g)
}

/// `g` applied to the tuple of each entry of `s`.
pub open spec fn apply_keys<X, K>(s: Seq<(X, int)>, g: spec_fn(X) -> K) -> Seq<K> {
    s.map_values(|e: (X, int)| g(e.0))
}

} // verus!
