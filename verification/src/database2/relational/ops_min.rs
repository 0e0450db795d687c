//! Min operator: the least value by key, a max relation in reverse order.

use vstd::prelude::*;

use crate::database2::relational::ops_max::{MaxRelation, counts_view};
use crate::database2::relational::relation::Relation;
use crate::operators::{fn_total, implements, is_function};
use crate::tuple::{Tuple, TupleOrd};

verus! {

/// Create a min relation: for each key, the least value among the tuples of nonzero count.
pub fn min<T: Tuple, K: Tuple, V: TupleOrd, FK: Fn(&T) -> K, FV: Fn(&T) -> V, R: Relation<T>>(
    input: R,
    key_fn: FK,
    val_fn: FV,
) -> (r: MaxRelation<T, K, V, FK, FV, R>)
    requires
        fn_total(key_fn),
        fn_total(val_fn),
        is_function(key_fn),
        is_function(val_fn),
        input.wf(),
    ensures
        r.wf(),
        r.input_pending() == input.pending(),
        r.counts() == counts_view(Seq::<(K::V, Map<V::V, int>)>::empty()),
        r.spec_reverse(),
        !r.spec_overflowed(),
        r.key_of() == choose|g: spec_fn(T::V) -> K::V| implements(key_fn, g),
        r.value_of() == choose|g: spec_fn(T::V) -> V::V| implements(val_fn, g),
{
    MaxRelation::with_order(input, key_fn, val_fn, true)
}

} // verus!
