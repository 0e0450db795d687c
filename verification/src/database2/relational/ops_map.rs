//! Map operator: stateless, transforms each tuple.

use core::marker::PhantomData;

use vstd::prelude::*;

use crate::change::Diff;
use crate::database2::feedback::variable::pair_views;
use crate::database2::relational::relation::Relation;
use crate::tuple::Tuple;

verus! {

/// Every call of `f` returns the result that `g` gives on the argument's view.
pub open spec fn maps_by<T: View, U: View, F: Fn(T) -> U>(f: F, g: spec_fn(T::V) -> U::V) -> bool {
    forall|t: T, u: U| call_ensures(f, (t,), u) ==> u@ == g(t@)
}

/// `f` can be called on every tuple, and what it returns depends on the tuple's view alone.
pub open spec fn maps_total<T: View, U: View, F: Fn(T) -> U>(f: F) -> bool {
    &&& forall|t: T| call_requires(f, (t,))
    &&& exists|g: spec_fn(T::V) -> U::V| maps_by(f, g)
}

/// Each change with its tuple transformed by `g`.
pub open spec fn map_changes<X, Y>(cs: Seq<(X, int)>, g: spec_fn(X) -> Y) -> Seq<(Y, int)> {
    cs.map_values(|e: (X, int)| (g(e.0), e.1))
}

/// A relation whose changes are those of `inner`, each tuple transformed by `f`.
#[verifier::reject_recursive_types(T)]
#[verifier::reject_recursive_types(U)]
pub struct MapRelation<T: Tuple, U: Tuple, F: Fn(T) -> U, R: Relation<T>> {
    inner: R,
    f: F,
    g: Ghost<spec_fn(T::V) -> U::V>,
    marker: PhantomData<(T, U)>,
}

impl<T: Tuple, U: Tuple, F: Fn(T) -> U, R: Relation<T>> MapRelation<T, U, F, R> {
    /// `f` can be called on every tuple, `g` says what it returns, and the input is well formed.
    pub closed spec fn inv(&self) -> bool {
        &&& forall|t: T| call_requires(self.f, (t,))
        &&& maps_by(self.f, self.g@)
        &&& self.inner.wf()
    }

    /// What the relation does to the view of each tuple.
    pub closed spec fn func(&self) -> spec_fn(T::V) -> U::V {
        self.g@
    }

    /// The changes the input relation has pending.
    pub closed spec fn input_pending(&self) -> Seq<(T::V, int)> {
        self.inner.pending()
    }
}

impl<T: Tuple, U: Tuple, F: Fn(T) -> U, R: Relation<T>> Relation<U> for MapRelation<T, U, F, R> {
    closed spec fn wf(&self) -> bool {
        self.inv()
    }

    /// The input's pending changes, each tuple transformed.
    closed spec fn pending(&self) -> Seq<(U::V, int)> {
        map_changes(self.inner.pending(), self.g@)
    }

    /// Take the changes of `inner`, each tuple transformed.
    fn foreach(&mut self) -> (r: Vec<(U, Diff)>)
        ensures
            pair_views(r@) == map_changes(old(self).input_pending(), old(self).func()),
            final(self).func() == old(self).func(),
    {
        let mut changes = self.inner.foreach();
        let ghost cs = changes@;
        let ghost csv = pair_views(cs);
        let total = changes.len();
        let mut r: Vec<(U, Diff)> = Vec::new();
        let mut done: usize = 0;
        while changes.len() > 0
            invariant
                forall|t: T| call_requires(self.f, (t,)),
                maps_by(self.f, self.g@),
                csv == pair_views(cs),
                cs.len() == total,
                done == r@.len(),
                done + changes@.len() == cs.len(),
                changes@ == cs.subrange(done as int, cs.len() as int),
                pair_views(r@) == map_changes(csv.subrange(0, done as int), self.g@),
            decreases changes@.len(),
        {
            let ghost before = changes@;
            let (t, d) = changes.remove(0);
            proof {
                assert(before[0] == cs[done as int]);
                assert(changes@ =~= cs.subrange(done + 1, cs.len() as int));
            }
            let ghost r0 = r@;
            let u = (self.f)(t);
            r.push((u, d));
            proof {
                assert(csv[done as int] == (t@, d.0 as int));
                assert(pair_views(r@) =~= map_changes(csv.subrange(0, done + 1), self.g@)) by {
                    assert(pair_views(r@) =~= pair_views(r0).push((u@, d.0 as int)));
                    assert(csv.subrange(0, done + 1) =~= csv.subrange(0, done as int).push(csv[done as int]));
                }
            }
            done = done + 1;
        }
        proof {
            assert(csv.subrange(0, done as int) =~= csv);
        }
        r
    }
}

/// Create a map relation: each tuple of `input` transformed by `f`.
pub fn map<T: Tuple, U: Tuple, F: Fn(T) -> U, R: Relation<T>>(input: R, f: F) -> (r: MapRelation<T, U, F, R>)
    requires
        maps_total(f),
        input.wf(),
    ensures
        r.wf(),
        r.input_pending() == input.pending(),
        maps_by(f, r.func()),
{
    let ghost g = choose|g: spec_fn(T::V) -> U::V| maps_by(f, g);
    MapRelation { inner: input, f, g: Ghost(g), marker: PhantomData }
}

} // verus!
