//! The user's closures, wrapped so that the nodes of the graph can apply them to values.
//!
//! A wrapper decodes a value as the closure's argument type, calls the closure and encodes
//! the result. On a value that encodes no argument it gives a fixed answer.

use core::marker::PhantomData;

use vstd::prelude::*;

use crate::dataflow::traits::{ValFlat, ValFn, ValInt, ValLess, ValPred};
use crate::operators::{fn_total, implements};
use crate::tuple::{Tuple, TupleOrd, Val, ValView, val_clone};

verus! {

/// `v` encodes some value of type `T`.
pub open spec fn decodes<T: Tuple>(v: ValView) -> bool {
    exists|x: T::V| T::encode(x) == v
}

/// The value of type `T` that `v` encodes.
pub open spec fn decode<T: Tuple>(v: ValView) -> T::V {
    choose|x: T::V| T::encode(x) == v
}

/// `g` applied to the value that `v` encodes, encoded; the unit value where `v` encodes none.
pub open spec fn lift<T: Tuple, U: Tuple>(g: spec_fn(T::V) -> U::V, v: ValView) -> ValView {
    if decodes::<T>(v) {
        U::encode(g(decode::<T>(v)))
    } else {
        ValView::Unit
    }
}

proof fn lemma_decode<T: Tuple>(t: T::V, v: ValView)
    requires
        T::encode(t) == v,
    ensures
        decodes::<T>(v),
        decode::<T>(v) == t,
{
    let x = decode::<T>(v);
    T::lemma_encode_injective(x, t);
}

/// A closure from `T` to `U`, with the spec function it implements.
#[verifier::reject_recursive_types(T)]
#[verifier::reject_recursive_types(U)]
pub struct TypedFn<T: Tuple, U: Tuple, F: Fn(&T) -> U> {
    pub f: F,
    pub g: Ghost<spec_fn(T::V) -> U::V>,
    pub marker: PhantomData<(T, U)>,
}

impl<T: Tuple, U: Tuple, F: Fn(&T) -> U> ValFn for TypedFn<T, U, F> {
    open spec fn wf(&self) -> bool {
        fn_total(self.f) && implements(self.f, self.g@)
    }

    open spec fn spec_apply(&self, v: ValView) -> ValView {
        lift::<T, U>(self.g@, v)
    }

    fn apply(&self, v: &Val) -> (r: Val) {
        match T::from_val(v) {
            Some(t) => {
                proof {
                    lemma_decode::<T>(t@, v@);
                }
                let u = (self.f)(&t);
                u.to_val()
            },
            None => Val::Unit,
        }
    }
}

/// A predicate on `T`, with the spec function it implements.
#[verifier::reject_recursive_types(T)]
pub struct TypedPred<T: Tuple, F: Fn(&T) -> bool> {
    pub f: F,
    pub g: Ghost<spec_fn(T::V) -> bool>,
    pub marker: PhantomData<T>,
}

impl<T: Tuple, F: Fn(&T) -> bool> ValPred for TypedPred<T, F> {
    open spec fn wf(&self) -> bool {
        fn_total(self.f) && implements(self.f, self.g@)
    }

    open spec fn spec_test(&self, v: ValView) -> bool {
        decodes::<T>(v) && (self.g@)(decode::<T>(v))
    }

    fn test(&self, v: &Val) -> (r: bool) {
        match T::from_val(v) {
            Some(t) => {
                proof {
                    lemma_decode::<T>(t@, v@);
                }
                (self.f)(&t)
            },
            None => false,
        }
    }
}

/// The encodings of the views of the values of `s`.
pub open spec fn encode_all<U: Tuple>(s: Seq<U>) -> Seq<ValView> {
    s.map_values(|u: U| U::encode(u@))
}

/// A closure from `T` to lists of `U`, with the spec function it implements.
#[verifier::reject_recursive_types(T)]
#[verifier::reject_recursive_types(U)]
pub struct TypedFlat<T: Tuple, U: Tuple, F: Fn(&T) -> Vec<U>> {
    pub f: F,
    pub g: Ghost<spec_fn(T::V) -> Seq<U>>,
    pub marker: PhantomData<(T, U)>,
}

impl<T: Tuple, U: Tuple, F: Fn(&T) -> Vec<U>> ValFlat for TypedFlat<T, U, F> {
    open spec fn wf(&self) -> bool {
        fn_total(self.f) && implements(self.f, self.g@)
    }

    open spec fn spec_apply(&self, v: ValView) -> Seq<ValView> {
        if decodes::<T>(v) {
            encode_all((self.g@)(decode::<T>(v)))
        } else {
            Seq::empty()
        }
    }

    fn apply(&self, v: &Val) -> (r: Vec<Val>) {
        match T::from_val(v) {
            Some(t) => {
                proof {
                    lemma_decode::<T>(t@, v@);
                }
                let us = (self.f)(&t);
                let ghost want = encode_all(us@);
                let mut r: Vec<Val> = Vec::new();
                let mut i: usize = 0;
                while i < us.len()
                    invariant
                        i <= us@.len(),
                        want == encode_all(us@),
                        r@.map_values(|x: Val| x@) =~= want.subrange(0, i as int),
                    decreases us@.len() - i,
                {
                    let x = us[i].to_val();
                    let ghost before = r@;
                    r.push(x);
                    proof {
                        assert(r@.map_values(|x: Val| x@) =~= before.map_values(|x: Val| x@).push(x@));
                    }
                    i = i + 1;
                }
                assert(want.subrange(0, us@.len() as int) =~= want);
                r
            },
            None => {
                let r: Vec<Val> = Vec::new();
                assert(r@.map_values(|x: Val| x@) =~= Seq::<ValView>::empty());
                r
            },
        }
    }
}

/// A closure from `T` to integers, with the spec function it implements.
#[verifier::reject_recursive_types(T)]
pub struct TypedInt<T: Tuple, F: Fn(&T) -> i64> {
    pub f: F,
    pub g: Ghost<spec_fn(T::V) -> i64>,
    pub marker: PhantomData<T>,
}

impl<T: Tuple, F: Fn(&T) -> i64> ValInt for TypedInt<T, F> {
    open spec fn wf(&self) -> bool {
        fn_total(self.f) && implements(self.f, self.g@)
    }

    open spec fn spec_value(&self, v: ValView) -> i64 {
        if decodes::<T>(v) {
            (self.g@)(decode::<T>(v))
        } else {
            0
        }
    }

    fn value(&self, v: &Val) -> (r: i64) {
        match T::from_val(v) {
            Some(t) => {
                proof {
                    lemma_decode::<T>(t@, v@);
                }
                (self.f)(&t)
            },
            None => 0,
        }
    }
}

/// The constant one, whatever the value.
pub struct One;

impl ValInt for One {
    open spec fn wf(&self) -> bool {
        true
    }

    open spec fn spec_value(&self, v: ValView) -> i64 {
        1
    }

    fn value(&self, v: &Val) -> (r: i64) {
        1
    }
}

/// The unit value, whatever the value.
pub struct ToUnit;

impl ValFn for ToUnit {
    open spec fn wf(&self) -> bool {
        true
    }

    open spec fn spec_apply(&self, v: ValView) -> ValView {
        ValView::Unit
    }

    fn apply(&self, v: &Val) -> (r: Val) {
        Val::Unit
    }
}

/// The value itself.
pub struct Identity;

impl ValFn for Identity {
    open spec fn wf(&self) -> bool {
        true
    }

    open spec fn spec_apply(&self, v: ValView) -> ValView {
        v
    }

    fn apply(&self, v: &Val) -> (r: Val) {
        val_clone(v)
    }
}

/// The second component of a pair; the unit value for anything else.
pub struct Second;

pub open spec fn second_of(v: ValView) -> ValView {
    match v {
        ValView::Pair(_, b) => *b,
        _ => ValView::Unit,
    }
}

impl ValFn for Second {
    open spec fn wf(&self) -> bool {
        true
    }

    open spec fn spec_apply(&self, v: ValView) -> ValView {
        second_of(v)
    }

    fn apply(&self, v: &Val) -> (r: Val) {
        match v {
            Val::Pair(_, b) => val_clone(b),
            _ => Val::Unit,
        }
    }
}

/// The order of `V`, or its reverse: `less(a, b)` where both encode values of `V` and
/// `a` comes before `b` (after `b` when reversed).
pub struct TypedLess<V: TupleOrd> {
    pub reverse: bool,
    pub marker: PhantomData<V>,
}

impl<V: TupleOrd> ValLess for TypedLess<V> {
    open spec fn wf(&self) -> bool {
        true
    }

    open spec fn spec_less(&self, a: ValView, b: ValView) -> bool {
        decodes::<V>(a) && decodes::<V>(b) && if self.reverse {
            V::spec_lt(decode::<V>(b), decode::<V>(a))
        } else {
            V::spec_lt(decode::<V>(a), decode::<V>(b))
        }
    }

    fn less(&self, a: &Val, b: &Val) -> (r: bool) {
        let x = V::from_val(a);
        let y = V::from_val(b);
        match (x, y) {
            (Some(x), Some(y)) => {
                proof {
                    lemma_decode::<V>(x@, a@);
                    lemma_decode::<V>(y@, b@);
                }
                if self.reverse {
                    y.tuple_lt(&x)
                } else {
                    x.tuple_lt(&y)
                }
            },
            _ => false,
        }
    }
}

} // verus!
