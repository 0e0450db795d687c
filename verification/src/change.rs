//! Change tracking for differential dataflow.
//!
//! A `Diff` represents the multiplicity change for a tuple.
//! A `Change` pairs a tuple with its diff.

use vstd::prelude::*;

use crate::tuple::Tuple;

verus! {

/// A difference/multiplicity value. Positive means insertions, negative means deletions.
#[derive(Debug, Clone, Copy, PartialEq, Eq, Structural, PartialOrd, Ord, Hash, Default)]
pub struct Diff(pub i64);

impl Diff {
    pub fn is_zero(self) -> (r: bool)
        ensures
            r == (self.0 == 0),
    {
        self.0 == 0
    }

    pub fn is_positive(self) -> (r: bool)
        ensures
            r == (self.0 > 0),
    {
        self.0 > 0
    }

    pub fn is_negative(self) -> (r: bool)
        ensures
            r == (self.0 < 0),
    {
        self.0 < 0
    }
}

impl core::ops::Add for Diff {
    type Output = Diff;

    fn add(self, rhs: Diff) -> (r: Diff) {
        Diff(self.0 + rhs.0)
    }
}

impl vstd::std_specs::ops::AddSpecImpl for Diff {
    open spec fn obeys_add_spec() -> bool {
        true
    }

    open spec fn add_req(self, rhs: Diff) -> bool {
        i64::MIN <= self.0 + rhs.0 <= i64::MAX
    }

    open spec fn add_spec(self, rhs: Diff) -> Diff {
        Diff((self.0 + rhs.0) as i64)
    }
}

impl core::ops::Sub for Diff {
    type Output = Diff;

    fn sub(self, rhs: Diff) -> (r: Diff) {
        Diff(self.0 - rhs.0)
    }
}

impl vstd::std_specs::ops::SubSpecImpl for Diff {
    open spec fn obeys_sub_spec() -> bool {
        true
    }

    open spec fn sub_req(self, rhs: Diff) -> bool {
        i64::MIN <= self.0 - rhs.0 <= i64::MAX
    }

    open spec fn sub_spec(self, rhs: Diff) -> Diff {
        Diff((self.0 - rhs.0) as i64)
    }
}

impl core::ops::Neg for Diff {
    type Output = Diff;

    fn neg(self) -> (r: Diff) {
        Diff(-self.0)
    }
}

impl vstd::std_specs::ops::NegSpecImpl for Diff {
    open spec fn obeys_neg_spec() -> bool {
        true
    }

    open spec fn neg_req(self) -> bool {
        self.0 != i64::MIN
    }

    open spec fn neg_spec(self) -> Diff {
        Diff((-self.0) as i64)
    }
}

impl core::ops::Mul<i64> for Diff {
    type Output = Diff;

    fn mul(self, rhs: i64) -> (r: Diff) {
        Diff(self.0 * rhs)
    }
}

impl vstd::std_specs::ops::MulSpecImpl<i64> for Diff {
    open spec fn obeys_mul_spec() -> bool {
        true
    }

    open spec fn mul_req(self, rhs: i64) -> bool {
        i64::MIN <= self.0 * rhs <= i64::MAX
    }

    open spec fn mul_spec(self, rhs: i64) -> Diff {
        Diff((self.0 * rhs) as i64)
    }
}

impl From<i64> for Diff {
    fn from(v: i64) -> (r: Diff) {
        Diff(v)
    }
}

impl vstd::std_specs::convert::FromSpecImpl<i64> for Diff {
    open spec fn obeys_from_spec() -> bool {
        true
    }

    open spec fn from_spec(v: i64) -> Diff {
        Diff(v)
    }
}

impl From<Diff> for i64 {
    fn from(d: Diff) -> (r: i64) {
        d.0
    }
}

impl vstd::std_specs::convert::FromSpecImpl<Diff> for i64 {
    open spec fn obeys_from_spec() -> bool {
        true
    }

    open spec fn from_spec(d: Diff) -> i64 {
        d.0
    }
}

impl View for Diff {
    type V = Diff;

    open spec fn view(&self) -> Diff {
        *self
    }
}

/// A change to a tuple: the tuple value paired with its diff.
pub struct Change<T> {
    pub tuple: T,
    pub diff: Diff,
}

impl<T> Change<T> {
    pub fn new(tuple: T, diff: Diff) -> (r: Self)
        ensures
            r.tuple == tuple,
            r.diff == diff,
    {
        Change { tuple, diff }
    }

    pub fn insert(tuple: T) -> (r: Self)
        ensures
            r.tuple == tuple,
            r.diff.0 == 1,
    {
        Change::new(tuple, Diff(1))
    }

    pub fn delete(tuple: T) -> (r: Self)
        ensures
            r.tuple == tuple,
            r.diff.0 == -1,
    {
        Change::new(tuple, Diff(-1))
    }

    pub fn map<U, F: FnOnce(T) -> U>(self, f: F) -> (r: Change<U>)
        requires
            call_requires(f, (self.tuple,)),
        ensures
            call_ensures(f, (self.tuple,), r.tuple),
            r.diff == self.diff,
    {
        Change { tuple: f(self.tuple), diff: self.diff }
    }
}

impl<T: Tuple> Change<T> {
    pub fn negate(&self) -> (r: Self)
        requires
            self.diff.0 != i64::MIN,
        ensures
            r.tuple@ == self.tuple@,
            r.diff.0 == -self.diff.0,
    {
        Change { tuple: self.tuple.tuple_clone(), diff: Diff(-self.diff.0) }
    }
}

} // verus!
