//! Commit identifiers: a counter that advances with each feedback iteration and each undo.

use vstd::prelude::*;

use crate::tuple::{Tuple, TupleOrd, Val, ValView};

verus! {

/// A commit identifier.
#[derive(Debug, Clone, Copy, PartialEq, Eq, Structural, PartialOrd, Ord, Hash)]
pub struct CommitId(pub u64);

impl CommitId {
    pub fn new(id: u64) -> (r: Self)
        ensures
            r.0 == id,
    {
        CommitId(id)
    }

    /// The number of the commit.
    pub fn raw(&self) -> (r: u64)
        ensures
            r == self.0,
    {
        self.0
    }
}

impl View for CommitId {
    type V = u64;

    open spec fn view(&self) -> u64 {
        self.0
    }
}

impl Tuple for CommitId {
    open spec fn encode(v: u64) -> ValView {
        ValView::U64(v)
    }

    proof fn lemma_encode_injective(a: u64, b: u64) {
    }

    fn tuple_eq(&self, other: &Self) -> (r: bool) {
        self.0 == other.0
    }

    fn tuple_clone(&self) -> (r: Self) {
        *self
    }

    fn to_val(&self) -> (v: Val) {
        Val::U64(self.0)
    }

    fn from_val(v: &Val) -> (r: Option<Self>) {
        match v {
            Val::U64(x) => Some(CommitId(*x)),
            _ => None,
        }
    }
}

impl TupleOrd for CommitId {
    open spec fn spec_lt(a: u64, b: u64) -> bool {
        a < b
    }

    proof fn lemma_order(a: u64, b: u64, c: u64) {
    }

    fn tuple_lt(&self, other: &Self) -> (r: bool) {
        self.0 < other.0
    }
}

} // verus!
