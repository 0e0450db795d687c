//! Typed handles to the nodes of a database.

use core::marker::PhantomData;

use vstd::prelude::*;

use crate::dataflow::NodeId;

verus! {

/// A relation of tuples of type `T`: a handle to a node of the database.
pub struct Relation<T> {
    pub id: NodeId,
    pub marker: PhantomData<T>,
}

impl<T> Relation<T> {
    pub fn new(id: NodeId) -> (r: Self)
        ensures
            r.id == id,
    {
        Relation { id, marker: PhantomData }
    }
}

impl<T> Clone for Relation<T> {
    fn clone(&self) -> (r: Self)
        ensures
            r.id == self.id,
    {
        Relation { id: self.id, marker: PhantomData }
    }
}

impl<T> Copy for Relation<T> {
}

/// The variable of a feedback loop, holding tuples of type `T`.
pub struct Variable<T> {
    pub id: NodeId,
    pub marker: PhantomData<T>,
}

impl<T> Variable<T> {
    pub fn new(id: NodeId) -> (r: Self)
        ensures
            r.id == id,
    {
        Variable { id, marker: PhantomData }
    }
}

impl<T> Clone for Variable<T> {
    fn clone(&self) -> (r: Self)
        ensures
            r.id == self.id,
    {
        Variable { id: self.id, marker: PhantomData }
    }
}

impl<T> Copy for Variable<T> {
}

} // verus!
