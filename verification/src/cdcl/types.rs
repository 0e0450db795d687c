//! Literals, variables, decision levels and clause identifiers.

use vstd::prelude::*;

use crate::tuple::{Tuple, TupleOrd, Val, ValView, val_pair};

verus! {

/// A literal is a variable with a sign (positive or negative).
/// Positive values represent the variable, negative values represent its negation.
#[derive(Debug, Clone, Copy, PartialEq, Eq, Structural, Hash, PartialOrd, Ord)]
pub struct Lit(pub(crate) i32);

/// A variable identifier.
#[derive(Debug, Clone, Copy, PartialEq, Eq, Structural, Hash, PartialOrd, Ord)]
pub struct Var(pub(crate) u32);

/// Decision level (0 = top-level/forced, 1+ = decision levels).
#[derive(Debug, Clone, Copy, PartialEq, Eq, Structural, Hash, PartialOrd, Ord, Default)]
pub struct Level(pub(crate) u32);

/// A clause ID for tracking which clause caused an implication.
#[derive(Debug, Clone, Copy, PartialEq, Eq, Structural, Hash, PartialOrd, Ord, Default)]
pub struct ClauseId(pub(crate) u32);

impl Lit {
    pub closed spec fn value(self) -> i32 {
        self.0
    }

    /// The positive literal of a variable.
    pub closed spec fn spec_pos(v: Var) -> Lit {
        Lit(v.0 as i32)
    }

    /// The negative literal of a variable.
    pub closed spec fn spec_neg(v: Var) -> Lit {
        Lit((-(v.0 as i32)) as i32)
    }

    /// The negation of the literal.
    pub closed spec fn spec_negated(self) -> Lit {
        Lit((-self.0) as i32)
    }

    /// Create a positive literal for a variable.
    pub fn pos(v: Var) -> (r: Self)
        ensures
            r == Lit::spec_pos(v),
            r.value() == v.value() as i32,
    {
        Lit(v.0 as i32)
    }

    /// Create a negative literal for a variable.
    pub fn neg(v: Var) -> (r: Self)
        requires
            v.value() as i32 != i32::MIN,
        ensures
            r == Lit::spec_neg(v),
            r.value() == -(v.value() as i32),
    {
        Lit(-(v.0 as i32))
    }

    /// Create a literal from a raw i32 (positive = positive literal, negative = negative literal).
    pub fn from_raw(raw: i32) -> (r: Self)
        requires
            raw != 0,
        ensures
            r.value() == raw,
    {
        Lit(raw)
    }

    /// The variable this literal refers to.
    pub closed spec fn spec_var(self) -> Var {
        Var(if self.0 < 0 {
            (-(self.0 as int)) as u32
        } else {
            self.0 as u32
        })
    }

    /// Get the variable this literal refers to.
    pub fn var(self) -> (r: Var)
        ensures
            r == self.spec_var(),
            r.value() == if self.value() < 0 {
                -self.value()
            } else {
                self.value() as int
            },
    {
        if self.0 < 0 {
            Var((-(self.0 as i64)) as u32)
        } else {
            Var(self.0 as u32)
        }
    }

    /// Check if this is a positive literal.
    pub fn is_positive(self) -> (r: bool)
        ensures
            r == (self.value() > 0),
    {
        self.0 > 0
    }

    /// Get the negation of this literal.
    pub fn negated(self) -> (r: Self)
        requires
            self.value() != i32::MIN,
        ensures
            r == self.spec_negated(),
            r.value() == -self.value(),
    {
        Lit(-self.0)
    }

    /// Get the raw i32 value.
    pub fn raw(self) -> (r: i32)
        ensures
            r == self.value(),
    {
        self.0
    }
}

/// The variable of a literal.
pub(crate) fn var(lit: Lit) -> (r: Var)
    ensures
        r == lit.spec_var(),
        r.value() == if lit.value() < 0 {
            -lit.value()
        } else {
            lit.value() as int
        },
{
    lit.var()
}

/// The negation of a literal.
pub(crate) fn neg(lit: Lit) -> (r: Lit)
    requires
        lit.value() != i32::MIN,
    ensures
        r == lit.spec_negated(),
        r.value() == -lit.value(),
{
    lit.negated()
}

impl Var {
    pub closed spec fn value(self) -> u32 {
        self.0
    }

    /// Create a variable from a 1-indexed number.
    pub fn new(n: u32) -> (r: Self)
        requires
            n > 0,
        ensures
            r.value() == n,
    {
        Var(n)
    }

    /// Get the raw u32 value.
    pub fn raw(self) -> (r: u32)
        ensures
            r == self.value(),
    {
        self.0
    }
}

impl Level {
    pub closed spec fn value(self) -> u32 {
        self.0
    }

    /// Create a new level.
    pub fn new(n: u32) -> (r: Self)
        ensures
            r.value() == n,
    {
        Level(n)
    }

    /// The top level (level 0) where unit clauses propagate.
    pub fn top() -> (r: Self)
        ensures
            r.value() == 0,
    {
        Level(0)
    }

    /// Get the raw u32 value.
    pub fn raw(self) -> (r: u32)
        ensures
            r == self.value(),
    {
        self.0
    }

    /// The next level.
    pub closed spec fn spec_next(self) -> Level {
        Level((self.0 + 1) as u32)
    }

    /// Increment the level.
    pub fn inc(&mut self)
        requires
            old(self).value() < u32::MAX,
        ensures
            *final(self) == old(self).spec_next(),
            final(self).value() == old(self).value() + 1,
    {
        self.0 = self.0 + 1;
    }

    /// Decrement the level, staying at zero.
    pub fn dec(&mut self)
        ensures
            final(self).value() == if old(self).value() == 0 {
                0
            } else {
                old(self).value() - 1
            },
    {
        self.0 = self.0.saturating_sub(1);
    }
}

impl ClauseId {
    pub closed spec fn value(self) -> u32 {
        self.0
    }

    /// The clause ID indicating a decision (no reason clause).
    pub closed spec fn spec_decision() -> ClauseId {
        ClauseId(0)
    }

    /// The clause ID indicating a decision (no reason clause).
    pub fn decision() -> (r: Self)
        ensures
            r == ClauseId::spec_decision(),
            r.value() == 0,
    {
        ClauseId(0)
    }

    /// Create a new clause ID.
    pub fn new(n: u32) -> (r: Self)
        ensures
            r.value() == n,
    {
        ClauseId(n)
    }

    /// Get the raw u32 value.
    pub fn raw(self) -> (r: u32)
        ensures
            r == self.value(),
    {
        self.0
    }

    /// Check if this is a decision (no reason clause).
    pub fn is_decision(self) -> (r: bool)
        ensures
            r == (self.value() == 0),
    {
        self.0 == 0
    }
}

impl View for Lit {
    type V = Lit;

    open spec fn view(&self) -> Lit {
        *self
    }
}

impl View for Var {
    type V = Var;

    open spec fn view(&self) -> Var {
        *self
    }
}

impl View for Level {
    type V = Level;

    open spec fn view(&self) -> Level {
        *self
    }
}

impl View for ClauseId {
    type V = ClauseId;

    open spec fn view(&self) -> ClauseId {
        *self
    }
}

impl Tuple for Lit {
    closed spec fn encode(v: Lit) -> ValView {
        ValView::I32(v.0)
    }

    proof fn lemma_encode_injective(a: Lit, b: Lit) {
    }

    fn tuple_eq(&self, other: &Self) -> (r: bool) {
        self.0 == other.0
    }

    fn tuple_clone(&self) -> (r: Self) {
        *self
    }

    fn to_val(&self) -> (v: Val) {
        Val::I32(self.0)
    }

    fn from_val(v: &Val) -> (r: Option<Self>) {
        match v {
            Val::I32(x) => Some(Lit(*x)),
            _ => None,
        }
    }
}

impl TupleOrd for Lit {
    closed spec fn spec_lt(a: Lit, b: Lit) -> bool {
        a.0 < b.0
    }

    proof fn lemma_order(a: Lit, b: Lit, c: Lit) {
    }

    fn tuple_lt(&self, other: &Self) -> (r: bool) {
        self.0 < other.0
    }
}

impl Tuple for Var {
    closed spec fn encode(v: Var) -> ValView {
        ValView::U32(v.0)
    }

    proof fn lemma_encode_injective(a: Var, b: Var) {
    }

    fn tuple_eq(&self, other: &Self) -> (r: bool) {
        self.0 == other.0
    }

    fn tuple_clone(&self) -> (r: Self) {
        *self
    }

    fn to_val(&self) -> (v: Val) {
        Val::U32(self.0)
    }

    fn from_val(v: &Val) -> (r: Option<Self>) {
        match v {
            Val::U32(x) => Some(Var(*x)),
            _ => None,
        }
    }
}

impl Tuple for Level {
    closed spec fn encode(v: Level) -> ValView {
        ValView::U32(v.0)
    }

    proof fn lemma_encode_injective(a: Level, b: Level) {
    }

    fn tuple_eq(&self, other: &Self) -> (r: bool) {
        self.0 == other.0
    }

    fn tuple_clone(&self) -> (r: Self) {
        *self
    }

    fn to_val(&self) -> (v: Val) {
        Val::U32(self.0)
    }

    fn from_val(v: &Val) -> (r: Option<Self>) {
        match v {
            Val::U32(x) => Some(Level(*x)),
            _ => None,
        }
    }
}

impl TupleOrd for Level {
    closed spec fn spec_lt(a: Level, b: Level) -> bool {
        a.0 < b.0
    }

    proof fn lemma_order(a: Level, b: Level, c: Level) {
    }

    fn tuple_lt(&self, other: &Self) -> (r: bool) {
        self.0 < other.0
    }
}

impl Tuple for ClauseId {
    closed spec fn encode(v: ClauseId) -> ValView {
        ValView::U32(v.0)
    }

    proof fn lemma_encode_injective(a: ClauseId, b: ClauseId) {
    }

    fn tuple_eq(&self, other: &Self) -> (r: bool) {
        self.0 == other.0
    }

    fn tuple_clone(&self) -> (r: Self) {
        *self
    }

    fn to_val(&self) -> (v: Val) {
        Val::U32(self.0)
    }

    fn from_val(v: &Val) -> (r: Option<Self>) {
        match v {
            Val::U32(x) => Some(ClauseId(*x)),
            _ => None,
        }
    }
}

impl TupleOrd for ClauseId {
    closed spec fn spec_lt(a: ClauseId, b: ClauseId) -> bool {
        a.0 < b.0
    }

    proof fn lemma_order(a: ClauseId, b: ClauseId, c: ClauseId) {
    }

    fn tuple_lt(&self, other: &Self) -> (r: bool) {
        self.0 < other.0
    }
}

/// Variables with the same number are equal.
pub proof fn lemma_var_eq(a: Var, b: Var)
    requires
        a.value() == b.value(),
    ensures
        a == b,
{
}

/// A conflict found while propagating.
#[derive(Debug, Clone, Copy, PartialEq, Eq, Structural, Hash)]
pub enum Conflict {
    /// Every literal of the clause is false.
    EmptyClause(ClauseId),
    /// Both polarities of the variable are assigned.
    DirectConflict(Var),
}

impl View for Conflict {
    type V = Conflict;

    open spec fn view(&self) -> Conflict {
        *self
    }
}

impl Tuple for Conflict {
    closed spec fn encode(v: Conflict) -> ValView {
        match v {
            Conflict::EmptyClause(c) => ValView::Pair(Box::new(ValView::Bool(false)), Box::new(ValView::U32(c.0))),
            Conflict::DirectConflict(x) => ValView::Pair(Box::new(ValView::Bool(true)), Box::new(ValView::U32(x.0))),
        }
    }

    proof fn lemma_encode_injective(a: Conflict, b: Conflict) {
    }

    fn tuple_eq(&self, other: &Self) -> (r: bool) {
        match (self, other) {
            (Conflict::EmptyClause(a), Conflict::EmptyClause(b)) => a.0 == b.0,
            (Conflict::DirectConflict(a), Conflict::DirectConflict(b)) => a.0 == b.0,
            _ => false,
        }
    }

    fn tuple_clone(&self) -> (r: Self) {
        *self
    }

    fn to_val(&self) -> (v: Val) {
        match self {
            Conflict::EmptyClause(c) => val_pair(Val::Bool(false), Val::U32(c.0)),
            Conflict::DirectConflict(x) => val_pair(Val::Bool(true), Val::U32(x.0)),
        }
    }

    fn from_val(v: &Val) -> (r: Option<Self>) {
        proof {
            reveal_with_fuel(crate::tuple::val_view, 2);
        }
        match v {
            Val::Pair(a, b) => match (&**a, &**b) {
                (Val::Bool(false), Val::U32(x)) => Some(Conflict::EmptyClause(ClauseId(*x))),
                (Val::Bool(true), Val::U32(x)) => Some(Conflict::DirectConflict(Var(*x))),
                _ => None,
            },
            _ => None,
        }
    }
}

} // verus!
