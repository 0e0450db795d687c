//! Tuples: the values stored in relations.
//!
//! Every tuple type has an abstract view, an executable equality that agrees
//! with that view, and an injective encoding into the universal value type
//! `Val`, which is what the database engine stores in its nodes.

use vstd::prelude::*;

verus! {

/// The universal value stored by the database engine.
pub enum Val {
    Unit,
    Bool(bool),
    I32(i32),
    I64(i64),
    U32(u32),
    U64(u64),
    Usize(usize),
    Text(&'static str),
    Owned(String),
    Pair(Box<Val>, Box<Val>),
    Triple(Box<Val>, Box<Val>, Box<Val>),
}

/// The abstract value of a `Val`.
pub enum ValView {
    Unit,
    Bool(bool),
    I32(i32),
    I64(i64),
    U32(u32),
    U64(u64),
    Usize(usize),
    Text(Seq<char>),
    Owned(Seq<char>),
    Pair(Box<ValView>, Box<ValView>),
    Triple(Box<ValView>, Box<ValView>, Box<ValView>),
}

pub open spec fn val_view(v: Val) -> ValView
    decreases v,
{
    match v {
        Val::Unit => ValView::Unit,
        Val::Bool(b) => ValView::Bool(b),
        Val::I32(x) => ValView::I32(x),
        Val::I64(x) => ValView::I64(x),
        Val::U32(x) => ValView::U32(x),
        Val::U64(x) => ValView::U64(x),
        Val::Usize(x) => ValView::Usize(x),
        Val::Text(s) => ValView::Text(s@),
        Val::Owned(s) => ValView::Owned(s@),
        Val::Pair(a, b) => ValView::Pair(Box::new(val_view(*a)), Box::new(val_view(*b))),
        Val::Triple(a, b, c) => ValView::Triple(
            Box::new(val_view(*a)),
            Box::new(val_view(*b)),
            Box::new(val_view(*c)),
        ),
    }
}

impl View for Val {
    type V = ValView;

    open spec fn view(&self) -> ValView {
        val_view(*self)
    }
}

/// Equality of two values, by their abstract values.
pub fn val_eq(a: &Val, b: &Val) -> (r: bool)
    ensures
        r == (a@ == b@),
    decreases a,
{
    match (a, b) {
        (Val::Unit, Val::Unit) => true,
        (Val::Bool(x), Val::Bool(y)) => *x == *y,
        (Val::I32(x), Val::I32(y)) => *x == *y,
        (Val::I64(x), Val::I64(y)) => *x == *y,
        (Val::U32(x), Val::U32(y)) => *x == *y,
        (Val::U64(x), Val::U64(y)) => *x == *y,
        (Val::Usize(x), Val::Usize(y)) => *x == *y,
        (Val::Text(x), Val::Text(y)) => (*x).to_owned() == (*y).to_owned(),
        (Val::Owned(x), Val::Owned(y)) => *x == *y,
        (Val::Pair(a1, a2), Val::Pair(b1, b2)) => {
            let e1 = val_eq(a1, b1);
            if !e1 {
                return false;
            }
            val_eq(a2, b2)
        },
        (Val::Triple(a1, a2, a3), Val::Triple(b1, b2, b3)) => {
            let e1 = val_eq(a1, b1);
            if !e1 {
                return false;
            }
            let e2 = val_eq(a2, b2);
            if !e2 {
                return false;
            }
            val_eq(a3, b3)
        },
        _ => false,
    }
}

/// A copy of a value with the same abstract value.
pub fn val_clone(a: &Val) -> (r: Val)
    ensures
        r@ == a@,
    decreases a,
{
    match a {
        Val::Unit => Val::Unit,
        Val::Bool(x) => Val::Bool(*x),
        Val::I32(x) => Val::I32(*x),
        Val::I64(x) => Val::I64(*x),
        Val::U32(x) => Val::U32(*x),
        Val::U64(x) => Val::U64(*x),
        Val::Usize(x) => Val::Usize(*x),
        Val::Text(s) => Val::Text(*s),
        Val::Owned(s) => Val::Owned(s.clone()),
        Val::Pair(x, y) => Val::Pair(Box::new(val_clone(x)), Box::new(val_clone(y))),
        Val::Triple(x, y, z) => Val::Triple(
            Box::new(val_clone(x)),
            Box::new(val_clone(y)),
            Box::new(val_clone(z)),
        ),
    }
}

/// The pair of two values.
pub fn val_pair(a: Val, b: Val) -> (r: Val)
    ensures
        r@ == ValView::Pair(Box::new(a@), Box::new(b@)),
{
    Val::Pair(Box::new(a), Box::new(b))
}

/// A type whose values can be stored in relations.
///
/// `tuple_eq` decides equality of abstract values, `tuple_clone` copies a value,
/// and `to_val`/`from_val` move between the type and its injective encoding in `Val`.
pub trait Tuple: Sized + View {
    /// The encoding of an abstract value into the universal value type.
    spec fn encode(v: Self::V) -> ValView;

    /// Distinct abstract values have distinct encodings.
    proof fn lemma_encode_injective(a: Self::V, b: Self::V)
        ensures
            Self::encode(a) == Self::encode(b) ==> a == b,
    ;

    fn tuple_eq(&self, other: &Self) -> (r: bool)
        ensures
            r == (self@ == other@),
    ;

    fn tuple_clone(&self) -> (r: Self)
        ensures
            r@ == self@,
    ;

    fn to_val(&self) -> (v: Val)
        ensures
            v@ == Self::encode(self@),
    ;

    fn from_val(v: &Val) -> (r: Option<Self>)
        ensures
            match r {
                Some(t) => Self::encode(t@) == v@,
                None => forall|x: Self::V| Self::encode(x) != v@,
            },
    ;
}

/// A tuple type with a strict total order on its abstract values.
pub trait TupleOrd: Tuple {
    spec fn spec_lt(a: Self::V, b: Self::V) -> bool;

    proof fn lemma_order(a: Self::V, b: Self::V, c: Self::V)
        ensures
            !Self::spec_lt(a, a),
            Self::spec_lt(a, b) && Self::spec_lt(b, c) ==> Self::spec_lt(a, c),
            a != b ==> Self::spec_lt(a, b) || Self::spec_lt(b, a),
    ;

    fn tuple_lt(&self, other: &Self) -> (r: bool)
        ensures
            r == Self::spec_lt(self@, other@),
    ;
}

impl Tuple for Val {
    open spec fn encode(v: ValView) -> ValView {
        v
    }

    proof fn lemma_encode_injective(a: ValView, b: ValView) {
    }

    fn tuple_eq(&self, other: &Self) -> (r: bool) {
        val_eq(self, other)
    }

    fn tuple_clone(&self) -> (r: Self) {
        val_clone(self)
    }

    fn to_val(&self) -> (v: Val) {
        val_clone(self)
    }

    fn from_val(v: &Val) -> (r: Option<Self>) {
        Some(val_clone(v))
    }
}

impl Tuple for () {
    open spec fn encode(v: ()) -> ValView {
        ValView::Unit
    }

    proof fn lemma_encode_injective(a: (), b: ()) {
    }

    fn tuple_eq(&self, other: &Self) -> (r: bool) {
        true
    }

    fn tuple_clone(&self) -> (r: Self) {
        ()
    }

    fn to_val(&self) -> (v: Val) {
        Val::Unit
    }

    fn from_val(v: &Val) -> (r: Option<Self>) {
        match v {
            Val::Unit => Some(()),
            _ => None,
        }
    }
}

impl Tuple for bool {
    open spec fn encode(v: bool) -> ValView {
        ValView::Bool(v)
    }

    proof fn lemma_encode_injective(a: bool, b: bool) {
    }

    fn tuple_eq(&self, other: &Self) -> (r: bool) {
        *self == *other
    }

    fn tuple_clone(&self) -> (r: Self) {
        *self
    }

    fn to_val(&self) -> (v: Val) {
        Val::Bool(*self)
    }

    fn from_val(v: &Val) -> (r: Option<Self>) {
        match v {
            Val::Bool(x) => Some(*x),
            _ => None,
        }
    }
}

impl Tuple for i32 {
    open spec fn encode(v: i32) -> ValView {
        ValView::I32(v)
    }

    proof fn lemma_encode_injective(a: i32, b: i32) {
    }

    fn tuple_eq(&self, other: &Self) -> (r: bool) {
        *self == *other
    }

    fn tuple_clone(&self) -> (r: Self) {
        *self
    }

    fn to_val(&self) -> (v: Val) {
        Val::I32(*self)
    }

    fn from_val(v: &Val) -> (r: Option<Self>) {
        match v {
            Val::I32(x) => Some(*x),
            _ => None,
        }
    }
}

impl TupleOrd for i32 {
    open spec fn spec_lt(a: i32, b: i32) -> bool {
        a < b
    }

    proof fn lemma_order(a: i32, b: i32, c: i32) {
    }

    fn tuple_lt(&self, other: &Self) -> (r: bool) {
        *self < *other
    }
}

impl Tuple for i64 {
    open spec fn encode(v: i64) -> ValView {
        ValView::I64(v)
    }

    proof fn lemma_encode_injective(a: i64, b: i64) {
    }

    fn tuple_eq(&self, other: &Self) -> (r: bool) {
        *self == *other
    }

    fn tuple_clone(&self) -> (r: Self) {
        *self
    }

    fn to_val(&self) -> (v: Val) {
        Val::I64(*self)
    }

    fn from_val(v: &Val) -> (r: Option<Self>) {
        match v {
            Val::I64(x) => Some(*x),
            _ => None,
        }
    }
}

impl TupleOrd for i64 {
    open spec fn spec_lt(a: i64, b: i64) -> bool {
        a < b
    }

    proof fn lemma_order(a: i64, b: i64, c: i64) {
    }

    fn tuple_lt(&self, other: &Self) -> (r: bool) {
        *self < *other
    }
}

impl Tuple for u32 {
    open spec fn encode(v: u32) -> ValView {
        ValView::U32(v)
    }

    proof fn lemma_encode_injective(a: u32, b: u32) {
    }

    fn tuple_eq(&self, other: &Self) -> (r: bool) {
        *self == *other
    }

    fn tuple_clone(&self) -> (r: Self) {
        *self
    }

    fn to_val(&self) -> (v: Val) {
        Val::U32(*self)
    }

    fn from_val(v: &Val) -> (r: Option<Self>) {
        match v {
            Val::U32(x) => Some(*x),
            _ => None,
        }
    }
}

impl TupleOrd for u32 {
    open spec fn spec_lt(a: u32, b: u32) -> bool {
        a < b
    }

    proof fn lemma_order(a: u32, b: u32, c: u32) {
    }

    fn tuple_lt(&self, other: &Self) -> (r: bool) {
        *self < *other
    }
}

impl Tuple for u64 {
    open spec fn encode(v: u64) -> ValView {
        ValView::U64(v)
    }

    proof fn lemma_encode_injective(a: u64, b: u64) {
    }

    fn tuple_eq(&self, other: &Self) -> (r: bool) {
        *self == *other
    }

    fn tuple_clone(&self) -> (r: Self) {
        *self
    }

    fn to_val(&self) -> (v: Val) {
        Val::U64(*self)
    }

    fn from_val(v: &Val) -> (r: Option<Self>) {
        match v {
            Val::U64(x) => Some(*x),
            _ => None,
        }
    }
}

impl TupleOrd for u64 {
    open spec fn spec_lt(a: u64, b: u64) -> bool {
        a < b
    }

    proof fn lemma_order(a: u64, b: u64, c: u64) {
    }

    fn tuple_lt(&self, other: &Self) -> (r: bool) {
        *self < *other
    }
}

impl Tuple for usize {
    open spec fn encode(v: usize) -> ValView {
        ValView::Usize(v)
    }

    proof fn lemma_encode_injective(a: usize, b: usize) {
    }

    fn tuple_eq(&self, other: &Self) -> (r: bool) {
        *self == *other
    }

    fn tuple_clone(&self) -> (r: Self) {
        *self
    }

    fn to_val(&self) -> (v: Val) {
        Val::Usize(*self)
    }

    fn from_val(v: &Val) -> (r: Option<Self>) {
        match v {
            Val::Usize(x) => Some(*x),
            _ => None,
        }
    }
}

impl Tuple for &'static str {
    open spec fn encode(v: Seq<char>) -> ValView {
        ValView::Text(v)
    }

    proof fn lemma_encode_injective(a: Seq<char>, b: Seq<char>) {
    }

    fn tuple_eq(&self, other: &Self) -> (r: bool) {
        (*self).to_owned() == (*other).to_owned()
    }

    fn tuple_clone(&self) -> (r: Self) {
        *self
    }

    fn to_val(&self) -> (v: Val) {
        Val::Text(*self)
    }

    fn from_val(v: &Val) -> (r: Option<Self>) {
        match v {
            Val::Text(s) => Some(*s),
            _ => None,
        }
    }
}

impl Tuple for String {
    open spec fn encode(v: Seq<char>) -> ValView {
        ValView::Owned(v)
    }

    proof fn lemma_encode_injective(a: Seq<char>, b: Seq<char>) {
    }

    fn tuple_eq(&self, other: &Self) -> (r: bool) {
        *self == *other
    }

    fn tuple_clone(&self) -> (r: Self) {
        self.clone()
    }

    fn to_val(&self) -> (v: Val) {
        Val::Owned(self.clone())
    }

    fn from_val(v: &Val) -> (r: Option<Self>) {
        match v {
            Val::Owned(s) => Some(s.clone()),
            _ => None,
        }
    }
}

impl<A: Tuple, B: Tuple> Tuple for (A, B) {
    open spec fn encode(v: (A::V, B::V)) -> ValView {
        ValView::Pair(Box::new(A::encode(v.0)), Box::new(B::encode(v.1)))
    }

    proof fn lemma_encode_injective(a: (A::V, B::V), b: (A::V, B::V)) {
        A::lemma_encode_injective(a.0, b.0);
        B::lemma_encode_injective(a.1, b.1);
    }

    fn tuple_eq(&self, other: &Self) -> (r: bool) {
        self.0.tuple_eq(&other.0) && self.1.tuple_eq(&other.1)
    }

    fn tuple_clone(&self) -> (r: Self) {
        (self.0.tuple_clone(), self.1.tuple_clone())
    }

    fn to_val(&self) -> (v: Val) {
        Val::Pair(Box::new(self.0.to_val()), Box::new(self.1.to_val()))
    }

    fn from_val(v: &Val) -> (r: Option<Self>) {
        match v {
            Val::Pair(x, y) => {
                let a = A::from_val(x);
                let b = B::from_val(y);
                match (a, b) {
                    (Some(a), Some(b)) => Some((a, b)),
                    _ => None,
                }
            },
            _ => None,
        }
    }
}

/// Pairs are ordered lexicographically.
impl<A: TupleOrd, B: TupleOrd> TupleOrd for (A, B) {
    open spec fn spec_lt(a: (A::V, B::V), b: (A::V, B::V)) -> bool {
        A::spec_lt(a.0, b.0) || (a.0 == b.0 && B::spec_lt(a.1, b.1))
    }

    proof fn lemma_order(a: (A::V, B::V), b: (A::V, B::V), c: (A::V, B::V)) {
        A::lemma_order(a.0, b.0, c.0);
        B::lemma_order(a.1, b.1, c.1);
        A::lemma_order(a.0, a.0, a.0);
        A::lemma_order(b.0, b.0, b.0);
        A::lemma_order(b.0, a.0, c.0);
        A::lemma_order(a.0, c.0, b.0);
    }

    fn tuple_lt(&self, other: &Self) -> (r: bool) {
        if self.0.tuple_lt(&other.0) {
            true
        } else if self.0.tuple_eq(&other.0) {
            self.1.tuple_lt(&other.1)
        } else {
            false
        }
    }
}

impl<A: Tuple, B: Tuple, C: Tuple> Tuple for (A, B, C) {
    open spec fn encode(v: (A::V, B::V, C::V)) -> ValView {
        ValView::Triple(
            Box::new(A::encode(v.0)),
            Box::new(B::encode(v.1)),
            Box::new(C::encode(v.2)),
        )
    }

    proof fn lemma_encode_injective(a: (A::V, B::V, C::V), b: (A::V, B::V, C::V)) {
        A::lemma_encode_injective(a.0, b.0);
        B::lemma_encode_injective(a.1, b.1);
        C::lemma_encode_injective(a.2, b.2);
    }

    fn tuple_eq(&self, other: &Self) -> (r: bool) {
        self.0.tuple_eq(&other.0) && self.1.tuple_eq(&other.1) && self.2.tuple_eq(&other.2)
    }

    fn tuple_clone(&self) -> (r: Self) {
        (self.0.tuple_clone(), self.1.tuple_clone(), self.2.tuple_clone())
    }

    fn to_val(&self) -> (v: Val) {
        Val::Triple(
            Box::new(self.0.to_val()),
            Box::new(self.1.to_val()),
            Box::new(self.2.to_val()),
        )
    }

    fn from_val(v: &Val) -> (r: Option<Self>) {
        match v {
            Val::Triple(x, y, z) => {
                let a = A::from_val(x);
                let b = B::from_val(y);
                let c = C::from_val(z);
                match (a, b, c) {
                    (Some(a), Some(b), Some(c)) => Some((a, b, c)),
                    _ => None,
                }
            },
            _ => None,
        }
    }
}

} // verus!
