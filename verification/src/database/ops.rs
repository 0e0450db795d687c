//! Derived relations: each is a node of the graph whose state its operation computes from the
//! states of the nodes it reads, now and at every commit.

use core::marker::PhantomData;

use vstd::prelude::*;

use crate::dataflow::graph::{NodeId, NodeOp, node_wf, op_inputs, op_wf};
use crate::database::compute::{
    best_pairs, compute_op, filter_changes, group_best, group_totals, image_total, ints_of_entries, key_total,
    lemma_group_best, lemma_group_totals, total_pairs, join_changes, keys_of_entries, lemma_filter_count, lemma_join_pointwise,
    lemma_op_output_frame, lemma_transform_count, op_output, pair_view, transform_changes,
};
use crate::database::db::{Database, consistent_at, frame_refs_valid, lemma_inputs_below, op_refs_valid};
use crate::database::relation::Relation;
use crate::database::typed::{
    Identity, One, Second, ToUnit, TypedFlat, TypedFn, TypedInt, TypedLess, TypedPred, decode, decodes,
    encode_all, lift, second_of,
};
use crate::operators::{fn_total, implements, is_function};
use crate::collection::{
    Collection, apply_all, count_of, lemma_applies_distinct, lemma_apply_all_append, lemma_apply_all_distinct,
    lemma_nonzero_counts, lemma_seq_to_map_facts, seq_to_map, sums_fit, add_fits,
};
use crate::tuple::{Tuple, TupleOrd, Val, ValView};

verus! {

/// `op` transforms node `input` by `g` (on the values that encode a `T`).
pub open spec fn transforms_by<T: Tuple, U: Tuple>(op: NodeOp, input: usize, g: spec_fn(T::V) -> U::V) -> bool {
    match op {
        NodeOp::Transform { input: i, func } => i == input && forall|v: ValView| #[trigger] func.spec_apply(v) == lift::<T, U>(g, v),
        _ => false,
    }
}

/// `op` keeps the tuples of node `input` that satisfy `g`.
pub open spec fn filters_by<T: Tuple>(op: NodeOp, input: usize, g: spec_fn(T::V) -> bool) -> bool {
    match op {
        NodeOp::Filter { input: i, pred } => i == input && forall|v: ValView|
            #[trigger] pred.spec_test(v) == (decodes::<T>(v) && g(decode::<T>(v))),
        _ => false,
    }
}

/// `op` gives the tuples `g` lists for each tuple of node `input`.
pub open spec fn flattens_by<T: Tuple, U: Tuple>(op: NodeOp, input: usize, g: spec_fn(T::V) -> Seq<U>) -> bool {
    match op {
        NodeOp::FlatMap { input: i, flat } => i == input && forall|v: ValView|
            #[trigger] flat.spec_apply(v) == if decodes::<T>(v) { encode_all(g(decode::<T>(v))) } else { Seq::empty() },
        _ => false,
    }
}

/// `op` joins nodes `left` and `right` on the keys `gl` and `gr` give.
pub open spec fn joins_by<L: Tuple, R: Tuple, K: Tuple>(
    op: NodeOp,
    left: usize,
    right: usize,
    gl: spec_fn(L::V) -> K::V,
    gr: spec_fn(R::V) -> K::V,
) -> bool {
    match op {
        NodeOp::Join { left: l, right: r, key_left, key_right } => {
            &&& l == left
            &&& r == right
            &&& forall|v: ValView| #[trigger] key_left.spec_apply(v) == lift::<L, K>(gl, v)
            &&& forall|v: ValView| #[trigger] key_right.spec_apply(v) == lift::<R, K>(gr, v)
        },
        _ => false,
    }
}

/// `op` groups node `input` by the key `gk` gives and sums the weights `gw` gives, times the
/// multiplicities.
pub open spec fn sums_by<T: Tuple, K: Tuple>(op: NodeOp, input: usize, gk: spec_fn(T::V) -> K::V, gw: spec_fn(ValView) -> i64) -> bool {
    match op {
        NodeOp::GroupSum { input: i, key, weight } => {
            &&& i == input
            &&& forall|v: ValView| #[trigger] key.spec_apply(v) == lift::<T, K>(gk, v)
            &&& forall|v: ValView| #[trigger] weight.spec_value(v) == gw(v)
        },
        _ => false,
    }
}

/// The weight `g` gives to the value that `v` encodes, or zero.
pub open spec fn weight_of<T: Tuple>(g: spec_fn(T::V) -> i64, v: ValView) -> i64 {
    if decodes::<T>(v) {
        g(decode::<T>(v))
    } else {
        0
    }
}

/// `op` groups node `input` by the key `gk` gives and keeps, per key, the greatest (or with
/// `reverse`, the least) value `gv` gives among the tuples of positive multiplicity.
pub open spec fn bests_by<T: Tuple, K: Tuple, V: TupleOrd>(
    op: NodeOp,
    input: usize,
    gk: spec_fn(T::V) -> K::V,
    gv: spec_fn(T::V) -> V::V,
    reverse: bool,
) -> bool {
    match op {
        NodeOp::GroupBest { input: i, key, value, better } => {
            &&& i == input
            &&& forall|v: ValView| #[trigger] key.spec_apply(v) == lift::<T, K>(gk, v)
            &&& forall|v: ValView| #[trigger] value.spec_apply(v) == lift::<T, V>(gv, v)
            &&& forall|a: ValView, b: ValView| #[trigger] better.spec_less(a, b) == (decodes::<V>(a) && decodes::<V>(b) && if reverse {
                V::spec_lt(decode::<V>(b), decode::<V>(a))
            } else {
                V::spec_lt(decode::<V>(a), decode::<V>(b))
            })
        },
        _ => false,
    }
}

/// `m` holds `y` with positive multiplicity, and no tuple of positive multiplicity in `m` is
/// greater (with `reverse`, less) than `y` by the order of `T`.
pub open spec fn extreme_in<T: TupleOrd>(m: Map<ValView, int>, y: ValView, reverse: bool) -> bool {
    &&& count_of(m, y) > 0
    &&& forall|z: ValView| #[trigger] count_of(m, z) > 0 && decodes::<T>(y) && decodes::<T>(z) ==> !(if reverse {
        T::spec_lt(decode::<T>(z), decode::<T>(y))
    } else {
        T::spec_lt(decode::<T>(y), decode::<T>(z))
    })
}

/// The relation `r` holds, once, one tuple of `input` of positive multiplicity that no such
/// tuple exceeds (with `reverse`, undercuts), and nothing where `input` holds no tuple of
/// positive multiplicity.
pub open spec fn holds_extreme<T: TupleOrd>(input: Map<ValView, int>, r: Map<ValView, int>, reverse: bool) -> bool {
    &&& (forall|z: ValView| #[trigger] count_of(input, z) <= 0) ==> forall|y: ValView| #[trigger] count_of(r, y) == 0
    &&& (exists|z: ValView| #[trigger] count_of(input, z) > 0) ==> exists|m: ValView| #[trigger] extreme_in::<T>(input, m, reverse)
        && forall|y: ValView| #[trigger] count_of(r, y) == if y == m { 1int } else { 0int }
}

impl Database {
    /// `self` is `old` with one more node, a derived node computing `op`, whose state is what
    /// `op` gives, or empty (with the commit marked incomplete) where that does not fit in `i64`.
    pub closed spec fn derived_added(&self, old: &Self, r: NodeId, op: NodeOp) -> bool {
        &&& self.wf()
        &&& r.0 == old.nodes().len()
        &&& self.nodes().len() == old.nodes().len() + 1
        &&& self.nodes().subrange(0, r.0 as int) == old.nodes()
        &&& self.nodes()[r.0 as int].kind is Derived
        &&& self.nodes()[r.0 as int].op == op
        &&& self.names() == old.names()
        &&& self.strat@ == old.strat@
        &&& self.seen@ == old.seen@
        &&& self.frames@ == old.frames@
        &&& self.commit_id == old.commit_id
        &&& self.max_iterations == old.max_iterations
        &&& self.interrupted == old.interrupted
        &&& self.limit_reached == old.limit_reached
        &&& self.overflowed == (old.overflowed || op_output(op, self.nodes()) is None)
        &&& op_output(op, self.nodes()) is Some ==> consistent_at(self.nodes(), r.0 as int)
    }

    /// What `derived_added` says: the database is `old` with one more node, derived and
    /// computing `op`, which holds what `op` gives from the nodes (the commit being marked
    /// incomplete where that does not fit in `i64`); nothing else changes.
    pub proof fn lemma_derived_added(&self, old: &Self, r: NodeId, op: NodeOp)
        requires
            self.derived_added(old, r, op),
        ensures
            self.wf(),
            r.0 == old.nodes().len(),
            self.nodes().len() == old.nodes().len() + 1,
            self.nodes().subrange(0, r.0 as int) == old.nodes(),
            forall|i: int| 0 <= i < old.nodes().len() ==> #[trigger] self.nodes()[i] == old.nodes()[i],
            self.nodes()[r.0 as int].kind is Derived,
            self.nodes()[r.0 as int].op == op,
            self.names() == old.names(),
            self.ops() == old.ops(),
            self.frame_count() == old.frame_count(),
            self.spec_commit_id() == old.spec_commit_id(),
            self.spec_max_iterations() == old.spec_max_iterations(),
            self.spec_interrupted() == old.spec_interrupted(),
            self.spec_incomplete() == (old.spec_incomplete() || op_output(op, self.nodes()) is None),
            op_output(op, self.nodes()) is Some ==> op_output(op, self.nodes()) == Some(self.state(r.0 as int)),
    {
        self.lemma_defs();
        old.lemma_defs();
        assert forall|i: int| 0 <= i < old.nodes().len() implies #[trigger] self.nodes()[i] == old.nodes()[i] by {
            assert(self.nodes().subrange(0, r.0 as int)[i] == self.nodes()[i]);
        }
        if op_output(op, self.nodes()) is Some {
            assert(consistent_at(self.nodes(), r.0 as int));
        }
    }

    /// A derived join node that holds what its operation gives (as after a commit that was
    /// neither interrupted nor incomplete) holds, for each pair of values, the product of their
    /// multiplicities in its inputs where their keys agree, and nothing where they do not.
    pub proof fn lemma_join_state(&self, j: int)
        requires
            self.wf(),
            0 <= j < self.nodes().len(),
            consistent_at(self.nodes(), j),
            self.nodes()[j].kind is Derived,
        ensures
            match self.nodes()[j].op {
                NodeOp::Join { left, right, key_left, key_right } => forall|a: ValView, b: ValView|
                    #[trigger] count_of(self.state(j), pair_view(a, b)) == if key_left.spec_apply(a) == key_right.spec_apply(b) {
                        count_of(self.state(left as int), a) * count_of(self.state(right as int), b)
                    } else {
                        0
                    },
                _ => true,
            },
    {
        self.lemma_defs();
        match self.nodes()[j].op {
            NodeOp::Join { left, right, key_left, key_right } => {
                let nodes = self.nodes();
                assert(node_wf(nodes, j));
                assert(op_inputs(&nodes[j].op)[0] == left && op_inputs(&nodes[j].op)[1] == right);
                assert(nodes[j].inputs@[0].0 == left && nodes[j].inputs@[1].0 == right);
                assert(node_wf(nodes, left as int));
                assert(node_wf(nodes, right as int));
                let el = nodes[left as int].state.entries();
                let er = nodes[right as int].state.entries();
                let fl = |v: ValView| key_left.spec_apply(v);
                let fr = |v: ValView| key_right.spec_apply(v);
                assert forall|a: ValView, b: ValView|
                    #[trigger] count_of(self.state(j), pair_view(a, b)) == if key_left.spec_apply(a) == key_right.spec_apply(b) {
                        count_of(self.state(left as int), a) * count_of(self.state(right as int), b)
                    } else {
                        0
                    } by {
                    lemma_join_pointwise(Map::empty(), el, er, fl, fr, a, b);
                    lemma_nonzero_counts(apply_all(Map::empty(), join_changes(el, keys_of_entries(el, fl), er, keys_of_entries(er, fr))));
                }
            },
            _ => {},
        }
    }

    /// A derived map node that holds what its operation gives holds, for each value, the sum
    /// of the multiplicities of the entries of its input that its function takes to it.
    pub proof fn lemma_map_state(&self, j: int)
        requires
            self.wf(),
            0 <= j < self.nodes().len(),
            consistent_at(self.nodes(), j),
            self.nodes()[j].kind is Derived,
        ensures
            match self.nodes()[j].op {
                NodeOp::Transform { input, func } => forall|y: ValView| #[trigger] count_of(self.state(j), y)
                    == image_total(self.nodes()[input as int].state.entries(), |v: ValView| func.spec_apply(v), y),
                _ => true,
            },
    {
        self.lemma_defs();
        match self.nodes()[j].op {
            NodeOp::Transform { input, func } => {
                let nodes = self.nodes();
                let e = nodes[input as int].state.entries();
                let f = |v: ValView| func.spec_apply(v);
                assert forall|y: ValView| #[trigger] count_of(self.state(j), y) == image_total(e, f, y) by {
                    lemma_transform_count(e, f, y);
                    lemma_nonzero_counts(apply_all(Map::empty(), transform_changes(e, f)));
                }
            },
            _ => {},
        }
    }

    /// A derived filter node that holds what its operation gives holds each value its input
    /// holds, with the same multiplicity, where the predicate holds of it, and nothing else.
    pub proof fn lemma_filter_state(&self, j: int)
        requires
            self.wf(),
            0 <= j < self.nodes().len(),
            consistent_at(self.nodes(), j),
            self.nodes()[j].kind is Derived,
        ensures
            match self.nodes()[j].op {
                NodeOp::Filter { input, pred } => forall|v: ValView| #[trigger] count_of(self.state(j), v)
                    == if pred.spec_test(v) { count_of(self.state(input as int), v) } else { 0 },
                _ => true,
            },
    {
        self.lemma_defs();
        match self.nodes()[j].op {
            NodeOp::Filter { input, pred } => {
                let nodes = self.nodes();
                assert(node_wf(nodes, j));
                assert(nodes[j].inputs@[0].0 == input);
                assert(node_wf(nodes, input as int));
                let e = nodes[input as int].state.entries();
                let p = |v: ValView| pred.spec_test(v);
                assert forall|v: ValView| #[trigger] count_of(self.state(j), v)
                    == if pred.spec_test(v) { count_of(self.state(input as int), v) } else { 0 } by {
                    lemma_filter_count(e, p, e.len() as int, v);
                    assert(e.subrange(0, e.len() as int) =~= e);
                    lemma_nonzero_counts(apply_all(Map::empty(), filter_changes(e, p)));
                    lemma_apply_all_distinct(Map::empty(), e);
                }
            },
            _ => {},
        }
    }

    /// The grouping under the unit key keeps the extreme tuple of the input, and the relation
    /// of its values holds just that tuple.
    proof fn lemma_extreme_state<T: TupleOrd>(&self, i: int, g: int, r: int, reverse: bool)
        requires
            self.wf(),
            0 <= i < g,
            r == g + 1,
            r < self.nodes().len(),
            consistent_at(self.nodes(), g),
            consistent_at(self.nodes(), r),
            self.nodes()[g].kind is Derived,
            self.nodes()[r].kind is Derived,
            self.nodes()[g].op matches NodeOp::GroupBest { input: ii, key, value, better }
                && ii == i
                && (forall|v: ValView| #[trigger] key.spec_apply(v) == ValView::Unit)
                && (forall|v: ValView| #[trigger] value.spec_apply(v) == v)
                && (forall|a: ValView, b: ValView| #[trigger] better.spec_less(a, b) == (decodes::<T>(a) && decodes::<T>(b) && if reverse {
                    T::spec_lt(decode::<T>(b), decode::<T>(a))
                } else {
                    T::spec_lt(decode::<T>(a), decode::<T>(b))
                })),
            self.nodes()[r].op matches NodeOp::Transform { input: gi, func }
                && gi == g
                && (forall|v: ValView| #[trigger] func.spec_apply(v) == second_of(v)),
        ensures
            holds_extreme::<T>(self.state(i), self.state(r), reverse),
    {
        self.lemma_defs();
        let nodes = self.nodes();
        assert(node_wf(nodes, i));
        assert(node_wf(nodes, g));
        match nodes[g].op {
            NodeOp::GroupBest { input: ii, key, value, better } => {
                match nodes[r].op {
                    NodeOp::Transform { input: gi, func } => {
                let e = nodes[i].state.entries();
                let ks = keys_of_entries(e, |v: ValView| key.spec_apply(v));
                let vs = keys_of_entries(e, |v: ValView| value.spec_apply(v));
                let bf = |a: ValView, b: ValView| better.spec_less(a, b);
                assert forall|a: ValView, b: ValView, c: ValView| #[trigger] bf(a, b) && #[trigger] bf(b, c) implies bf(a, c) by {
                    T::lemma_order(decode::<T>(a), decode::<T>(b), decode::<T>(c));
                    T::lemma_order(decode::<T>(c), decode::<T>(b), decode::<T>(a));
                }
                assert forall|a: ValView| !#[trigger] bf(a, a) by {
                    T::lemma_order(decode::<T>(a), decode::<T>(a), decode::<T>(a));
                }
                lemma_group_best(e, ks, vs, bf, e.len() as int);
                let gb = group_best(e, ks, vs, bf, e.len() as int);
                assert(self.state(g) == best_pairs(gb));
                lemma_seq_to_map_facts(e);
                let u = ValView::Unit;
                let ge = nodes[g].state.entries();
                assert(node_wf(nodes, g));
                lemma_seq_to_map_facts(ge);
                self.lemma_map_state(r);
                if exists|z: ValView| #[trigger] count_of(self.state(i), z) > 0 {
                    let z = choose|z: ValView| #[trigger] count_of(self.state(i), z) > 0;
                    let j = choose|j: int| 0 <= j < e.len() && e[j].0 == z;
                    assert(e[j].1 > 0 && ks[j] == u);
                    assert(gb.contains_key(u));
                    let m = gb[u];
                    let w = choose|w: int| 0 <= w < e.len() && e[w].1 > 0 && ks[w] == u && vs[w] == m;
                    assert(vs[w] == e[w].0);
                    assert(count_of(self.state(i), m) > 0);
                    assert forall|z2: ValView| #[trigger] count_of(self.state(i), z2) > 0 && decodes::<T>(m) && decodes::<T>(z2) implies !(if reverse {
                        T::spec_lt(decode::<T>(z2), decode::<T>(m))
                    } else {
                        T::spec_lt(decode::<T>(m), decode::<T>(z2))
                    }) by {
                        let j2 = choose|j2: int| 0 <= j2 < e.len() && e[j2].0 == z2;
                        assert(e[j2].1 > 0);
                        assert(ks[j2] == u && vs[j2] == z2);
                        assert(!bf(gb[ks[j2]], vs[j2]));
                    }
                    assert(extreme_in::<T>(self.state(i), m, reverse));
                    let p = pair_view(u, m);
                    assert(best_pairs(gb).dom() =~= set![p]) by {
                        assert forall|q: ValView| best_pairs(gb).dom().contains(q) implies q == p by {
                            let k = choose|k: ValView| gb.contains_key(k) && q == pair_view(k, gb[k]);
                            let w2 = choose|w2: int| 0 <= w2 < e.len() && e[w2].1 > 0 && ks[w2] == k;
                        }
                    }
                    assert(set![p].len() == 1) by {
                        assert(set![p] == Set::<ValView>::empty().insert(p));
                    }
                    assert(ge.len() == 1);
                    assert(seq_to_map(ge).contains_key(ge[0].0));
                    assert(ge[0].0 == p);
                    assert(ge[0].1 == 1);
                    assert(ge.drop_last().len() == 0);
                    assert forall|y: ValView| #[trigger] count_of(self.state(r), y) == if y == m { 1int } else { 0int } by {
                        assert(image_total(ge.drop_last(), |v: ValView| func.spec_apply(v), y) == 0);
                        assert(func.spec_apply(p) == m);
                    }
                } else {
                    assert(forall|z: ValView| #[trigger] count_of(self.state(i), z) <= 0);
                    assert(!gb.contains_key(u)) by {
                        if gb.contains_key(u) {
                            let w = choose|w: int| 0 <= w < e.len() && e[w].1 > 0 && ks[w] == u;
                            assert(count_of(self.state(i), e[w].0) > 0);
                        }
                    }
                    assert(best_pairs(gb).dom() =~= Set::<ValView>::empty()) by {
                        assert forall|q: ValView| !best_pairs(gb).dom().contains(q) by {
                            if best_pairs(gb).dom().contains(q) {
                                let k = choose|k: ValView| gb.contains_key(k) && q == pair_view(k, gb[k]);
                                let w2 = choose|w2: int| 0 <= w2 < e.len() && e[w2].1 > 0 && ks[w2] == k;
                            }
                        }
                    }
                    assert(ge.len() == 0);
                    assert forall|y: ValView| #[trigger] count_of(self.state(r), y) == 0 by {}
                }
                    },
                    _ => {},
                }
            },
            _ => {},
        }
    }

    /// A derived grouping node that keeps a best value per key (its order being transitive and
    /// irreflexive), holding what its operation gives, holds once the pair of each key of a
    /// tuple of positive multiplicity in its input with a best value: the value of such a tuple
    /// of that key that the value of no such tuple of that key betters; and nothing else.
    pub proof fn lemma_group_best_state(&self, j: int)
        requires
            self.wf(),
            0 <= j < self.nodes().len(),
            consistent_at(self.nodes(), j),
            self.nodes()[j].kind is Derived,
            self.nodes()[j].op matches NodeOp::GroupBest { better, .. } ==> {
                &&& forall|a: ValView, b: ValView, c: ValView| #[trigger] better.spec_less(a, b) && #[trigger] better.spec_less(b, c)
                    ==> better.spec_less(a, c)
                &&& forall|a: ValView| !#[trigger] better.spec_less(a, a)
            },
        ensures
            match self.nodes()[j].op {
                NodeOp::GroupBest { input, key, value, better } => {
                    &&& forall|p: ValView| #[trigger] count_of(self.state(j), p) == 0 || count_of(self.state(j), p) == 1
                    &&& forall|p: ValView| #[trigger] count_of(self.state(j), p) == 1 ==> exists|t: ValView| {
                        &&& count_of(self.state(input as int), t) > 0
                        &&& p == pair_view(key.spec_apply(t), value.spec_apply(t))
                        &&& forall|t2: ValView| #[trigger] count_of(self.state(input as int), t2) > 0 && key.spec_apply(t2) == key.spec_apply(t)
                            ==> !better.spec_less(value.spec_apply(t), value.spec_apply(t2))
                    }
                    &&& forall|t: ValView| #[trigger] count_of(self.state(input as int), t) > 0 ==> exists|v: ValView|
                        #[trigger] count_of(self.state(j), pair_view(key.spec_apply(t), v)) == 1
                    &&& forall|k: ValView, v1: ValView, v2: ValView| #[trigger] count_of(self.state(j), pair_view(k, v1)) == 1
                        && #[trigger] count_of(self.state(j), pair_view(k, v2)) == 1 ==> v1 == v2
                },
                _ => true,
            },
    {
        self.lemma_defs();
        let nodes = self.nodes();
        match nodes[j].op {
            NodeOp::GroupBest { input, key, value, better } => {
                assert(node_wf(nodes, j));
                assert(nodes[j].inputs@[0].0 == input);
                assert(node_wf(nodes, input as int));
                let e = nodes[input as int].state.entries();
                let ks = keys_of_entries(e, |v: ValView| key.spec_apply(v));
                let vs = keys_of_entries(e, |v: ValView| value.spec_apply(v));
                let bf = |a: ValView, b: ValView| better.spec_less(a, b);
                assert forall|a: ValView, b: ValView, c: ValView| #[trigger] bf(a, b) && #[trigger] bf(b, c) implies bf(a, c) by {
                    assert(better.spec_less(a, b) && better.spec_less(b, c));
                }
                assert forall|a: ValView| !#[trigger] bf(a, a) by {
                    assert(!better.spec_less(a, a));
                }
                lemma_group_best(e, ks, vs, bf, e.len() as int);
                let gb = group_best(e, ks, vs, bf, e.len() as int);
                assert(self.state(j) == best_pairs(gb));
                lemma_seq_to_map_facts(e);
                let inp = self.state(input as int);
                assert forall|p: ValView| #[trigger] count_of(self.state(j), p) == 1 implies exists|t: ValView| {
                    &&& count_of(inp, t) > 0
                    &&& p == pair_view(key.spec_apply(t), value.spec_apply(t))
                    &&& forall|t2: ValView| #[trigger] count_of(inp, t2) > 0 && key.spec_apply(t2) == key.spec_apply(t)
                        ==> !better.spec_less(value.spec_apply(t), value.spec_apply(t2))
                } by {
                    let k = choose|k: ValView| gb.contains_key(k) && p == pair_view(k, gb[k]);
                    let w = choose|w: int| 0 <= w < e.len() && e[w].1 > 0 && ks[w] == k && vs[w] == gb[k];
                    let t = e[w].0;
                    assert(count_of(inp, t) > 0);
                    assert forall|t2: ValView| #[trigger] count_of(inp, t2) > 0 && key.spec_apply(t2) == key.spec_apply(t)
                        implies !better.spec_less(value.spec_apply(t), value.spec_apply(t2)) by {
                        let w2 = choose|w2: int| 0 <= w2 < e.len() && e[w2].0 == t2;
                        assert(e[w2].1 > 0 && ks[w2] == k && vs[w2] == value.spec_apply(t2));
                        assert(!bf(gb[ks[w2]], vs[w2]));
                    }
                }
                assert forall|t: ValView| #[trigger] count_of(inp, t) > 0 implies exists|v: ValView|
                    #[trigger] count_of(self.state(j), pair_view(key.spec_apply(t), v)) == 1 by {
                    let w = choose|w: int| 0 <= w < e.len() && e[w].0 == t;
                    assert(e[w].1 > 0 && ks[w] == key.spec_apply(t));
                    assert(gb.contains_key(key.spec_apply(t)));
                    assert(count_of(self.state(j), pair_view(key.spec_apply(t), gb[key.spec_apply(t)])) == 1);
                }
                assert forall|k: ValView, v1: ValView, v2: ValView| #[trigger] count_of(self.state(j), pair_view(k, v1)) == 1
                    && #[trigger] count_of(self.state(j), pair_view(k, v2)) == 1 implies v1 == v2 by {
                    let k1 = choose|k1: ValView| gb.contains_key(k1) && pair_view(k, v1) == pair_view(k1, gb[k1]);
                    let k2 = choose|k2: ValView| gb.contains_key(k2) && pair_view(k, v2) == pair_view(k2, gb[k2]);
                }
            },
            _ => {},
        }
    }

    /// A derived group-sum node that holds what its operation gives holds once the pair of each
    /// key of an entry of its input with the sum, over the entries of that key, of value times
    /// multiplicity; and nothing else.
    pub proof fn lemma_group_sum_state(&self, j: int)
        requires
            self.wf(),
            0 <= j < self.nodes().len(),
            consistent_at(self.nodes(), j),
            self.nodes()[j].kind is Derived,
        ensures
            match self.nodes()[j].op {
                NodeOp::GroupSum { input, key, weight } => {
                    let e = self.nodes()[input as int].state.entries();
                    let ks = keys_of_entries(e, |v: ValView| key.spec_apply(v));
                    let vs = ints_of_entries(e, |v: ValView| weight.spec_value(v));
                    forall|p: ValView| #[trigger] count_of(self.state(j), p) == if exists|i: int| 0 <= i < e.len()
                        && p == pair_view(ks[i], ValView::I64(key_total(e, ks, vs, e.len() as int, ks[i]) as i64)) {
                        1int
                    } else {
                        0int
                    }
                },
                _ => true,
            },
    {
        self.lemma_defs();
        let nodes = self.nodes();
        match nodes[j].op {
            NodeOp::GroupSum { input, key, weight } => {
                let e = nodes[input as int].state.entries();
                let ks = keys_of_entries(e, |v: ValView| key.spec_apply(v));
                let vs = ints_of_entries(e, |v: ValView| weight.spec_value(v));
                let t = group_totals(e, ks, vs, e.len() as int);
                lemma_group_totals(e, ks, vs, e.len() as int);
                assert(self.state(j) == total_pairs(t));
                assert forall|p: ValView| #[trigger] count_of(self.state(j), p) == if exists|i: int| 0 <= i < e.len()
                    && p == pair_view(ks[i], ValView::I64(key_total(e, ks, vs, e.len() as int, ks[i]) as i64)) {
                    1int
                } else {
                    0int
                } by {
                    if total_pairs(t).contains_key(p) {
                        let k = choose|k: ValView| t.contains_key(k) && p == pair_view(k, ValView::I64(t[k] as i64));
                        let i = choose|i: int| 0 <= i < e.len() && ks[i] == k;
                        assert(count_of(t, k) == key_total(e, ks, vs, e.len() as int, k));
                        assert(p == pair_view(ks[i], ValView::I64(key_total(e, ks, vs, e.len() as int, ks[i]) as i64)));
                    }
                    if exists|i: int| 0 <= i < e.len() && p == pair_view(ks[i], ValView::I64(key_total(e, ks, vs, e.len() as int, ks[i]) as i64)) {
                        let i = choose|i: int| 0 <= i < e.len() && p == pair_view(ks[i], ValView::I64(key_total(e, ks, vs, e.len() as int, ks[i]) as i64));
                        assert(t.contains_key(ks[i]));
                        assert(count_of(t, ks[i]) == key_total(e, ks, vs, e.len() as int, ks[i]));
                        assert(total_pairs(t).contains_key(p));
                    }
                }
            },
            _ => {},
        }
    }

    /// A derived union node that holds what its operation gives holds, for each value, the sum
    /// of its multiplicities in its inputs.
    pub proof fn lemma_union_state(&self, j: int)
        requires
            self.wf(),
            0 <= j < self.nodes().len(),
            consistent_at(self.nodes(), j),
            self.nodes()[j].kind is Derived,
        ensures
            match self.nodes()[j].op {
                NodeOp::Union { left, right } => forall|v: ValView|
                    #[trigger] count_of(self.state(j), v) == count_of(self.state(left as int), v) + count_of(self.state(right as int), v),
                _ => true,
            },
    {
        self.lemma_defs();
        match self.nodes()[j].op {
            NodeOp::Union { left, right } => {
                let nodes = self.nodes();
                assert(node_wf(nodes, j));
                assert(nodes[j].inputs@[0].0 == left && nodes[j].inputs@[1].0 == right);
                assert(node_wf(nodes, left as int));
                assert(node_wf(nodes, right as int));
                let el = nodes[left as int].state.entries();
                let er = nodes[right as int].state.entries();
                let e = Map::<ValView, int>::empty();
                lemma_apply_all_append(e, el, er);
                lemma_apply_all_distinct(e, el);
                lemma_apply_all_distinct(apply_all(e, el), er);
                lemma_nonzero_counts(apply_all(e, el + er));
                assert forall|v: ValView| #[trigger] count_of(self.state(j), v) == count_of(self.state(left as int), v) + count_of(self.state(right as int), v) by {
                    assert(count_of(apply_all(e, el), v) == count_of(e, v) + count_of(seq_to_map(el), v));
                    assert(count_of(apply_all(apply_all(e, el), er), v) == count_of(apply_all(e, el), v) + count_of(seq_to_map(er), v));
                }
            },
            _ => {},
        }
    }

    /// A derived relation holding `f` of each tuple of `input`, with its multiplicity (the
    /// multiplicities of tuples that `f` maps to the same tuple add up).
    pub fn map<T: Tuple + 'static, U: Tuple + 'static, F: Fn(&T) -> U + 'static>(&mut self, input: Relation<T>, f: F) -> (r: Relation<U>)
        requires
            old(self).wf(),
            input.id.0 < old(self).nodes().len(),
            fn_total(f),
            is_function(f),
        ensures
            final(self).derived_added(&*old(self), r.id, final(self).nodes()[r.id.0 as int].op),
            final(self).wf(),
            r.id.0 == old(self).nodes().len(),
            final(self).nodes().len() == old(self).nodes().len() + 1,
            forall|i: int| 0 <= i < old(self).nodes().len() ==> #[trigger] final(self).nodes()[i] == old(self).nodes()[i],
            transforms_by::<T, U>(final(self).nodes()[r.id.0 as int].op, input.id.0, choose|g: spec_fn(T::V) -> U::V| implements(f, g)),
    {
        let ghost g = choose|g: spec_fn(T::V) -> U::V| implements(f, g);
        let op = NodeOp::Transform {
            input: input.id.0,
            func: Box::new(TypedFn { f, g: Ghost(g), marker: PhantomData }),
        };
        let id = self.add_derived(vec![input.id], op);
        Relation::new(id)
    }

    /// A derived relation holding the tuples of `input` that satisfy `pred`.
    pub fn filter<T: Tuple + 'static, F: Fn(&T) -> bool + 'static>(&mut self, input: Relation<T>, pred: F) -> (r: Relation<T>)
        requires
            old(self).wf(),
            input.id.0 < old(self).nodes().len(),
            fn_total(pred),
            is_function(pred),
        ensures
            final(self).derived_added(&*old(self), r.id, final(self).nodes()[r.id.0 as int].op),
            final(self).wf(),
            r.id.0 == old(self).nodes().len(),
            final(self).nodes().len() == old(self).nodes().len() + 1,
            forall|i: int| 0 <= i < old(self).nodes().len() ==> #[trigger] final(self).nodes()[i] == old(self).nodes()[i],
            filters_by::<T>(final(self).nodes()[r.id.0 as int].op, input.id.0, choose|g: spec_fn(T::V) -> bool| implements(pred, g)),
    {
        let ghost g = choose|g: spec_fn(T::V) -> bool| implements(pred, g);
        let op = NodeOp::Filter {
            input: input.id.0,
            pred: Box::new(TypedPred { f: pred, g: Ghost(g), marker: PhantomData }),
        };
        let id = self.add_derived(vec![input.id], op);
        Relation::new(id)
    }

    /// A derived relation holding, for each tuple of `input` with positive multiplicity, each
    /// tuple that `f` lists for it, once per time listed.
    pub fn flat_map<T: Tuple + 'static, U: Tuple + 'static, F: Fn(&T) -> Vec<U> + 'static>(&mut self, input: Relation<T>, f: F) -> (r: Relation<U>)
        requires
            old(self).wf(),
            input.id.0 < old(self).nodes().len(),
            fn_total(f),
            is_function(f),
        ensures
            final(self).derived_added(&*old(self), r.id, final(self).nodes()[r.id.0 as int].op),
            final(self).wf(),
            r.id.0 == old(self).nodes().len(),
            final(self).nodes().len() == old(self).nodes().len() + 1,
            forall|i: int| 0 <= i < old(self).nodes().len() ==> #[trigger] final(self).nodes()[i] == old(self).nodes()[i],
            flattens_by::<T, U>(final(self).nodes()[r.id.0 as int].op, input.id.0, choose|g: spec_fn(T::V) -> Seq<U>| implements(f, g)),
    {
        let ghost g = choose|g: spec_fn(T::V) -> Seq<U>| implements(f, g);
        let op = NodeOp::FlatMap {
            input: input.id.0,
            flat: Box::new(TypedFlat { f, g: Ghost(g), marker: PhantomData }),
        };
        let id = self.add_derived(vec![input.id], op);
        Relation::new(id)
    }

    /// A derived relation holding the pairs of a tuple of `left` and a tuple of `right` with
    /// equal keys, with the product of their multiplicities.
    pub fn join<
        L: Tuple + 'static,
        R: Tuple + 'static,
        K: Tuple + 'static,
        FL: Fn(&L) -> K + 'static,
        FR: Fn(&R) -> K + 'static,
    >(&mut self, left: Relation<L>, right: Relation<R>, key_left: FL, key_right: FR) -> (r: Relation<(L, R)>)
        requires
            old(self).wf(),
            left.id.0 < old(self).nodes().len(),
            right.id.0 < old(self).nodes().len(),
            fn_total(key_left),
            is_function(key_left),
            fn_total(key_right),
            is_function(key_right),
        ensures
            final(self).derived_added(&*old(self), r.id, final(self).nodes()[r.id.0 as int].op),
            final(self).wf(),
            r.id.0 == old(self).nodes().len(),
            final(self).nodes().len() == old(self).nodes().len() + 1,
            forall|i: int| 0 <= i < old(self).nodes().len() ==> #[trigger] final(self).nodes()[i] == old(self).nodes()[i],
            joins_by::<L, R, K>(
                final(self).nodes()[r.id.0 as int].op,
                left.id.0,
                right.id.0,
                choose|g: spec_fn(L::V) -> K::V| implements(key_left, g),
                choose|g: spec_fn(R::V) -> K::V| implements(key_right, g),
            ),
            !final(self).spec_incomplete() ==> forall|a: ValView, b: ValView|
                #[trigger] count_of(final(self).state(r.id.0 as int), pair_view(a, b)) == if lift::<L, K>(
                    choose|g: spec_fn(L::V) -> K::V| implements(key_left, g),
                    a,
                ) == lift::<R, K>(choose|g: spec_fn(R::V) -> K::V| implements(key_right, g), b) {
                    count_of(old(self).state(left.id.0 as int), a) * count_of(old(self).state(right.id.0 as int), b)
                } else {
                    0
                },
    {
        proof {
            old(self).lemma_defs();
        }
        self.graph.get(left.id).state.entries_match_view();
        self.graph.get(right.id).state.entries_match_view();
        let ghost n0 = self.nodes();
        let ghost gl = choose|g: spec_fn(L::V) -> K::V| implements(key_left, g);
        let ghost gr = choose|g: spec_fn(R::V) -> K::V| implements(key_right, g);
        let op = NodeOp::Join {
            left: left.id.0,
            right: right.id.0,
            key_left: Box::new(TypedFn { f: key_left, g: Ghost(gl), marker: PhantomData }),
            key_right: Box::new(TypedFn { f: key_right, g: Ghost(gr), marker: PhantomData }),
        };
        let ghost op0 = op;
        let id = self.add_derived(vec![left.id, right.id], op);
        proof {
            self.lemma_derived_added(old(self), id, op0);
            assert(self.nodes()[left.id.0 as int] == n0[left.id.0 as int]);
            assert(self.nodes()[right.id.0 as int] == n0[right.id.0 as int]);
            match op0 {
                NodeOp::Join { key_left: kl, key_right: kr, .. } => {
                    let el = n0[left.id.0 as int].state.entries();
                    let er = n0[right.id.0 as int].state.entries();
                    let fl = |v: ValView| kl.spec_apply(v);
                    let fr = |v: ValView| kr.spec_apply(v);
                    if !self.spec_incomplete() {
                        assert forall|a: ValView, b: ValView|
                            #[trigger] count_of(self.state(id.0 as int), pair_view(a, b)) == if lift::<L, K>(gl, a) == lift::<R, K>(gr, b) {
                                count_of(old(self).state(left.id.0 as int), a) * count_of(old(self).state(right.id.0 as int), b)
                            } else {
                                0
                            } by {
                            lemma_join_pointwise(Map::empty(), el, er, fl, fr, a, b);
                            lemma_nonzero_counts(apply_all(Map::empty(), join_changes(el, keys_of_entries(el, fl), er, keys_of_entries(er, fr))));
                            assert(fl(a) == lift::<L, K>(gl, a));
                            assert(fr(b) == lift::<R, K>(gr, b));
                        }
                    }
                },
                _ => {},
            }
        }
        Relation::new(id)
    }

    /// A derived relation holding the tuples of both relations, multiplicities added.
    pub fn union<T: Tuple>(&mut self, left: Relation<T>, right: Relation<T>) -> (r: Relation<T>)
        requires
            old(self).wf(),
            left.id.0 < old(self).nodes().len(),
            right.id.0 < old(self).nodes().len(),
        ensures
            final(self).derived_added(&*old(self), r.id, NodeOp::Union { left: left.id.0, right: right.id.0 }),
            final(self).wf(),
            r.id.0 == old(self).nodes().len(),
            final(self).nodes().len() == old(self).nodes().len() + 1,
            forall|i: int| 0 <= i < old(self).nodes().len() ==> #[trigger] final(self).nodes()[i] == old(self).nodes()[i],
            add_fits(old(self).state(left.id.0 as int), old(self).state(right.id.0 as int)) ==>
                forall|v: ValView| #[trigger] count_of(final(self).state(r.id.0 as int), v)
                    == count_of(old(self).state(left.id.0 as int), v) + count_of(old(self).state(right.id.0 as int), v),
            final(self).spec_incomplete() == (old(self).spec_incomplete()
                || !add_fits(old(self).state(left.id.0 as int), old(self).state(right.id.0 as int))),
    {
        proof {
            old(self).lemma_defs();
        }
        self.graph.get(left.id).state.entries_match_view();
        self.graph.get(right.id).state.entries_match_view();
        self.graph.get(left.id).state.counts_fit();
        let ghost n0 = self.nodes();
        let id = self.add_derived(vec![left.id, right.id], NodeOp::Union { left: left.id.0, right: right.id.0 });
        proof {
            let op = NodeOp::Union { left: left.id.0, right: right.id.0 };
            self.lemma_derived_added(old(self), id, op);
            old(self).lemma_defs();
            let el = n0[left.id.0 as int].state.entries();
            let er = n0[right.id.0 as int].state.entries();
            let ml = n0[left.id.0 as int].state@;
            let mr = n0[right.id.0 as int].state@;
            assert(self.nodes()[left.id.0 as int] == n0[left.id.0 as int]);
            assert(self.nodes()[right.id.0 as int] == n0[right.id.0 as int]);
            let e = Map::<ValView, int>::empty();
            lemma_apply_all_append(e, el, er);
            lemma_apply_all_distinct(e, el);
            lemma_apply_all_distinct(apply_all(e, el), er);
            lemma_applies_distinct(e, el);
            assert(sums_fit(e, el)) by {
                lemma_seq_to_map_facts(el);
                assert forall|v: ValView| i64::MIN <= #[trigger] count_of(e, v) + count_of(seq_to_map(el), v) <= i64::MAX by {
                    if seq_to_map(el).contains_key(v) {
                        let i = choose|i: int| 0 <= i < el.len() && el[i].0 == v;
                    }
                }
            }
            assert forall|v: ValView| #[trigger] count_of(apply_all(e, el), v) == count_of(ml, v) by {}
            assert forall|v: ValView| i64::MIN <= #[trigger] count_of(apply_all(e, el), v) <= i64::MAX by {
                assert(count_of(apply_all(e, el), v) == count_of(ml, v));
            }
            lemma_applies_distinct(apply_all(e, el), er);
            let a = apply_all(e, el);
            assert(sums_fit(a, er) == sums_fit(ml, er)) by {
                if sums_fit(a, er) {
                    assert forall|v: ValView| i64::MIN <= #[trigger] count_of(ml, v) + count_of(seq_to_map(er), v) <= i64::MAX by {
                        assert(count_of(a, v) == count_of(ml, v));
                        assert(i64::MIN <= count_of(a, v) + count_of(seq_to_map(er), v) <= i64::MAX);
                    }
                }
                if sums_fit(ml, er) {
                    assert forall|v: ValView| i64::MIN <= #[trigger] count_of(a, v) + count_of(seq_to_map(er), v) <= i64::MAX by {
                        assert(count_of(a, v) == count_of(ml, v));
                        assert(i64::MIN <= count_of(ml, v) + count_of(seq_to_map(er), v) <= i64::MAX);
                    }
                }
            }
            lemma_nonzero_counts(apply_all(e, el + er));
            assert(sums_fit(ml, er) == add_fits(ml, mr));
        }
        Relation::new(id)
    }

    /// A derived relation holding each tuple of positive multiplicity in `input`, once.
    pub fn distinct<T: Tuple>(&mut self, input: Relation<T>) -> (r: Relation<T>)
        requires
            old(self).wf(),
            input.id.0 < old(self).nodes().len(),
        ensures
            final(self).derived_added(&*old(self), r.id, NodeOp::Distinct { input: input.id.0 }),
            final(self).wf(),
            r.id.0 == old(self).nodes().len(),
            final(self).nodes().len() == old(self).nodes().len() + 1,
            forall|i: int| 0 <= i < old(self).nodes().len() ==> #[trigger] final(self).nodes()[i] == old(self).nodes()[i],
    {
        let id = self.add_derived(vec![input.id], NodeOp::Distinct { input: input.id.0 });
        Relation::new(id)
    }

    /// Difference: the tuples in `left` but not in `right` (of positive multiplicity in
    /// `left` and not in `right`), once each.
    pub fn difference<T: Tuple>(&mut self, left: Relation<T>, right: Relation<T>) -> (r: Relation<T>)
        requires
            old(self).wf(),
            left.id.0 < old(self).nodes().len(),
            right.id.0 < old(self).nodes().len(),
        ensures
            final(self).derived_added(&*old(self), r.id, NodeOp::Difference { left: left.id.0, right: right.id.0 }),
            final(self).wf(),
            r.id.0 == old(self).nodes().len(),
            final(self).nodes().len() == old(self).nodes().len() + 1,
            forall|i: int| 0 <= i < old(self).nodes().len() ==> #[trigger] final(self).nodes()[i] == old(self).nodes()[i],
    {
        let id = self.add_derived(vec![left.id, right.id], NodeOp::Difference { left: left.id.0, right: right.id.0 });
        Relation::new(id)
    }

    /// A derived relation holding, for each key that `key_fn` gives to a tuple of `input`, the
    /// key with the sum over its tuples of `value_fn` times the multiplicity.
    pub fn group_sum<T: Tuple + 'static, K: Tuple + 'static, FK: Fn(&T) -> K + 'static, FV: Fn(&T) -> i64 + 'static>(
        &mut self,
        input: Relation<T>,
        key_fn: FK,
        value_fn: FV,
    ) -> (r: Relation<(K, i64)>)
        requires
            old(self).wf(),
            input.id.0 < old(self).nodes().len(),
            fn_total(key_fn),
            is_function(key_fn),
            fn_total(value_fn),
            is_function(value_fn),
        ensures
            final(self).derived_added(&*old(self), r.id, final(self).nodes()[r.id.0 as int].op),
            final(self).wf(),
            r.id.0 == old(self).nodes().len(),
            final(self).nodes().len() == old(self).nodes().len() + 1,
            forall|i: int| 0 <= i < old(self).nodes().len() ==> #[trigger] final(self).nodes()[i] == old(self).nodes()[i],
            sums_by::<T, K>(
                final(self).nodes()[r.id.0 as int].op,
                input.id.0,
                choose|g: spec_fn(T::V) -> K::V| implements(key_fn, g),
                |v: ValView| weight_of::<T>(choose|g: spec_fn(T::V) -> i64| implements(value_fn, g), v),
            ),
    {
        let ghost gk = choose|g: spec_fn(T::V) -> K::V| implements(key_fn, g);
        let ghost gv = choose|g: spec_fn(T::V) -> i64| implements(value_fn, g);
        let op = NodeOp::GroupSum {
            input: input.id.0,
            key: Box::new(TypedFn { f: key_fn, g: Ghost(gk), marker: PhantomData }),
            weight: Box::new(TypedInt { f: value_fn, g: Ghost(gv), marker: PhantomData }),
        };
        let id = self.add_derived(vec![input.id], op);
        Relation::new(id)
    }

    /// A derived relation holding, for each key that `key_fn` gives to a tuple of `input`, the
    /// key with the sum of the multiplicities of its tuples.
    pub fn group_count<T: Tuple + 'static, K: Tuple + 'static, FK: Fn(&T) -> K + 'static>(&mut self, input: Relation<T>, key_fn: FK) -> (r: Relation<(K, i64)>)
        requires
            old(self).wf(),
            input.id.0 < old(self).nodes().len(),
            fn_total(key_fn),
            is_function(key_fn),
        ensures
            final(self).derived_added(&*old(self), r.id, final(self).nodes()[r.id.0 as int].op),
            final(self).wf(),
            r.id.0 == old(self).nodes().len(),
            final(self).nodes().len() == old(self).nodes().len() + 1,
            forall|i: int| 0 <= i < old(self).nodes().len() ==> #[trigger] final(self).nodes()[i] == old(self).nodes()[i],
            sums_by::<T, K>(
                final(self).nodes()[r.id.0 as int].op,
                input.id.0,
                choose|g: spec_fn(T::V) -> K::V| implements(key_fn, g),
                |v: ValView| 1i64,
            ),
    {
        let ghost gk = choose|g: spec_fn(T::V) -> K::V| implements(key_fn, g);
        let op = NodeOp::GroupSum {
            input: input.id.0,
            key: Box::new(TypedFn { f: key_fn, g: Ghost(gk), marker: PhantomData }),
            weight: Box::new(One),
        };
        let id = self.add_derived(vec![input.id], op);
        Relation::new(id)
    }

    /// A derived relation holding, for each key that `key_fn` gives to a tuple of `input` with
    /// positive multiplicity, the key with the greatest value `value_fn` gives among them.
    pub fn group_max<
        T: Tuple + 'static,
        K: Tuple + 'static,
        V: TupleOrd + 'static,
        FK: Fn(&T) -> K + 'static,
        FV: Fn(&T) -> V + 'static,
    >(&mut self, input: Relation<T>, key_fn: FK, value_fn: FV) -> (r: Relation<(K, V)>)
        requires
            old(self).wf(),
            input.id.0 < old(self).nodes().len(),
            fn_total(key_fn),
            is_function(key_fn),
            fn_total(value_fn),
            is_function(value_fn),
        ensures
            final(self).derived_added(&*old(self), r.id, final(self).nodes()[r.id.0 as int].op),
            final(self).wf(),
            r.id.0 == old(self).nodes().len(),
            final(self).nodes().len() == old(self).nodes().len() + 1,
            forall|i: int| 0 <= i < old(self).nodes().len() ==> #[trigger] final(self).nodes()[i] == old(self).nodes()[i],
            bests_by::<T, K, V>(
                final(self).nodes()[r.id.0 as int].op,
                input.id.0,
                choose|g: spec_fn(T::V) -> K::V| implements(key_fn, g),
                choose|g: spec_fn(T::V) -> V::V| implements(value_fn, g),
                false,
            ),
    {
        self.group_best(input, key_fn, value_fn, false)
    }

    /// A derived relation holding, for each key that `key_fn` gives to a tuple of `input` with
    /// positive multiplicity, the key with the least value `value_fn` gives among them.
    pub fn group_min<
        T: Tuple + 'static,
        K: Tuple + 'static,
        V: TupleOrd + 'static,
        FK: Fn(&T) -> K + 'static,
        FV: Fn(&T) -> V + 'static,
    >(&mut self, input: Relation<T>, key_fn: FK, value_fn: FV) -> (r: Relation<(K, V)>)
        requires
            old(self).wf(),
            input.id.0 < old(self).nodes().len(),
            fn_total(key_fn),
            is_function(key_fn),
            fn_total(value_fn),
            is_function(value_fn),
        ensures
            final(self).derived_added(&*old(self), r.id, final(self).nodes()[r.id.0 as int].op),
            final(self).wf(),
            r.id.0 == old(self).nodes().len(),
            final(self).nodes().len() == old(self).nodes().len() + 1,
            forall|i: int| 0 <= i < old(self).nodes().len() ==> #[trigger] final(self).nodes()[i] == old(self).nodes()[i],
            bests_by::<T, K, V>(
                final(self).nodes()[r.id.0 as int].op,
                input.id.0,
                choose|g: spec_fn(T::V) -> K::V| implements(key_fn, g),
                choose|g: spec_fn(T::V) -> V::V| implements(value_fn, g),
                true,
            ),
    {
        self.group_best(input, key_fn, value_fn, true)
    }

    fn group_best<
        T: Tuple + 'static,
        K: Tuple + 'static,
        V: TupleOrd + 'static,
        FK: Fn(&T) -> K + 'static,
        FV: Fn(&T) -> V + 'static,
    >(&mut self, input: Relation<T>, key_fn: FK, value_fn: FV, reverse: bool) -> (r: Relation<(K, V)>)
        requires
            old(self).wf(),
            input.id.0 < old(self).nodes().len(),
            fn_total(key_fn),
            is_function(key_fn),
            fn_total(value_fn),
            is_function(value_fn),
        ensures
            final(self).derived_added(&*old(self), r.id, final(self).nodes()[r.id.0 as int].op),
            final(self).wf(),
            r.id.0 == old(self).nodes().len(),
            final(self).nodes().len() == old(self).nodes().len() + 1,
            forall|i: int| 0 <= i < old(self).nodes().len() ==> #[trigger] final(self).nodes()[i] == old(self).nodes()[i],
            bests_by::<T, K, V>(
                final(self).nodes()[r.id.0 as int].op,
                input.id.0,
                choose|g: spec_fn(T::V) -> K::V| implements(key_fn, g),
                choose|g: spec_fn(T::V) -> V::V| implements(value_fn, g),
                reverse,
            ),
    {
        let ghost gk = choose|g: spec_fn(T::V) -> K::V| implements(key_fn, g);
        let ghost gv = choose|g: spec_fn(T::V) -> V::V| implements(value_fn, g);
        let op = NodeOp::GroupBest {
            input: input.id.0,
            key: Box::new(TypedFn { f: key_fn, g: Ghost(gk), marker: PhantomData }),
            value: Box::new(TypedFn { f: value_fn, g: Ghost(gv), marker: PhantomData }),
            better: Box::new(TypedLess::<V> { reverse, marker: PhantomData }),
        };
        let id = self.add_derived(vec![input.id], op);
        Relation::new(id)
    }

    /// A relation holding the greatest tuple of `input` among those of positive multiplicity
    /// (empty where there is none): a grouping under the unit key, then its value.
    pub fn max<T: TupleOrd + 'static>(&mut self, input: Relation<T>) -> (r: Relation<T>)
        requires
            old(self).wf(),
            input.id.0 < old(self).nodes().len(),
        ensures
            final(self).wf(),
            r.id.0 == old(self).nodes().len() + 1,
            final(self).nodes().len() == old(self).nodes().len() + 2,
            final(self).nodes().subrange(0, old(self).nodes().len() as int) == old(self).nodes(),
            final(self).nodes()[r.id.0 - 1].op matches NodeOp::GroupBest { input: i, key, value, better }
                && i == input.id.0
                && (forall|v: ValView| #[trigger] key.spec_apply(v) == ValView::Unit)
                && (forall|v: ValView| #[trigger] value.spec_apply(v) == v)
                && (forall|a: ValView, b: ValView| #[trigger] better.spec_less(a, b) == (decodes::<T>(a) && decodes::<T>(b) && T::spec_lt(decode::<T>(a), decode::<T>(b)))),
            final(self).nodes()[r.id.0 as int].op matches NodeOp::Transform { input: i, func }
                && i == r.id.0 - 1
                && (forall|v: ValView| #[trigger] func.spec_apply(v) == second_of(v)),
            final(self).nodes()[r.id.0 - 1].kind is Derived,
            final(self).nodes()[r.id.0 as int].kind is Derived,
            consistent_at(final(self).nodes(), r.id.0 - 1),
            op_output(final(self).nodes()[r.id.0 as int].op, final(self).nodes()) is Some ==> consistent_at(final(self).nodes(), r.id.0 as int),
            consistent_at(final(self).nodes(), r.id.0 as int) ==> holds_extreme::<T>(final(self).state(input.id.0 as int), final(self).state(r.id.0 as int), false),
            final(self).spec_incomplete() == (old(self).spec_incomplete() || op_output(final(self).nodes()[r.id.0 as int].op, final(self).nodes()) is None),
            final(self).spec_interrupted() == old(self).spec_interrupted(),
            final(self).names() == old(self).names(),
            final(self).ops() == old(self).ops(),
            final(self).frame_count() == old(self).frame_count(),
            final(self).spec_commit_id() == old(self).spec_commit_id(),
    {
        self.extreme(input, false)
    }

    /// A relation holding the least tuple of `input` among those of positive multiplicity
    /// (empty where there is none): a grouping under the unit key, then its value.
    pub fn min<T: TupleOrd + 'static>(&mut self, input: Relation<T>) -> (r: Relation<T>)
        requires
            old(self).wf(),
            input.id.0 < old(self).nodes().len(),
        ensures
            final(self).wf(),
            r.id.0 == old(self).nodes().len() + 1,
            final(self).nodes().len() == old(self).nodes().len() + 2,
            final(self).nodes().subrange(0, old(self).nodes().len() as int) == old(self).nodes(),
            final(self).nodes()[r.id.0 - 1].op matches NodeOp::GroupBest { input: i, key, value, better }
                && i == input.id.0
                && (forall|v: ValView| #[trigger] key.spec_apply(v) == ValView::Unit)
                && (forall|v: ValView| #[trigger] value.spec_apply(v) == v)
                && (forall|a: ValView, b: ValView| #[trigger] better.spec_less(a, b) == (decodes::<T>(a) && decodes::<T>(b) && T::spec_lt(decode::<T>(b), decode::<T>(a)))),
            final(self).nodes()[r.id.0 as int].op matches NodeOp::Transform { input: i, func }
                && i == r.id.0 - 1
                && (forall|v: ValView| #[trigger] func.spec_apply(v) == second_of(v)),
            final(self).nodes()[r.id.0 - 1].kind is Derived,
            final(self).nodes()[r.id.0 as int].kind is Derived,
            consistent_at(final(self).nodes(), r.id.0 - 1),
            op_output(final(self).nodes()[r.id.0 as int].op, final(self).nodes()) is Some ==> consistent_at(final(self).nodes(), r.id.0 as int),
            consistent_at(final(self).nodes(), r.id.0 as int) ==> holds_extreme::<T>(final(self).state(input.id.0 as int), final(self).state(r.id.0 as int), true),
            final(self).spec_incomplete() == (old(self).spec_incomplete() || op_output(final(self).nodes()[r.id.0 as int].op, final(self).nodes()) is None),
            final(self).spec_interrupted() == old(self).spec_interrupted(),
            final(self).names() == old(self).names(),
            final(self).ops() == old(self).ops(),
            final(self).frame_count() == old(self).frame_count(),
            final(self).spec_commit_id() == old(self).spec_commit_id(),
    {
        self.extreme(input, true)
    }

    fn extreme<T: TupleOrd + 'static>(&mut self, input: Relation<T>, reverse: bool) -> (r: Relation<T>)
        requires
            old(self).wf(),
            input.id.0 < old(self).nodes().len(),
        ensures
            final(self).wf(),
            r.id.0 == old(self).nodes().len() + 1,
            final(self).nodes().len() == old(self).nodes().len() + 2,
            final(self).nodes().subrange(0, old(self).nodes().len() as int) == old(self).nodes(),
            final(self).nodes()[r.id.0 - 1].op matches NodeOp::GroupBest { input: i, key, value, better }
                && i == input.id.0
                && (forall|v: ValView| #[trigger] key.spec_apply(v) == ValView::Unit)
                && (forall|v: ValView| #[trigger] value.spec_apply(v) == v)
                && (forall|a: ValView, b: ValView| #[trigger] better.spec_less(a, b) == (decodes::<T>(a) && decodes::<T>(b) && if reverse {
                    T::spec_lt(decode::<T>(b), decode::<T>(a))
                } else {
                    T::spec_lt(decode::<T>(a), decode::<T>(b))
                })),
            final(self).nodes()[r.id.0 as int].op matches NodeOp::Transform { input: i, func }
                && i == r.id.0 - 1
                && (forall|v: ValView| #[trigger] func.spec_apply(v) == second_of(v)),
            final(self).nodes()[r.id.0 - 1].kind is Derived,
            final(self).nodes()[r.id.0 as int].kind is Derived,
            consistent_at(final(self).nodes(), r.id.0 - 1),
            op_output(final(self).nodes()[r.id.0 as int].op, final(self).nodes()) is Some ==> consistent_at(final(self).nodes(), r.id.0 as int),
            consistent_at(final(self).nodes(), r.id.0 as int) ==> holds_extreme::<T>(final(self).state(input.id.0 as int), final(self).state(r.id.0 as int), reverse),
            final(self).spec_incomplete() == (old(self).spec_incomplete() || op_output(final(self).nodes()[r.id.0 as int].op, final(self).nodes()) is None),
            final(self).spec_interrupted() == old(self).spec_interrupted(),
            final(self).names() == old(self).names(),
            final(self).ops() == old(self).ops(),
            final(self).frame_count() == old(self).frame_count(),
            final(self).spec_commit_id() == old(self).spec_commit_id(),
    {
        let op = NodeOp::GroupBest {
            input: input.id.0,
            key: Box::new(ToUnit),
            value: Box::new(Identity),
            better: Box::new(TypedLess::<T> { reverse, marker: PhantomData }),
        };
        let ghost op1 = op;
        let g = self.add_derived(vec![input.id], op);
        let ghost mid = *self;
        let op2 = NodeOp::Transform { input: g.0, func: Box::new(Second) };
        let ghost op2g = op2;
        let id = self.add_derived(vec![g], op2);
        proof {
            mid.lemma_derived_added(old(self), g, op1);
            self.lemma_derived_added(&mid, id, op2g);
            mid.lemma_defs();
            let n1 = mid.nodes();
            let n2 = self.nodes();
            assert(node_wf(n1, g.0 as int));
            lemma_inputs_below(n1, g.0 as int);
            lemma_op_output_frame(n1[g.0 as int].op, n1, n2, g.0 as int);
            assert(n2[g.0 as int] == n1[g.0 as int]);
            if consistent_at(n2, id.0 as int) {
                self.lemma_extreme_state::<T>(input.id.0 as int, g.0 as int, id.0 as int, reverse);
            }
        }
        proof {
            assert(final(self).nodes().subrange(0, old(self).nodes().len() as int) =~= old(self).nodes()) by {
                assert(mid.nodes().subrange(0, old(self).nodes().len() as int) == old(self).nodes());
                assert(self.nodes().subrange(0, mid.nodes().len() as int) == mid.nodes());
            }
        }
        Relation::new(id)
    }

    /// Add a derived node computing `op` from `inputs`, and compute its state.
    fn add_derived(&mut self, inputs: Vec<NodeId>, op: NodeOp) -> (r: NodeId)
        requires
            old(self).wf(),
            op_wf(&op),
            !(op is Source),
            inputs@.len() == op_inputs(&op).len(),
            forall|j: int| 0 <= j < inputs@.len() ==> (#[trigger] inputs@[j]).0 == op_inputs(&op)[j] && inputs@[j].0 < old(self).nodes().len(),
        ensures
            final(self).derived_added(&*old(self), r, op),
    {
        proof {
            old(self).lemma_defs();
        }
        let id = self.graph.create_derived(None, inputs, op);
        proof {
            self.lemma_refs_grow_after(old(self).graph.nodes());
        }
        let ghost mid = self.graph.nodes();
        let r = compute_op(&self.graph, id.0);
        match r {
            Some(c) => {
                self.graph.set_state(id, c);
            },
            None => {
                self.graph.set_state(id, Collection::new());
                self.overflowed = true;
            },
        }
        proof {
            let before = old(self).graph.nodes();
            let after = self.graph.nodes();
            assert(node_wf(mid, id.0 as int));
            lemma_inputs_below(mid, id.0 as int);
            assert forall|k: int| 0 <= k < id.0 implies mid[k] == after[k] by {}
            lemma_op_output_frame(op, mid, after, id.0 as int);
            self.lemma_refs_grow_after(before);
            assert(self.graph.nodes().subrange(0, id.0 as int) =~= before);
            assert forall|k: int| 0 <= k < before.len() implies (#[trigger] self.graph.nodes()[k]) == before[k] by {
                assert(self.graph.nodes().subrange(0, id.0 as int)[k] == self.graph.nodes()[k]);
            }
            self.lemma_frames_grow(old(self));
            self.lemma_defs();
        }
        id
    }
}

} // verus!
