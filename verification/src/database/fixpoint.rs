//! Commit: recompute the derived relations and run the feedback loops, in order of
//! declaration, until none of them sees a new tuple.

use vstd::prelude::*;

use crate::collection::{Collection, count_of};
use crate::dataflow::graph::{Node, NodeId};
use crate::database::commit_id::CommitId;
use crate::database::relation::{Relation, Variable};
use crate::tuple::Tuple;
use crate::database::compute::{compute_union, entries_at, result_is, sum_changes};
use crate::database::db::{
    Database, StratifiedOp, all_consistent, computed_at, fits_at, frame_refs_valid, only_states_changed, op_refs_valid,
    recompute_graph, same_but_derived_states, same_frame_inputs,
};
use crate::tuple::{Val, ValView, val_clone, val_pair};
use crate::database::stack::output_views;

verus! {

/// The union of the states of `base` and `rec`, where its sums fit in `i64`.
pub open spec fn fed_input(nodes: Seq<Node>, base: usize, rec: usize) -> Option<Map<ValView, int>> {
    sum_changes(entries_at(nodes, base) + entries_at(nodes, rec))
}

/// Step `op` is at rest, `seen` being what its loop has seen: every tuple of positive
/// multiplicity fed to a loop has been seen, and an interrupt's relation is empty.
pub open spec fn settled(op: StratifiedOp, seen: Map<ValView, int>, nodes: Seq<Node>) -> bool {
    match op {
        StratifiedOp::Feedback { base, rec, .. } => match fed_input(nodes, base, rec) {
            Some(m) => forall|v: ValView| #[trigger] count_of(m, v) > 0 ==> count_of(seen, v) > 0,
            None => true,
        },
        StratifiedOp::Interrupt { rel } => nodes[rel as int].state@ == Map::<ValView, int>::empty(),
    }
}

/// Step `op` is an interrupt whose relation holds some tuple.
pub open spec fn interrupt_holds(op: StratifiedOp, nodes: Seq<Node>) -> bool {
    match op {
        StratifiedOp::Interrupt { rel } => nodes[rel as int].state@ != Map::<ValView, int>::empty(),
        StratifiedOp::Feedback { .. } => false,
    }
}

/// The tuples fed to the loop of step `op`, with their multiplicities: the union of its base
/// and recursive relations (nothing for an interrupt, or where the union does not fit in `i64`).
pub open spec fn fed_of(op: StratifiedOp, nodes: Seq<Node>) -> Map<ValView, int> {
    match op {
        StratifiedOp::Feedback { base, rec, .. } => match fed_input(nodes, base, rec) {
            Some(m) => m,
            None => Map::empty(),
        },
        StratifiedOp::Interrupt { .. } => Map::empty(),
    }
}

/// `v` is fed to a loop, with positive multiplicity, and the loop has not seen it.
pub open spec fn newly_fed(fed: Map<ValView, int>, seen: Map<ValView, int>, v: ValView) -> bool {
    count_of(fed, v) > 0 && count_of(seen, v) <= 0
}

/// The tuple a loop's variable holds for the tuple `v` it saw: with `stamped`, paired with the
/// commit that saw it.
pub open spec fn held_as(v: ValView, stamped: bool, stamp: u64) -> ValView {
    if stamped {
        ValView::Pair(Box::new(v), Box::new(ValView::U64(stamp)))
    } else {
        v
    }
}

/// The views of the entries of a frame's deltas: loop and tuple as seen.
pub open spec fn delta_views(s: Seq<(usize, Val)>) -> Seq<(usize, ValView)> {
    s.map_values(|e: (usize, Val)| (e.0, e.1@))
}

/// No element of `s` occurs twice.
pub open spec fn no_repeats<X>(s: Seq<X>) -> bool {
    forall|a: int, b: int| 0 <= a < s.len() && 0 <= b < s.len() && a != b ==> s[a] != s[b]
}

/// The views of a sequence of values.
pub open spec fn val_views(s: Seq<Val>) -> Seq<ValView> {
    s.map_values(|x: Val| x@)
}

/// A state the fixpoint passes through: the nodes, what each step's loop has seen, and the
/// commit id.
pub struct Round {
    pub nodes: Seq<Node>,
    pub seen: Seq<Map<ValView, int>>,
    pub commit: u64,
}

/// The steps below `k` are at rest in round `r`.
pub open spec fn at_rest_below(ops: Seq<StratifiedOp>, r: Round, k: int) -> bool {
    forall|j: int| 0 <= j < k ==> #[trigger] settled(ops[j], r.seen[j], r.nodes)
}

/// The nodes `b` are `a` with every derived node recomputed from the others, which keep their
/// states but for node `var`.
pub open spec fn recomputed_from(a: Seq<Node>, b: Seq<Node>, var: int) -> bool {
    &&& only_states_changed(a, b)
    &&& forall|i: int| 0 <= i < a.len() && i != var && !(a[i].kind is Derived) ==> #[trigger] b[i].state == a[i].state
    &&& forall|i: int| 0 <= i < b.len() ==> #[trigger] computed_at(b, i)
}

/// Round `b` follows round `a`: step `k`, below `limit`, is the first not at rest and is a
/// loop; under the next commit id it counts as seen, and adds to its variable, each tuple newly
/// fed to it (where the variable holds it fewer than `i64::MAX` times), and every derived node
/// is recomputed.
pub open spec fn fires(ops: Seq<StratifiedOp>, limit: int, a: Round, b: Round, k: int) -> bool {
    let op = ops[k];
    let fed = fed_of(op, a.nodes);
    let seen = a.seen[k];
    let before = a.nodes[op->var as int].state@;
    &&& 0 <= k < limit
    &&& k < ops.len()
    &&& at_rest_below(ops, a, k)
    &&& op is Feedback
    &&& !settled(op, seen, a.nodes)
    &&& a.commit < u64::MAX
    &&& b.commit == a.commit + 1
    &&& b.seen.len() == a.seen.len()
    &&& forall|j: int| 0 <= j < a.seen.len() && j != k ==> #[trigger] b.seen[j] == a.seen[j]
    &&& forall|v: ValView| #[trigger] count_of(b.seen[k], v) == count_of(seen, v) + if newly_fed(fed, seen, v) { 1int } else { 0int }
    &&& forall|t: ValView| #[trigger] count_of(b.nodes[op->var as int].state@, t) == count_of(before, t)
        + if (exists|v: ValView| newly_fed(fed, seen, v) && held_as(v, op->stamped, b.commit) == t)
        && count_of(before, t) < i64::MAX {
        1int
    } else {
        0int
    }
    &&& recomputed_from(a.nodes, b.nodes, op->var as int)
}

/// The states of the nodes.
pub open spec fn states_of(nodes: Seq<Node>) -> Seq<Map<ValView, int>> {
    nodes.map_values(|n: Node| n.state@)
}

/// `trace` is a run of the fixpoint over the steps below `limit`, from the node states `start`
/// with the seen sets `seen` and commit id `commit`: the first round keeps the states of the
/// nodes that are not derived and recomputes the others, then each round follows the one
/// before by firing step `ks[i]`.
pub open spec fn runs(
    ops: Seq<StratifiedOp>,
    limit: int,
    start: Seq<Map<ValView, int>>,
    seen: Seq<Map<ValView, int>>,
    commit: u64,
    trace: Seq<Round>,
    ks: Seq<int>,
) -> bool {
    &&& trace.len() == ks.len() + 1
    &&& trace[0].nodes.len() == start.len()
    &&& forall|i: int| 0 <= i < start.len() && !(trace[0].nodes[i].kind is Derived) ==> #[trigger] trace[0].nodes[i].state@ == start[i]
    &&& forall|i: int| 0 <= i < start.len() ==> #[trigger] computed_at(trace[0].nodes, i)
    &&& trace[0].seen == seen
    &&& trace[0].commit == commit
    &&& forall|i: int| 0 <= i < ks.len() ==> fires(ops, limit, trace[i], trace[i + 1], #[trigger] ks[i])
}

/// Some derived node's operation does not fit in `i64`.
pub open spec fn some_misfit(nodes: Seq<Node>) -> bool {
    !forall|j: int| 0 <= j < nodes.len() ==> #[trigger] fits_at(nodes, j)
}

/// Step `op` is a loop whose union of base and recursive relations does not fit in `i64`.
pub open spec fn misfed(op: StratifiedOp, nodes: Seq<Node>) -> bool {
    match op {
        StratifiedOp::Feedback { base, rec, .. } => fed_input(nodes, base, rec) is None,
        StratifiedOp::Interrupt { .. } => false,
    }
}

/// Some step below `k` is a loop whose union does not fit in `i64`.
pub open spec fn misfed_below(ops: Seq<StratifiedOp>, nodes: Seq<Node>, k: int) -> bool {
    exists|j: int| 0 <= j < k && #[trigger] misfed(ops[j], nodes)
}

/// Firing step `k` from `a` to `b` met a newly fed tuple its variable already held
/// `i64::MAX` times.
pub open spec fn fire_overflows(ops: Seq<StratifiedOp>, a: Round, b: Round, k: int) -> bool {
    let op = ops[k];
    exists|v: ValView| #[trigger] newly_fed(fed_of(op, a.nodes), a.seen[k], v)
        && count_of(a.nodes[op->var as int].state@, held_as(v, op->stamped, b.commit)) >= i64::MAX
}

/// Something in the run did not fit in `i64`: a derived node of some round, a union that a
/// loop examined before the one that fired, or a tuple a loop added.
pub open spec fn run_overflows(ops: Seq<StratifiedOp>, trace: Seq<Round>, ks: Seq<int>) -> bool {
    ||| exists|i: int| 0 <= i < trace.len() && #[trigger] some_misfit(trace[i].nodes)
    ||| exists|i: int| 0 <= i < ks.len() && (misfed_below(ops, trace[i].nodes, #[trigger] ks[i])
        || fire_overflows(ops, trace[i], trace[i + 1], ks[i]))
}

/// The steps a pass over `ops` examines, up to `limit`.
pub open spec fn scan_end(ops: Seq<StratifiedOp>, limit: int) -> int {
    if limit < ops.len() { limit } else { ops.len() as int }
}

impl Database {
    /// Step `k` is at rest.
    pub closed spec fn settled_at(&self, k: int) -> bool {
        settled(self.strat@[k], self.seen@[k]@, self.graph.nodes())
    }

    /// An interrupt step is at rest exactly when its relation is empty; a loop step is at rest
    /// when it has seen every tuple of positive multiplicity fed to it.
    pub proof fn lemma_settled_at(&self, k: int)
        requires
            self.wf(),
            0 <= k < self.ops().len(),
        ensures
            self.ops()[k] matches StratifiedOp::Interrupt { rel } ==> (self.settled_at(k) <==> self.state(rel as int) == Map::<ValView, int>::empty()),
            self.ops()[k] is Feedback ==> (self.settled_at(k) <==> forall|v: ValView| #[trigger] count_of(fed_of(self.ops()[k], self.nodes()), v) > 0
                ==> count_of(self.seen_by(k), v) > 0),
    {
        self.lemma_defs();
        match self.ops()[k] {
            StratifiedOp::Feedback { base, rec, .. } => {
                match fed_input(self.nodes(), base, rec) {
                    Some(m) => {
                        assert(fed_of(self.ops()[k], self.nodes()) == m);
                    },
                    None => {
                        assert(fed_of(self.ops()[k], self.nodes()) == Map::<ValView, int>::empty());
                        assert forall|v: ValView| #[trigger] count_of(fed_of(self.ops()[k], self.nodes()), v) > 0
                            implies count_of(self.seen_by(k), v) > 0 by {}
                    },
                }
            },
            _ => {},
        }
    }

    /// The tuples the loop of step `k` has seen, with how often.
    pub closed spec fn seen_by(&self, k: int) -> Map<ValView, int> {
        self.seen@[k]@
    }

    /// The round the database is in.
    pub closed spec fn round(&self) -> Round {
        Round { nodes: self.graph.nodes(), seen: self.seen@.map_values(|c: Collection<Val>| c@), commit: self.commit_id.0 }
    }

    /// The round of the database holds its nodes, the seen set of each step and its commit id;
    /// step `k` is at rest exactly when it is at rest in that round.
    pub proof fn lemma_round(&self)
        ensures
            self.round().nodes == self.nodes(),
            self.round().commit == self.spec_commit_id(),
            self.wf() ==> self.round().seen.len() == self.ops().len(),
            forall|k: int| 0 <= k < self.round().seen.len() ==> #[trigger] self.round().seen[k] == self.seen_by(k),
            forall|k: int| 0 <= k < self.round().seen.len() ==> (#[trigger] self.settled_at(k)
                <==> settled(self.ops()[k], self.round().seen[k], self.round().nodes)),
    {
        self.lemma_defs();
    }

    /// Recompute every derived node; where a node's arithmetic does not fit in `i64`, mark the
    /// commit incomplete.
    pub(crate) fn recompute_all(&mut self)
        requires
            old(self).wf(),
        ensures
            final(self).wf(),
            same_but_derived_states(old(self).graph.nodes(), final(self).graph.nodes()),
            !final(self).overflowed ==> all_consistent(final(self).graph.nodes()),
            old(self).overflowed ==> final(self).overflowed,
            final(self).graph.names() == old(self).graph.names(),
            final(self).strat@ == old(self).strat@,
            final(self).seen@ == old(self).seen@,
            final(self).frames@ == old(self).frames@,
            final(self).commit_id == old(self).commit_id,
            final(self).max_iterations == old(self).max_iterations,
            final(self).interrupted == old(self).interrupted,
            final(self).limit_reached == old(self).limit_reached,
            final(self).overflowed == (old(self).overflowed
                || !forall|j: int| 0 <= j < final(self).graph.nodes().len() ==> #[trigger] fits_at(final(self).graph.nodes(), j)),
            forall|j: int| 0 <= j < final(self).graph.nodes().len() ==> #[trigger] computed_at(final(self).graph.nodes(), j),
    {
        proof {
            old(self).lemma_defs();
        }
        let ok = recompute_graph(&mut self.graph);
        if !ok {
            self.overflowed = true;
        }
        proof {
            self.lemma_refs_grow_after(old(self).graph.nodes());
            self.lemma_frames_grow(old(self));
            self.lemma_defs();
        }
    }

    /// Run feedback loop `k` once: count each tuple of positive multiplicity in the union of
    /// its base and recursive relations that it had not seen, and add those to its variable,
    /// under a new commit. Returns whether there was such a tuple.
    #[verifier::rlimit(40)]
    pub(crate) fn feedback_step(&mut self, k: usize) -> (progress: bool)
        requires
            old(self).wf(),
            k < old(self).strat@.len(),
            old(self).strat@[k as int] is Feedback,
        ensures
            final(self).wf(),
            final(self).strat@ == old(self).strat@,
            final(self).seen@.len() == old(self).seen@.len(),
            final(self).frames@.len() == old(self).frames@.len(),
            final(self).max_iterations == old(self).max_iterations,
            final(self).interrupted == old(self).interrupted,
            old(self).overflowed ==> final(self).overflowed,
            old(self).limit_reached ==> final(self).limit_reached,
            final(self).graph.names() == old(self).graph.names(),
            only_states_changed(old(self).graph.nodes(), final(self).graph.nodes()),
            old(self).commit_id.0 <= final(self).commit_id.0,
            !progress ==> final(self).graph == old(self).graph,
            !progress ==> final(self).seen@ == old(self).seen@,
            !progress ==> final(self).commit_id == old(self).commit_id,
            !progress ==> final(self).overflowed == (old(self).overflowed || misfed(old(self).strat@[k as int], old(self).graph.nodes())),
            progress ==> forall|i: int| 0 <= i < old(self).graph.nodes().len() && i != old(self).strat@[k as int]->var
                ==> #[trigger] final(self).graph.nodes()[i] == old(self).graph.nodes()[i],
            same_frame_inputs(old(self).frames@, final(self).frames@),
            !progress && !final(self).limit_reached ==> settled(final(self).strat@[k as int], final(self).seen@[k as int]@, final(self).graph.nodes()),
            progress == (!settled(old(self).strat@[k as int], old(self).seen@[k as int]@, old(self).graph.nodes())
                && old(self).commit_id.0 < u64::MAX),
            progress ==> final(self).commit_id.0 == old(self).commit_id.0 + 1,
            progress ==> forall|v: ValView| #[trigger] count_of(final(self).seen@[k as int]@, v) == count_of(old(self).seen@[k as int]@, v)
                + if count_of(fed_of(old(self).strat@[k as int], old(self).graph.nodes()), v) > 0 && count_of(old(self).seen@[k as int]@, v) <= 0 {
                1int
            } else {
                0int
            },
            forall|j: int| 0 <= j < old(self).seen@.len() && j != k ==> #[trigger] final(self).seen@[j] == old(self).seen@[j],
            final(self).limit_reached && !old(self).limit_reached ==> final(self).commit_id.0 == u64::MAX,
            progress ==> ({
                let op = old(self).strat@[k as int];
                let fed = fed_of(op, old(self).graph.nodes());
                let seen = old(self).seen@[k as int]@;
                let before = old(self).graph.nodes()[op->var as int].state@;
                &&& forall|t: ValView| #[trigger] count_of(final(self).graph.nodes()[op->var as int].state@, t) == count_of(before, t)
                    + if (exists|v: ValView| newly_fed(fed, seen, v) && held_as(v, op->stamped, final(self).commit_id.0) == t)
                    && count_of(before, t) < i64::MAX {
                    1int
                } else {
                    0int
                }
                &&& final(self).overflowed == (old(self).overflowed || exists|v: ValView| #[trigger] newly_fed(fed, seen, v)
                    && count_of(before, held_as(v, op->stamped, final(self).commit_id.0)) >= i64::MAX)
                &&& forall|f: int| 0 <= f < old(self).frames@.len() - 1 ==> #[trigger] final(self).frames@[f] == old(self).frames@[f]
                &&& old(self).frames@.len() > 0 ==> exists|added: Seq<ValView>| {
                    &&& #[trigger] no_repeats(added)
                    &&& forall|v: ValView| #[trigger] added.contains(v) <==> newly_fed(fed, seen, v)
                    &&& output_views(final(self).frames@.last().outputs@) == output_views(old(self).frames@.last().outputs@)
                        + added.map_values(|v: ValView| (k, v, held_as(v, op->stamped, final(self).commit_id.0)))
                    &&& delta_views(final(self).frames@.last().deltas@) == delta_views(old(self).frames@.last().deltas@)
                        + added.map_values(|v: ValView| (k, v))
                }
            }),
    {
        proof {
            old(self).lemma_defs();
        }
        let (var, base, rec, stamped) = match &self.strat[k] {
            StratifiedOp::Feedback { var, base, rec, stamped } => (*var, *base, *rec, *stamped),
            StratifiedOp::Interrupt { .. } => {
                return false;
            },
        };
        proof {
            assert(op_refs_valid(self.strat@[k as int], self.graph.nodes()));
        }
        let u = compute_union(&self.graph.get(NodeId(base)).state, &self.graph.get(NodeId(rec)).state);
        let u = match u {
            Some(u) => u,
            None => {
                self.overflowed = true;
                proof {
                    self.lemma_defs();
                }
                return false;
            },
        };
        assert(fed_input(self.graph.nodes(), base, rec) == Some(u@));
        let items = u.iter();
        let ghost seen0 = self.seen@[k as int]@;
        let ghost iv = items@.map_values(|x: &Val| x@);
        let mut seen = self.seen[k].snapshot();
        let mut newly: Vec<Val> = Vec::new();
        let mut i: usize = 0;
        proof {
            assert(iv.subrange(0, 0) =~= Seq::<ValView>::empty());
        }
        while i < items.len()
            invariant
                i <= items@.len(),
                iv == items@.map_values(|x: &Val| x@),
                forall|a: int, b: int| 0 <= a < items@.len() && 0 <= b < items@.len() && a != b ==> items@[a]@ != items@[b]@,
                newly@.len() == 0 ==> seen@ == seen0,
                newly@.len() == 0 ==> forall|a: int| 0 <= a < i ==> count_of(seen0, (#[trigger] items@[a])@) > 0,
                newly@.len() > 0 ==> count_of(seen0, newly@[0]@) <= 0 && count_of(u@, newly@[0]@) > 0,
                forall|v: ValView| #[trigger] count_of(seen@, v) == count_of(seen0, v)
                    + if count_of(seen0, v) <= 0 && iv.subrange(0, i as int).contains(v) { 1int } else { 0int },
                forall|a: int| 0 <= a < items@.len() ==> count_of(u@, (#[trigger] items@[a])@) > 0,
                forall|v: ValView| #[trigger] val_views(newly@).contains(v) <==> (count_of(seen0, v) <= 0 && iv.subrange(0, i as int).contains(v)),
                forall|a: int, b: int| 0 <= a < newly@.len() && 0 <= b < newly@.len() && a != b ==> newly@[a]@ != newly@[b]@,
            decreases items@.len() - i,
        {
            let ghost seen_before = seen@;
            let ghost nv0 = val_views(newly@);
            proof {
                assert(iv.subrange(0, i + 1) =~= iv.subrange(0, i as int).push(items@[i as int]@));
                let s0 = iv.subrange(0, i as int);
                assert(!s0.contains(items@[i as int]@)) by {
                    if s0.contains(items@[i as int]@) {
                        let a = choose|a: int| 0 <= a < s0.len() && #[trigger] s0[a] == items@[i as int]@;
                        assert(iv[a] == items@[a]@);
                    }
                }
            }
            let c = seen.get(items[i]);
            if c.0 <= 0 {
                seen.insert(val_clone(items[i]));
                newly.push(val_clone(items[i]));
            }
            proof {
                let s0 = iv.subrange(0, i as int);
                let s1 = iv.subrange(0, i + 1);
                assert forall|v: ValView| #[trigger] count_of(seen@, v) == count_of(seen0, v)
                    + if count_of(seen0, v) <= 0 && s1.contains(v) { 1int } else { 0int } by {
                    assert(s1.contains(v) == (s0.contains(v) || v == items@[i as int]@)) by {
                        if s1.contains(v) {
                            let a = choose|a: int| 0 <= a < s1.len() && #[trigger] s1[a] == v;
                            if a < i {
                                assert(s0[a] == v);
                            }
                        }
                        if s0.contains(v) {
                            let a = choose|a: int| 0 <= a < s0.len() && #[trigger] s0[a] == v;
                            assert(s1[a] == v);
                        }
                        if v == items@[i as int]@ {
                            assert(s1[i as int] == v);
                        }
                    }
                    assert(count_of(seen_before, v) == count_of(seen0, v)
                        + if count_of(seen0, v) <= 0 && s0.contains(v) { 1int } else { 0int });
                    if v == items@[i as int]@ {
                        assert(count_of(seen_before, v) == count_of(seen0, v));
                        assert(c.0 == count_of(seen_before, v));
                    } else {
                        assert(count_of(seen@, v) == count_of(seen_before, v));
                    }
                }
                let x = items@[i as int]@;
                assert(count_of(seen_before, x) == count_of(seen0, x) + if count_of(seen0, x) <= 0 && s0.contains(x) { 1int } else { 0int });
                if c.0 <= 0 {
                    assert(val_views(newly@) =~= nv0.push(x));
                    assert(!nv0.contains(x));
                    assert forall|a: int, b: int| 0 <= a < newly@.len() && 0 <= b < newly@.len() && a != b implies newly@[a]@ != newly@[b]@ by {
                        if a == newly@.len() - 1 {
                            assert(nv0.contains(newly@[b]@)) by { assert(nv0[b] == newly@[b]@); }
                        } else if b == newly@.len() - 1 {
                            assert(nv0.contains(newly@[a]@)) by { assert(nv0[a] == newly@[a]@); }
                        }
                    }
                } else {
                    assert(val_views(newly@) == nv0);
                }
                assert forall|v: ValView| #[trigger] val_views(newly@).contains(v) <==> (count_of(seen0, v) <= 0 && s1.contains(v)) by {
                    assert(s1.contains(v) == (s0.contains(v) || v == x)) by {
                        if s1.contains(v) {
                            let a = choose|a: int| 0 <= a < s1.len() && #[trigger] s1[a] == v;
                            if a < i {
                                assert(s0[a] == v);
                            }
                        }
                        if s0.contains(v) {
                            let a = choose|a: int| 0 <= a < s0.len() && #[trigger] s0[a] == v;
                            assert(s1[a] == v);
                        }
                        if v == x {
                            assert(s1[i as int] == v);
                        }
                    }
                    if c.0 <= 0 {
                        if val_views(newly@).contains(v) && v != x {
                            let a = choose|a: int| 0 <= a < newly@.len() && #[trigger] val_views(newly@)[a] == v;
                            assert(nv0[a] == v);
                        }
                        if nv0.contains(v) {
                            let a = choose|a: int| 0 <= a < nv0.len() && #[trigger] nv0[a] == v;
                            assert(val_views(newly@)[a] == v);
                        }
                        if v == x {
                            assert(val_views(newly@)[newly@.len() - 1] == v);
                        }
                    }
                }
            }
            i = i + 1;
        }
        proof {
            assert(iv.subrange(0, i as int) =~= iv);
            assert(u@ == fed_of(self.strat@[k as int], self.graph.nodes()));
            assert forall|v: ValView| iv.contains(v) == (count_of(u@, v) > 0) by {
                if iv.contains(v) {
                    let a = choose|a: int| 0 <= a < iv.len() && #[trigger] iv[a] == v;
                    assert(iv[a] == items@[a]@);
                }
                if count_of(u@, v) > 0 {
                    let a = choose|a: int| 0 <= a < items@.len() && items@[a]@ == v;
                    assert(iv[a] == v);
                }
            }
        }
        if newly.len() == 0 {
            proof {
                assert forall|v: ValView| #[trigger] count_of(u@, v) > 0 implies count_of(seen0, v) > 0 by {
                    let a = choose|a: int| 0 <= a < items@.len() && items@[a]@ == v;
                }
            }
            return false;
        }
        if self.commit_id.0 == u64::MAX {
            self.limit_reached = true;
            proof {
                self.lemma_defs();
            }
            return false;
        }
        self.commit_id = CommitId(self.commit_id.0 + 1);
        let stamp = self.commit_id.0;
        self.seen.set(k, seen);
        let mut vs = self.graph.get(NodeId(var)).state.snapshot();
        let ghost var0 = vs@;
        let ghost nv = val_views(newly@);
        let ghost tags = nv.map_values(|v: ValView| held_as(v, stamped, stamp));
        let recording = self.frames.len() > 0;
        let mut outputs: Vec<(usize, Val, Val)> = Vec::new();
        let mut deltas: Vec<(usize, Val)> = Vec::new();
        let mut over = false;
        let mut j: usize = 0;
        proof {
            assert forall|t: ValView| #[trigger] count_of(vs@, t) == count_of(var0, t)
                + if tags.subrange(0, 0).contains(t) && count_of(var0, t) < i64::MAX { 1int } else { 0int } by {
                assert(!tags.subrange(0, 0).contains(t));
            }
        }
        while j < newly.len()
            invariant
                j <= newly@.len(),
                k < self.strat@.len(),
                forall|a: int| 0 <= a < outputs@.len() ==> (#[trigger] outputs@[a]).0 == k,
                forall|a: int| 0 <= a < deltas@.len() ==> (#[trigger] deltas@[a]).0 == k,
                nv == val_views(newly@),
                tags == nv.map_values(|v: ValView| held_as(v, stamped, stamp)),
                forall|a: int, b: int| 0 <= a < newly@.len() && 0 <= b < newly@.len() && a != b ==> newly@[a]@ != newly@[b]@,
                forall|t: ValView| #[trigger] count_of(vs@, t) == count_of(var0, t)
                    + if tags.subrange(0, j as int).contains(t) && count_of(var0, t) < i64::MAX { 1int } else { 0int },
                over == exists|a: int| 0 <= a < j && count_of(var0, #[trigger] tags[a]) >= i64::MAX,
                recording ==> output_views(outputs@) == nv.subrange(0, j as int).map_values(|v: ValView| (k, v, held_as(v, stamped, stamp))),
                recording ==> delta_views(deltas@) == nv.subrange(0, j as int).map_values(|v: ValView| (k, v)),
            decreases newly@.len() - j,
        {
            let ghost vs0 = vs@;
            let ghost out0 = outputs@;
            let ghost del0 = deltas@;
            let t = if stamped {
                val_pair(val_clone(&newly[j]), Val::U64(stamp))
            } else {
                val_clone(&newly[j])
            };
            proof {
                let p0 = tags.subrange(0, j as int);
                let p1 = tags.subrange(0, j + 1);
                assert(tags[j as int] == held_as(newly@[j as int]@, stamped, stamp));
                assert(t@ == tags[j as int]);
                assert(!p0.contains(t@)) by {
                    if p0.contains(t@) {
                        let a = choose|a: int| 0 <= a < p0.len() && #[trigger] p0[a] == t@;
                        assert(tags[a] == held_as(newly@[a]@, stamped, stamp));
                        assert(newly@[a]@ != newly@[j as int]@);
                    }
                }
                assert forall|x: ValView| #[trigger] p1.contains(x) == (p0.contains(x) || x == t@) by {
                    if p1.contains(x) {
                        let a = choose|a: int| 0 <= a < p1.len() && #[trigger] p1[a] == x;
                        if a < j {
                            assert(p0[a] == x);
                        }
                    }
                    if p0.contains(x) {
                        let a = choose|a: int| 0 <= a < p0.len() && #[trigger] p0[a] == x;
                        assert(p1[a] == x);
                    }
                    if x == t@ {
                        assert(p1[j as int] == x);
                    }
                }
            }
            let c = vs.get(&t);
            if c.0 < i64::MAX {
                vs.insert(val_clone(&t));
            } else {
                over = true;
            }
            proof {
                let p0 = tags.subrange(0, j as int);
                let p1 = tags.subrange(0, j + 1);
                assert forall|x: ValView| #[trigger] count_of(vs@, x) == count_of(var0, x)
                    + if p1.contains(x) && count_of(var0, x) < i64::MAX { 1int } else { 0int } by {
                    assert(count_of(vs0, x) == count_of(var0, x)
                        + if p0.contains(x) && count_of(var0, x) < i64::MAX { 1int } else { 0int });
                    assert(p1.contains(x) == (p0.contains(x) || x == t@));
                }
            }
            if recording {
                outputs.push((k, val_clone(&newly[j]), t));
                deltas.push((k, val_clone(&newly[j])));
                proof {
                    assert(nv.subrange(0, j + 1) =~= nv.subrange(0, j as int).push(nv[j as int]));
                    assert(output_views(outputs@) =~= output_views(out0).push((k, nv[j as int], held_as(nv[j as int], stamped, stamp))));
                    assert(delta_views(deltas@) =~= delta_views(del0).push((k, nv[j as int])));
                    assert(nv.subrange(0, j + 1).map_values(|v: ValView| (k, v, held_as(v, stamped, stamp)))
                        =~= nv.subrange(0, j as int).map_values(|v: ValView| (k, v, held_as(v, stamped, stamp))).push((k, nv[j as int], held_as(nv[j as int], stamped, stamp))));
                    assert(nv.subrange(0, j + 1).map_values(|v: ValView| (k, v))
                        =~= nv.subrange(0, j as int).map_values(|v: ValView| (k, v)).push((k, nv[j as int])));
                }
            }
            proof {
                assert(c.0 == count_of(var0, tags[j as int]));
                if exists|a: int| 0 <= a < j + 1 && count_of(var0, #[trigger] tags[a]) >= i64::MAX {
                    let a = choose|a: int| 0 <= a < j + 1 && count_of(var0, #[trigger] tags[a]) >= i64::MAX;
                    if a < j {
                        assert(exists|b: int| 0 <= b < j && count_of(var0, #[trigger] tags[b]) >= i64::MAX);
                    }
                }
            }
            j = j + 1;
        }
        if over {
            self.overflowed = true;
        }
        self.graph.set_state(NodeId(var), vs);
        self.graph.mark_dirty(NodeId(var));
        if recording {
            let mut top = self.frames.pop().unwrap();
            let ghost top0 = top;
            let ghost outs0 = outputs@;
            let ghost dels0 = deltas@;
            top.outputs.append(&mut outputs);
            top.deltas.append(&mut deltas);
            let ghost rest = self.frames@;
            self.frames.push(top);
            proof {
                assert(top.outputs@ == top0.outputs@ + outs0);
                assert(output_views(top.outputs@) =~= output_views(top0.outputs@) + output_views(outs0));
                assert(top.deltas@ == top0.deltas@ + dels0);
                assert(delta_views(top.deltas@) =~= delta_views(top0.deltas@) + delta_views(dels0));
                assert(nv.subrange(0, j as int) =~= nv);
                assert(self.frames@.last() == top);
                assert(top0 == old(self).frames@.last());
                assert forall|f: int| 0 <= f < self.frames@.len() implies (#[trigger] self.frames@[f]).input_changes@ == old(self).frames@[f].input_changes@
                    && self.frames@[f].snapshot@ == old(self).frames@[f].snapshot@ by {
                    if f < rest.len() {
                        assert(self.frames@[f] == old(self).frames@[f]);
                    }
                }
                assert(frame_refs_valid(top0, self.graph.nodes().len(), self.strat@.len()));
                assert forall|f: int| 0 <= f < self.frames@.len() implies frame_refs_valid(#[trigger] self.frames@[f], self.graph.nodes().len(), self.strat@.len()) by {
                    if f < rest.len() {
                        assert(self.frames@[f] == old(self).frames@[f]);
                    } else {
                        let t = self.frames@[f];
                        assert(t == top);
                        assert forall|a: int| 0 <= a < t.outputs@.len() implies (#[trigger] t.outputs@[a]).0 < self.strat@.len() by {
                            if a < top0.outputs@.len() {
                                assert(t.outputs@[a] == top0.outputs@[a]);
                            }
                        }
                        assert forall|a: int| 0 <= a < t.deltas@.len() implies (#[trigger] t.deltas@[a]).0 < self.strat@.len() by {
                            if a < top0.deltas@.len() {
                                assert(t.deltas@[a] == top0.deltas@[a]);
                            }
                        }
                    }
                }
            }
        }
        proof {
            assert(no_repeats(nv)) by {
                assert forall|a: int, b: int| 0 <= a < nv.len() && 0 <= b < nv.len() && a != b implies nv[a] != nv[b] by {
                    assert(nv[a] == newly@[a]@ && nv[b] == newly@[b]@);
                }
            }
            assert forall|v: ValView| #[trigger] nv.contains(v) <==> newly_fed(u@, seen0, v) by {}
            assert(over == exists|v: ValView| #[trigger] newly_fed(u@, seen0, v) && count_of(var0, held_as(v, stamped, stamp)) >= i64::MAX) by {
                if over {
                    let a = choose|a: int| 0 <= a < j && count_of(var0, #[trigger] tags[a]) >= i64::MAX;
                    assert(nv.contains(nv[a]));
                    assert(newly_fed(u@, seen0, nv[a]));
                }
                if exists|v: ValView| #[trigger] newly_fed(u@, seen0, v) && count_of(var0, held_as(v, stamped, stamp)) >= i64::MAX {
                    let v = choose|v: ValView| #[trigger] newly_fed(u@, seen0, v) && count_of(var0, held_as(v, stamped, stamp)) >= i64::MAX;
                    assert(nv.contains(v));
                    let a = choose|a: int| 0 <= a < nv.len() && #[trigger] nv[a] == v;
                    assert(tags[a] == held_as(v, stamped, stamp));
                }
            }
            assert(tags.subrange(0, j as int) =~= tags);
            assert forall|t: ValView| tags.contains(t) == (exists|v: ValView| newly_fed(u@, seen0, v) && held_as(v, stamped, stamp) == t) by {
                if tags.contains(t) {
                    let a = choose|a: int| 0 <= a < tags.len() && #[trigger] tags[a] == t;
                    assert(nv.contains(nv[a]));
                    assert(newly_fed(u@, seen0, nv[a]) && held_as(nv[a], stamped, stamp) == t);
                }
                if exists|v: ValView| newly_fed(u@, seen0, v) && held_as(v, stamped, stamp) == t {
                    let v = choose|v: ValView| newly_fed(u@, seen0, v) && held_as(v, stamped, stamp) == t;
                    assert(nv.contains(v));
                    let a = choose|a: int| 0 <= a < nv.len() && #[trigger] nv[a] == v;
                    assert(tags[a] == t);
                }
            }
        }
        proof {
            self.lemma_refs_grow_after(old(self).graph.nodes());
            assert(old(self).graph.nodes()[var as int].kind is Feedback);
            assert(same_frame_inputs(old(self).frames@, self.frames@));
            self.lemma_frames_grow(old(self));
            self.lemma_defs();
        }
        true
    }
}

/// A run extended by one more round that follows its last one is a run.
proof fn lemma_runs_push(
    ops: Seq<StratifiedOp>,
    limit: int,
    start: Seq<Map<ValView, int>>,
    seen: Seq<Map<ValView, int>>,
    commit: u64,
    trace: Seq<Round>,
    ks: Seq<int>,
    b: Round,
    k: int,
)
    requires
        runs(ops, limit, start, seen, commit, trace, ks),
        fires(ops, limit, trace.last(), b, k),
    ensures
        runs(ops, limit, start, seen, commit, trace.push(b), ks.push(k)),
        trace.push(b).last() == b,
{
    let t2 = trace.push(b);
    let k2 = ks.push(k);
    assert forall|i: int| 0 <= i < k2.len() implies fires(ops, limit, t2[i], t2[i + 1], #[trigger] k2[i]) by {
        if i < ks.len() {
            assert(t2[i] == trace[i] && t2[i + 1] == trace[i + 1] && k2[i] == ks[i]);
        } else {
            assert(t2[i] == trace.last() && t2[i + 1] == b && k2[i] == k);
        }
    }
}

/// What did not fit in `i64` in a run extended by one round: what did before, what did in the
/// new round, and what did in the pass that fired.
proof fn lemma_run_overflows_push(ops: Seq<StratifiedOp>, trace: Seq<Round>, ks: Seq<int>, b: Round, k: int)
    requires
        trace.len() == ks.len() + 1,
    ensures
        run_overflows(ops, trace.push(b), ks.push(k)) == (run_overflows(ops, trace, ks) || some_misfit(b.nodes)
            || misfed_below(ops, trace.last().nodes, k) || fire_overflows(ops, trace.last(), b, k)),
{
    let t2 = trace.push(b);
    let k2 = ks.push(k);
    let l = trace.len() - 1;
    assert(t2[l] == trace.last() && t2[l + 1] == b && k2[l] == k);
    if exists|i: int| 0 <= i < trace.len() && #[trigger] some_misfit(trace[i].nodes) {
        let i = choose|i: int| 0 <= i < trace.len() && #[trigger] some_misfit(trace[i].nodes);
        assert(t2[i] == trace[i]);
    }
    if exists|i: int| 0 <= i < ks.len() && (misfed_below(ops, trace[i].nodes, #[trigger] ks[i])
        || fire_overflows(ops, trace[i], trace[i + 1], ks[i])) {
        let i = choose|i: int| 0 <= i < ks.len() && (misfed_below(ops, trace[i].nodes, #[trigger] ks[i])
            || fire_overflows(ops, trace[i], trace[i + 1], ks[i]));
        assert(t2[i] == trace[i] && t2[i + 1] == trace[i + 1] && k2[i] == ks[i]);
    }
    if exists|i: int| 0 <= i < t2.len() && #[trigger] some_misfit(t2[i].nodes) {
        let i = choose|i: int| 0 <= i < t2.len() && #[trigger] some_misfit(t2[i].nodes);
        if i < trace.len() {
            assert(t2[i] == trace[i]);
        }
    }
    if exists|i: int| 0 <= i < k2.len() && (misfed_below(ops, t2[i].nodes, #[trigger] k2[i])
        || fire_overflows(ops, t2[i], t2[i + 1], k2[i])) {
        let i = choose|i: int| 0 <= i < k2.len() && (misfed_below(ops, t2[i].nodes, #[trigger] k2[i])
            || fire_overflows(ops, t2[i], t2[i + 1], k2[i]));
        if i < ks.len() {
            assert(t2[i] == trace[i] && t2[i + 1] == trace[i + 1] && k2[i] == ks[i]);
        }
    }
}

/// A loop below `k + 1` whose union does not fit is one below `k`, or step `k`.
proof fn lemma_misfed_below_next(ops: Seq<StratifiedOp>, nodes: Seq<Node>, k: int)
    requires
        0 <= k,
    ensures
        misfed_below(ops, nodes, k + 1) == (misfed_below(ops, nodes, k) || misfed(ops[k], nodes)),
{
    if misfed_below(ops, nodes, k + 1) {
        let j = choose|j: int| 0 <= j < k + 1 && #[trigger] misfed(ops[j], nodes);
        if j < k {
            assert(misfed_below(ops, nodes, k));
        }
    }
}

/// Nodes recomputed after a change of node `var` alone (or of none) are recomputed from the
/// nodes before that change.
proof fn lemma_recomputed(a: Seq<Node>, mid: Seq<Node>, b: Seq<Node>, var: int)
    requires
        only_states_changed(a, mid),
        forall|i: int| 0 <= i < a.len() && i != var ==> #[trigger] mid[i] == a[i],
        same_but_derived_states(mid, b),
        forall|i: int| 0 <= i < b.len() ==> #[trigger] computed_at(b, i),
    ensures
        recomputed_from(a, b, var),
{
    assert forall|i: int| 0 <= i < a.len() && i != var && !(a[i].kind is Derived) implies #[trigger] b[i].state == a[i].state by {
        assert(mid[i] == a[i]);
    }
    assert forall|i: int| 0 <= i < a.len() implies {
        &&& (#[trigger] b[i]).id == a[i].id
        &&& b[i].kind == a[i].kind
        &&& b[i].inputs == a[i].inputs
        &&& b[i].op == a[i].op
        &&& b[i].is_manual_input == a[i].is_manual_input
        &&& b[i].is_persistent == a[i].is_persistent
        &&& (a[i].kind is Input) ==> b[i].state == a[i].state
    } by {
        assert(mid[i].kind == a[i].kind);
    }
}

impl Database {
    /// `self` is what the fixpoint over the steps below `limit` leaves when run from the node
    /// states `start`, the seen sets `seen` and the commit id `commit`, with no flag set before:
    /// the run `trace`, with at most `max_iterations` rounds after its first, ends in the round
    /// of `self`, one commit id per round; a last pass examined the steps below `scanned`; some
    /// multiplicity did not fit in `i64` exactly where the run or that pass met one; and the
    /// fixpoint stopped at rest, at an interrupt whose relation holds a tuple (the first step
    /// not at rest), or after `max_iterations` rounds (or at the greatest commit id).
    pub open spec fn fixpoint_from(
        &self,
        start: Seq<Map<ValView, int>>,
        seen: Seq<Map<ValView, int>>,
        commit: u64,
        max_iterations: usize,
        limit: int,
        trace: Seq<Round>,
        ks: Seq<int>,
        scanned: int,
    ) -> bool {
        let ops = self.ops();
        let end = scan_end(ops, limit);
        &&& runs(ops, limit, start, seen, commit, trace, ks)
        &&& trace.last() == self.round()
        &&& ks.len() <= max_iterations
        &&& self.spec_commit_id() == commit + ks.len()
        &&& 0 <= scanned <= end
        &&& self.spec_overflowed() == (run_overflows(ops, trace, ks) || misfed_below(ops, self.nodes(), scanned))
        &&& !self.spec_interrupted() && !self.spec_limit_reached() ==> scanned == end && at_rest_below(ops, self.round(), end)
        &&& self.spec_limit_reached() ==> ks.len() == max_iterations || self.spec_commit_id() == u64::MAX
        &&& ks.len() == max_iterations ==> self.spec_limit_reached()
        &&& self.spec_interrupted() ==> scanned < end && interrupt_holds(ops[scanned], self.nodes())
            && (at_rest_below(ops, self.round(), scanned) || self.spec_commit_id() == u64::MAX)
    }

    /// Run the steps `0..limit` to a fixpoint: recompute, then run the steps in order; when
    /// a loop sees a new tuple, recompute and start over; stop when a pass sees nothing new,
    /// when an interrupt's relation holds a tuple, or after the maximum number of iterations.
    #[verifier::rlimit(80)]
    pub(crate) fn run_fixpoint_up_to(&mut self, limit: usize)
        requires
            old(self).wf(),
        ensures
            final(self).wf(),
            final(self).strat@ == old(self).strat@,
            final(self).seen@.len() == old(self).seen@.len(),
            final(self).frames@.len() == old(self).frames@.len(),
            final(self).max_iterations == old(self).max_iterations,
            old(self).interrupted ==> final(self).interrupted,
            old(self).overflowed ==> final(self).overflowed,
            old(self).limit_reached ==> final(self).limit_reached,
            final(self).graph.names() == old(self).graph.names(),
            only_states_changed(old(self).graph.nodes(), final(self).graph.nodes()),
            old(self).commit_id.0 <= final(self).commit_id.0,
            same_frame_inputs(old(self).frames@, final(self).frames@),
            !final(self).interrupted && !final(self).overflowed && !final(self).limit_reached ==> {
                &&& all_consistent(final(self).graph.nodes())
                &&& forall|j: int| 0 <= j < limit && j < final(self).strat@.len() ==> #[trigger] final(self).settled_at(j)
            },
            final(self).interrupted && !old(self).interrupted ==> exists|k: int| 0 <= k < final(self).strat@.len()
                && #[trigger] interrupt_holds(final(self).strat@[k], final(self).graph.nodes()),
            final(self).limit_reached && !old(self).limit_reached ==> final(self).commit_id.0 == u64::MAX
                || final(self).commit_id.0 >= old(self).commit_id.0 + old(self).max_iterations,
            !old(self).interrupted && !old(self).overflowed && !old(self).limit_reached ==> exists|trace: Seq<Round>, ks: Seq<int>, scanned: int|
                #[trigger] final(self).fixpoint_from(states_of(old(self).graph.nodes()), old(self).round().seen, old(self).commit_id.0,
                    old(self).max_iterations, limit as int, trace, ks, scanned),
    {
        let ghost start = self.graph.nodes();
        let ghost ops0 = self.strat@;
        let ghost seen0 = old(self).round().seen;
        let ghost commit0 = self.commit_id.0;
        let ghost ov0 = self.overflowed;
        let ghost end = scan_end(ops0, limit as int);
        self.recompute_all();
        let ghost mut trace: Seq<Round> = seq![self.round()];
        let ghost mut ks: Seq<int> = Seq::empty();
        let ghost mut scanned: int = 0;
        proof {
            assert forall|i: int| 0 <= i < states_of(start).len() && !(self.graph.nodes()[i].kind is Derived) implies
                #[trigger] self.graph.nodes()[i].state@ == states_of(start)[i] by {
                assert(self.graph.nodes()[i].kind == start[i].kind);
            }
            assert(self.seen@.map_values(|c: Collection<Val>| c@) =~= old(self).seen@.map_values(|c: Collection<Val>| c@));
            assert(runs(ops0, limit as int, states_of(start), seen0, commit0, trace, ks));
            assert(trace[0] == self.round());
            if some_misfit(self.graph.nodes()) {
                assert(some_misfit(trace[0].nodes));
            }
            if run_overflows(ops0, trace, ks) {
                let i = choose|i: int| 0 <= i < trace.len() && #[trigger] some_misfit(trace[i].nodes);
            }
        }
        let mut iterations: usize = 0;
        loop
            invariant_except_break
                self.wf(),
                self.strat@ == old(self).strat@,
                self.seen@.len() == old(self).seen@.len(),
                self.frames@.len() == old(self).frames@.len(),
                self.max_iterations == old(self).max_iterations,
                old(self).interrupted ==> self.interrupted,
                old(self).overflowed ==> self.overflowed,
                old(self).limit_reached ==> self.limit_reached,
                self.graph.names() == old(self).graph.names(),
                only_states_changed(start, self.graph.nodes()),
                old(self).commit_id.0 <= self.commit_id.0,
                !self.overflowed ==> all_consistent(self.graph.nodes()),
                start == old(self).graph.nodes(),
                same_frame_inputs(old(self).frames@, self.frames@),
                self.interrupted == old(self).interrupted,
                self.commit_id.0 >= old(self).commit_id.0 + iterations,
                self.limit_reached && !old(self).limit_reached ==> self.commit_id.0 == u64::MAX,
                ops0 == old(self).strat@,
                end == scan_end(ops0, limit as int),
                commit0 == old(self).commit_id.0,
                ov0 == old(self).overflowed,
                seen0 == old(self).round().seen,
                runs(ops0, limit as int, states_of(start), seen0, commit0, trace, ks),
                trace.last() == self.round(),
                ks.len() == iterations,
                iterations <= self.max_iterations,
                self.commit_id.0 == commit0 + iterations,
                self.overflowed == (ov0 || run_overflows(ops0, trace, ks)),
            ensures
                self.wf(),
                self.strat@ == old(self).strat@,
                self.seen@.len() == old(self).seen@.len(),
                self.frames@.len() == old(self).frames@.len(),
                self.max_iterations == old(self).max_iterations,
                old(self).interrupted ==> self.interrupted,
                old(self).overflowed ==> self.overflowed,
                old(self).limit_reached ==> self.limit_reached,
                self.graph.names() == old(self).graph.names(),
                only_states_changed(old(self).graph.nodes(), self.graph.nodes()),
                old(self).commit_id.0 <= self.commit_id.0,
                same_frame_inputs(old(self).frames@, self.frames@),
                !self.interrupted && !self.overflowed && !self.limit_reached ==> {
                    &&& all_consistent(self.graph.nodes())
                    &&& forall|j: int| 0 <= j < limit && j < self.strat@.len() ==> #[trigger] self.settled_at(j)
                },
                self.interrupted == old(self).interrupted,
                self.limit_reached && !old(self).limit_reached ==> self.commit_id.0 == u64::MAX
                    || self.commit_id.0 >= old(self).commit_id.0 + old(self).max_iterations,
                ops0 == old(self).strat@,
                end == scan_end(ops0, limit as int),
                commit0 == old(self).commit_id.0,
                ov0 == old(self).overflowed,
                seen0 == old(self).round().seen,
                start == old(self).graph.nodes(),
                runs(ops0, limit as int, states_of(start), seen0, commit0, trace, ks),
                trace.last() == self.round(),
                ks.len() <= self.max_iterations,
                self.commit_id.0 == commit0 + ks.len(),
                0 <= scanned <= end,
                self.overflowed == (ov0 || run_overflows(ops0, trace, ks) || misfed_below(ops0, self.graph.nodes(), scanned)),
                !self.interrupted && !self.limit_reached ==> scanned == end && at_rest_below(ops0, self.round(), end),
                self.limit_reached && !old(self).limit_reached ==> ks.len() == self.max_iterations || self.commit_id.0 == u64::MAX,
                ks.len() == self.max_iterations ==> self.limit_reached,
            decreases self.max_iterations - iterations,
        {
            if iterations >= self.max_iterations {
                let ghost pre = *self;
                self.limit_reached = true;
                proof {
                    pre.lemma_defs();
                    self.lemma_defs();
                    scanned = 0;
                    assert(self.round() == pre.round());
                    assert(!misfed_below(ops0, self.graph.nodes(), 0));
                }
                break;
            }
            let n = if limit < self.strat.len() {
                limit
            } else {
                self.strat.len()
            };
            let mut progressed = false;
            let mut k: usize = 0;
            while k < n && !progressed
                invariant
                    n <= self.strat@.len(),
                    n <= limit,
                    n == end,
                    k <= n,
                    self.wf(),
                    self.strat@ == old(self).strat@,
                    self.seen@.len() == old(self).seen@.len(),
                    self.frames@.len() == old(self).frames@.len(),
                    self.max_iterations == old(self).max_iterations,
                    old(self).interrupted ==> self.interrupted,
                    old(self).overflowed ==> self.overflowed,
                    old(self).limit_reached ==> self.limit_reached,
                    self.graph.names() == old(self).graph.names(),
                    only_states_changed(start, self.graph.nodes()),
                    old(self).commit_id.0 <= self.commit_id.0,
                    !self.overflowed ==> all_consistent(self.graph.nodes()),
                    start == old(self).graph.nodes(),
                    same_frame_inputs(old(self).frames@, self.frames@),
                    iterations < self.max_iterations,
                    !progressed && !self.limit_reached ==> forall|j: int| 0 <= j < k ==> #[trigger] self.settled_at(j),
                    !progressed ==> forall|j: int| 0 <= j < k ==> #[trigger] self.settled_at(j) || self.commit_id.0 == u64::MAX,
                    self.interrupted == old(self).interrupted,
                    self.commit_id.0 >= old(self).commit_id.0 + iterations + if progressed { 1int } else { 0int },
                    self.limit_reached && !old(self).limit_reached ==> self.commit_id.0 == u64::MAX,
                    ops0 == old(self).strat@,
                    end == scan_end(ops0, limit as int),
                    commit0 == old(self).commit_id.0,
                    ov0 == old(self).overflowed,
                    seen0 == old(self).round().seen,
                    runs(ops0, limit as int, states_of(start), seen0, commit0, trace, ks),
                    trace.last() == self.round(),
                    ks.len() == iterations + if progressed { 1int } else { 0int },
                    self.commit_id.0 == commit0 + ks.len(),
                    self.overflowed == (ov0 || run_overflows(ops0, trace, ks) || (!progressed && misfed_below(ops0, self.graph.nodes(), k as int))),
                decreases n - k,
            {
                proof {
                    self.lemma_defs();
                    assert(op_refs_valid(self.strat@[k as int], self.graph.nodes()));
                }
                let interrupt_rel = match &self.strat[k] {
                    StratifiedOp::Interrupt { rel } => Some(*rel),
                    StratifiedOp::Feedback { .. } => None,
                };
                match interrupt_rel {
                    Some(rel) => {
                        if !self.graph.get(NodeId(rel)).state.is_empty() {
                            let ghost pre = *self;
                            self.interrupted = true;
                            self.graph.clear_dirty();
                            proof {
                                pre.lemma_defs();
                                self.lemma_defs();
                                assert(interrupt_holds(self.strat@[k as int], self.graph.nodes()));
                                assert(self.round() == pre.round());
                                self.lemma_round();
                                if self.commit_id.0 != u64::MAX {
                                    assert forall|j: int| 0 <= j < k implies #[trigger] settled(ops0[j], self.round().seen[j], self.round().nodes) by {
                                        assert(pre.settled_at(j));
                                    }
                                }
                                if !old(self).interrupted && !old(self).overflowed && !old(self).limit_reached {
                                    old(self).lemma_defs();
                                    assert(self.fixpoint_from(states_of(start), seen0, commit0, old(self).max_iterations, limit as int, trace, ks, k as int));
                                }
                            }
                            return;
                        }
                        proof {
                            assert(self.settled_at(k as int));
                            lemma_misfed_below_next(ops0, self.graph.nodes(), k as int);
                        }
                    },
                    None => {
                        let ghost before = *self;
                        let p = self.feedback_step(k);
                        if p {
                            let ghost mid = *self;
                            self.recompute_all();
                            progressed = true;
                            proof {
                                let a = trace.last();
                                let b = self.round();
                                let op = ops0[k as int];
                                before.lemma_defs();
                                before.lemma_round();
                                mid.lemma_defs();
                                self.lemma_defs();
                                assert(a == before.round());
                                assert(op_refs_valid(op, before.graph.nodes()));
                                lemma_recomputed(before.graph.nodes(), mid.graph.nodes(), self.graph.nodes(), op->var as int);
                                assert forall|j: int| 0 <= j < k implies #[trigger] settled(ops0[j], a.seen[j], a.nodes) by {
                                    assert(before.settled_at(j));
                                }
                                assert forall|j: int| 0 <= j < a.seen.len() && j != k implies #[trigger] b.seen[j] == a.seen[j] by {
                                    assert(self.seen@[j] == before.seen@[j]);
                                }
                                assert(b.seen[k as int] == mid.seen@[k as int]@);
                                assert(b.nodes[op->var as int] == mid.graph.nodes()[op->var as int]);
                                let fed = fed_of(op, a.nodes);
                                let seen = a.seen[k as int];
                                assert(at_rest_below(ops0, a, k as int));
                                assert(!settled(op, seen, a.nodes));
                                assert(a.commit < u64::MAX && b.commit == a.commit + 1);
                                assert(b.seen.len() == a.seen.len());
                                assert(forall|v: ValView| #[trigger] count_of(b.seen[k as int], v) == count_of(seen, v) + if newly_fed(fed, seen, v) { 1int } else { 0int });
                                assert(recomputed_from(a.nodes, b.nodes, op->var as int));
                                assert(fires(ops0, limit as int, a, b, k as int));
                                lemma_runs_push(ops0, limit as int, states_of(start), seen0, commit0, trace, ks, b, k as int);
                                lemma_run_overflows_push(ops0, trace, ks, b, k as int);
                                trace = trace.push(b);
                                ks = ks.push(k as int);
                            }
                        } else {
                            proof {
                                before.lemma_defs();
                                self.lemma_defs();
                                assert(self.round() == before.round());
                                lemma_misfed_below_next(ops0, self.graph.nodes(), k as int);
                                assert(self.settled_at(k as int) || self.commit_id.0 == u64::MAX);
                                assert forall|j: int| 0 <= j < k + 1 implies #[trigger] self.settled_at(j) || self.commit_id.0 == u64::MAX by {
                                    if j < k {
                                        assert(before.settled_at(j) || before.commit_id.0 == u64::MAX);
                                        assert(self.seen@[j] == before.seen@[j]);
                                    }
                                }
                                if !self.limit_reached {
                                    assert(self.settled_at(k as int));
                                    assert forall|j: int| 0 <= j < k implies #[trigger] self.settled_at(j) by {
                                        assert(before.settled_at(j));
                                        assert(self.seen@[j] == before.seen@[j]);
                                    }
                                }
                            }
                        }
                    },
                }
                k = k + 1;
            }
            if !progressed {
                proof {
                    scanned = k as int;
                    self.lemma_round();
                    self.lemma_defs();
                    if !self.limit_reached {
                        assert forall|j: int| 0 <= j < end implies #[trigger] settled(ops0[j], self.round().seen[j], self.round().nodes) by {
                            assert(self.settled_at(j));
                        }
                    }
                }
                break;
            }
            iterations = iterations + 1;
        }
        let ghost pre = *self;
        self.graph.clear_dirty();
        proof {
            pre.lemma_defs();
            self.lemma_defs();
            assert(self.round() == pre.round());
            assert forall|j: int| 0 <= j < limit && j < self.strat@.len() && pre.settled_at(j) implies #[trigger] self.settled_at(j) by {}
            if !old(self).interrupted && !old(self).overflowed && !old(self).limit_reached {
                old(self).lemma_defs();
                assert(self.fixpoint_from(states_of(start), seen0, commit0, old(self).max_iterations, limit as int, trace, ks, scanned));
            }
        }
    }
}

impl Database {
    /// Commit staged changes: recompute the derived relations and run the feedback loops to
    /// a fixpoint. Where there are steps, the result is the run of the fixpoint from the
    /// states before the commit (`fixpoint_from`); the commit is incomplete exactly where a
    /// multiplicity did not fit in `i64`, or the run took the maximum number of rounds (or
    /// reached the greatest commit id).
    pub fn commit(&mut self)
        requires
            old(self).wf(),
        ensures
            final(self).wf(),
            only_states_changed(old(self).nodes(), final(self).nodes()),
            final(self).names() == old(self).names(),
            final(self).ops() == old(self).ops(),
            final(self).frame_count() == old(self).frame_count(),
            final(self).spec_max_iterations() == old(self).spec_max_iterations(),
            old(self).spec_commit_id() <= final(self).spec_commit_id(),
            final(self).frame_count() > 0 ==> forall|n: int| #[trigger] final(self).pushed_state(n) == old(self).pushed_state(n),
            !final(self).spec_interrupted() && !final(self).spec_incomplete() ==> {
                &&& all_consistent(final(self).nodes())
                &&& forall|j: int| 0 <= j < final(self).ops().len() ==> #[trigger] final(self).settled_at(j)
            },
            final(self).ops().len() > 0 && final(self).spec_interrupted() ==> exists|k: int| 0 <= k < final(self).ops().len()
                && #[trigger] interrupt_holds(final(self).ops()[k], final(self).nodes()),
            final(self).ops().len() == 0 ==> final(self).spec_interrupted() == old(self).spec_interrupted(),
            final(self).ops().len() == 0 ==> forall|j: int| 0 <= j < final(self).nodes().len() ==> #[trigger] computed_at(final(self).nodes(), j),
            final(self).ops().len() == 0 ==> (final(self).spec_incomplete()
                <==> !forall|j: int| 0 <= j < final(self).nodes().len() ==> #[trigger] fits_at(final(self).nodes(), j)),
            final(self).spec_limit_reached() ==> final(self).spec_commit_id() == u64::MAX
                || final(self).spec_commit_id() >= old(self).spec_commit_id() + old(self).spec_max_iterations(),
            final(self).ops().len() > 0 ==> exists|trace: Seq<Round>, ks: Seq<int>, scanned: int| #[trigger] final(self).fixpoint_from(
                states_of(old(self).nodes()), old(self).round().seen, old(self).spec_commit_id(), old(self).spec_max_iterations(),
                final(self).ops().len() as int, trace, ks, scanned),
    {
        proof {
            old(self).lemma_defs();
        }
        self.overflowed = false;
        self.limit_reached = false;
        proof {
            self.lemma_defs();
        }
        if self.strat.len() == 0 {
            self.recompute_all();
            let ghost pre = *self;
            self.graph.clear_dirty();
            proof {
                pre.lemma_defs();
                self.lemma_defs();
            }
        } else {
            let ghost pre = *self;
            self.interrupted = false;
            proof {
                pre.lemma_defs();
                self.lemma_defs();
            }
            let n = self.strat.len();
            let ghost before = *self;
            self.run_fixpoint_up_to(n);
            proof {
                assert(before.graph.nodes() == old(self).graph.nodes());
                assert(before.round() == old(self).round());
                old(self).lemma_defs();
                self.lemma_defs();
            }
        }
        proof {
            self.lemma_defs();
            if self.frames@.len() > 0 {
                assert(self.frames@.last().snapshot@ == old(self).frames@.last().snapshot@) by {
                    assert(self.frames@[self.frames@.len() - 1].snapshot@ == old(self).frames@[self.frames@.len() - 1].snapshot@);
                }
            }
        }
    }

    /// Create a variable for feedback loops: a handle to set up the loop, and a relation to
    /// read the variable.
    pub fn variable<T: Tuple>(&mut self, name: &str) -> (r: (Variable<T>, Relation<T>))
        requires
            old(self).wf(),
        ensures
            final(self).wf(),
            final(self).same_control(&*old(self)),
            r.0.id == r.1.id,
            r.0.id.0 == old(self).nodes().len(),
            final(self).nodes().len() == old(self).nodes().len() + 1,
            final(self).nodes().subrange(0, r.0.id.0 as int) == old(self).nodes(),
            forall|i: int| 0 <= i < old(self).nodes().len() ==> #[trigger] final(self).nodes()[i] == old(self).nodes()[i],
            final(self).state(r.0.id.0 as int) == Map::<ValView, int>::empty(),
            final(self).nodes()[r.0.id.0 as int].kind is Feedback,
            final(self).names() == old(self).names().insert(name@, r.0.id),
    {
        proof {
            old(self).lemma_defs();
        }
        let id = self.graph.create_feedback(name);
        proof {
            self.lemma_refs_grow_after(old(self).graph.nodes());
            assert forall|k: int| 0 <= k < old(self).graph.nodes().len() implies (#[trigger] self.graph.nodes()[k]) == old(self).graph.nodes()[k] by {
                assert(self.graph.nodes().subrange(0, id.0 as int)[k] == self.graph.nodes()[k]);
            }
            self.lemma_frames_grow(old(self));
            self.lemma_defs();
            self.lemma_same_control(old(self));
        }
        (Variable::new(id), Relation::new(id))
    }

    /// Complete a feedback loop: the variable takes, the first time it is seen, each tuple of
    /// positive multiplicity in the union of `base` and `recursive`, and keeps it. Loops run
    /// in order of declaration, each to its fixpoint, until none sees a new tuple.
    pub fn feedback<T: Tuple>(&mut self, var: Variable<T>, base: Relation<T>, recursive: Relation<T>)
        requires
            old(self).wf(),
            var.id.0 < old(self).nodes().len(),
            base.id.0 < old(self).nodes().len(),
            recursive.id.0 < old(self).nodes().len(),
            old(self).nodes()[var.id.0 as int].kind is Feedback,
        ensures
            final(self).feedback_added(&*old(self), var.id.0, base.id.0, recursive.id.0, false),
    {
        self.add_feedback(var.id, base.id, recursive.id, false);
    }

    /// Complete a feedback loop whose variable holds each tuple paired with the commit in which
    /// it was first seen.
    pub fn feedback_with_id<T: Tuple>(&mut self, var: Variable<(T, CommitId)>, base: Relation<T>, recursive: Relation<T>)
        requires
            old(self).wf(),
            var.id.0 < old(self).nodes().len(),
            base.id.0 < old(self).nodes().len(),
            recursive.id.0 < old(self).nodes().len(),
            old(self).nodes()[var.id.0 as int].kind is Feedback,
        ensures
            final(self).feedback_added(&*old(self), var.id.0, base.id.0, recursive.id.0, true),
    {
        self.add_feedback(var.id, base.id, recursive.id, true);
    }

    /// `self` is `old` with the feedback loop added, and run with the others to a fixpoint.
    pub open spec fn feedback_added(&self, old: &Self, var: usize, base: usize, rec: usize, stamped: bool) -> bool {
        &&& self.wf()
        &&& self.ops() == old.ops().push(StratifiedOp::Feedback { var, base, rec, stamped })
        &&& self.nodes().len() == old.nodes().len()
        &&& self.nodes()[var as int].inputs@ == seq![NodeId(base), NodeId(rec)]
        &&& forall|i: int| 0 <= i < old.nodes().len() ==> #[trigger] self.nodes()[i].kind == old.nodes()[i].kind
        &&& forall|i: int| 0 <= i < old.nodes().len() && (old.nodes()[i].kind is Input) ==> #[trigger] self.nodes()[i].state == old.nodes()[i].state
        &&& self.names() == old.names()
        &&& self.frame_count() == old.frame_count()
        &&& old.spec_commit_id() <= self.spec_commit_id()
        &&& !self.spec_interrupted() && !self.spec_incomplete() ==> {
            &&& all_consistent(self.nodes())
            &&& forall|j: int| 0 <= j < self.ops().len() ==> #[trigger] self.settled_at(j)
        }
        &&& self.spec_interrupted() ==> exists|k: int| 0 <= k < self.ops().len()
            && #[trigger] interrupt_holds(self.ops()[k], self.nodes())
        &&& self.spec_limit_reached() ==> self.spec_commit_id() == u64::MAX
            || self.spec_commit_id() >= old.spec_commit_id() + old.spec_max_iterations()
        &&& exists|trace: Seq<Round>, ks: Seq<int>, scanned: int| #[trigger] self.fixpoint_from(states_of(old.nodes()),
            old.round().seen.push(Map::empty()), old.spec_commit_id(), old.spec_max_iterations(), self.ops().len() as int,
            trace, ks, scanned)
    }

    fn add_feedback(&mut self, var: NodeId, base: NodeId, rec: NodeId, stamped: bool)
        requires
            old(self).wf(),
            var.0 < old(self).nodes().len(),
            base.0 < old(self).nodes().len(),
            rec.0 < old(self).nodes().len(),
            old(self).nodes()[var.0 as int].kind is Feedback,
        ensures
            final(self).feedback_added(&*old(self), var.0, base.0, rec.0, stamped),
    {
        proof {
            old(self).lemma_defs();
            assert(crate::dataflow::graph::node_wf(self.graph.nodes(), var.0 as int));
        }
        self.graph.set_inputs(var, vec![base, rec]);
        self.strat.push(StratifiedOp::Feedback { var: var.0, base: base.0, rec: rec.0, stamped });
        self.seen.push(Collection::new());
        proof {
            let nodes = self.graph.nodes();
            assert forall|k: int| 0 <= k < self.strat@.len() implies op_refs_valid(#[trigger] self.strat@[k], nodes) by {
                if k < old(self).strat@.len() {
                    assert(self.strat@[k] == old(self).strat@[k]);
                    assert(op_refs_valid(old(self).strat@[k], old(self).graph.nodes()));
                    match self.strat@[k] {
                        StratifiedOp::Feedback { var: v, .. } => {
                            assert(nodes[v as int].kind == old(self).graph.nodes()[v as int].kind);
                        },
                        _ => {},
                    }
                }
            }
            assert forall|f: int| 0 <= f < self.frames@.len() implies frame_refs_valid(#[trigger] self.frames@[f], nodes.len(), self.strat@.len()) by {
                assert(frame_refs_valid(self.frames@[f], nodes.len(), old(self).strat@.len()));
            }
            self.lemma_frames_grow(old(self));
            self.lemma_defs();
        }
        let ghost mid = *self;
        self.interrupted = false;
        self.overflowed = false;
        self.limit_reached = false;
        proof {
            mid.lemma_defs();
            self.lemma_defs();
            assert(self.max_iterations == old(self).max_iterations);
            assert(self.commit_id == old(self).commit_id);
        }
        let n = self.strat.len();
        let ghost before = *self;
        proof {
            assert(states_of(before.graph.nodes()) =~= states_of(old(self).graph.nodes()));
            assert(before.round().seen =~= old(self).round().seen.push(Map::empty()));
        }
        self.run_fixpoint_up_to(n);
        proof {
            old(self).lemma_defs();
            self.lemma_defs();
            assert(self.graph.nodes()[var.0 as int].inputs@ == seq![base, rec]);
        }
    }

    /// Add an interrupt: the fixpoint stops as soon as `rel` holds a tuple.
    pub fn interrupt<T: Tuple>(&mut self, rel: Relation<T>)
        requires
            old(self).wf(),
            rel.id.0 < old(self).nodes().len(),
        ensures
            final(self).wf(),
            final(self).ops() == old(self).ops().push(StratifiedOp::Interrupt { rel: rel.id.0 }),
            final(self).nodes() == old(self).nodes(),
            final(self).names() == old(self).names(),
            final(self).frame_count() == old(self).frame_count(),
            final(self).spec_commit_id() == old(self).spec_commit_id(),
    {
        proof {
            old(self).lemma_defs();
        }
        self.strat.push(StratifiedOp::Interrupt { rel: rel.id.0 });
        self.seen.push(Collection::new());
        proof {
            assert forall|k: int| 0 <= k < self.strat@.len() implies op_refs_valid(#[trigger] self.strat@[k], self.graph.nodes()) by {
                if k < old(self).strat@.len() {
                    assert(self.strat@[k] == old(self).strat@[k]);
                }
            }
            assert forall|f: int| 0 <= f < self.frames@.len() implies frame_refs_valid(#[trigger] self.frames@[f], self.graph.nodes().len(), self.strat@.len()) by {
                assert(frame_refs_valid(self.frames@[f], self.graph.nodes().len(), old(self).strat@.len()));
            }
            self.lemma_frames_grow(old(self));
            self.lemma_defs();
        }
    }
}

} // verus!
