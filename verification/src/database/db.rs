//! The database type: its state, its invariant, inputs, queries and recomputation.

use vstd::prelude::*;

use crate::change::{Change, Diff};
use crate::collection::{
    Collection, add_to, applies_in_range, apply_all, count_of, lemma_add_cancel, lemma_applies_prefix,
    lemma_apply_all_fits, lemma_apply_all_push, lemma_nonzero_add, nonzero,
};
use crate::dataflow::graph::{DataflowGraph, Node, NodeId, NodeOp, node_wf, op_inputs};
use crate::database::commit_id::CommitId;
use crate::database::compute::{compute_op, lemma_op_output_frame, op_output, result_is};
use crate::database::relation::Relation;
use crate::database::typed::{decode, decodes};
use crate::tuple::{Tuple, Val, ValView};

verus! {

/// A step of the stratified fixpoint, in order of declaration.
pub enum StratifiedOp {
    /// A feedback loop: the variable `var` takes each tuple of positive multiplicity in the
    /// union of `base` and `rec` the first time it is seen. With `stamped`, the variable holds
    /// each tuple paired with the commit that found it.
    Feedback { var: usize, base: usize, rec: usize, stamped: bool },
    /// The fixpoint stops as soon as node `rel` holds a tuple.
    Interrupt { rel: usize },
}

/// The changes recorded since a `push`, so that `pop` can undo them.
pub struct Frame {
    pub name: Option<String>,
    /// Changes to (non-persistent) inputs, in order.
    pub input_changes: Vec<(usize, Change<Val>)>,
    /// Tuples that feedback loops added to their variables: the position of the loop, the
    /// tuple as counted in its seen set and the tuple as held by its variable.
    pub outputs: Vec<(usize, Val, Val)>,
    /// Tuples that feedback loops counted as seen: the position of the loop and the tuple.
    pub deltas: Vec<(usize, Val)>,
    /// The states of the nodes when the frame was pushed.
    pub snapshot: Ghost<Seq<Map<ValView, int>>>,
}

/// The main database type managing relations and queries.
pub struct Database {
    pub(crate) graph: DataflowGraph,
    pub(crate) checkpoints: crate::checkpoint::CheckpointManager,
    pub(crate) frames: Vec<Frame>,
    pub(crate) max_iterations: usize,
    pub(crate) strat: Vec<StratifiedOp>,
    /// For each step, the tuples its loop has seen, with how often (empty for an interrupt).
    pub(crate) seen: Vec<Collection<Val>>,
    pub(crate) interrupted: bool,
    pub(crate) overflowed: bool,
    pub(crate) limit_reached: bool,
    pub(crate) commit_id: CommitId,
}

/// Node `i` is derived and holds what its operation gives from the nodes it reads.
pub open spec fn consistent_at(nodes: Seq<Node>, i: int) -> bool {
    nodes[i].kind is Derived ==> op_output(nodes[i].op, nodes) == Some(nodes[i].state@)
}

/// Node `i`, where derived, holds what its operation gives, or nothing where that does not
/// fit in `i64`.
pub open spec fn computed_at(nodes: Seq<Node>, i: int) -> bool {
    nodes[i].kind is Derived ==> nodes[i].state@ == match op_output(nodes[i].op, nodes) {
        Some(m) => m,
        None => Map::empty(),
    }
}

/// The operation of node `i`, where derived, fits in `i64`.
pub open spec fn fits_at(nodes: Seq<Node>, i: int) -> bool {
    nodes[i].kind is Derived ==> op_output(nodes[i].op, nodes) is Some
}

/// Every derived node holds what its operation gives.
pub open spec fn all_consistent(nodes: Seq<Node>) -> bool {
    forall|i: int| 0 <= i < nodes.len() ==> #[trigger] consistent_at(nodes, i)
}

/// `b` is `a` with only the states of derived nodes changed.
pub open spec fn same_but_derived_states(a: Seq<Node>, b: Seq<Node>) -> bool {
    &&& a.len() == b.len()
    &&& forall|i: int| 0 <= i < a.len() ==> {
        &&& (#[trigger] b[i]).id == a[i].id
        &&& b[i].kind == a[i].kind
        &&& b[i].inputs == a[i].inputs
        &&& b[i].op == a[i].op
        &&& b[i].pending_changes == a[i].pending_changes
        &&& b[i].is_manual_input == a[i].is_manual_input
        &&& b[i].is_persistent == a[i].is_persistent
        &&& !(a[i].kind is Derived) ==> b[i].state == a[i].state
    }
}

/// The nodes of `b` extend those of `a`, with only states changed and inputs untouched.
pub open spec fn only_states_changed(a: Seq<Node>, b: Seq<Node>) -> bool {
    &&& a.len() == b.len()
    &&& forall|i: int| 0 <= i < a.len() ==> {
        &&& (#[trigger] b[i]).id == a[i].id
        &&& b[i].kind == a[i].kind
        &&& b[i].inputs == a[i].inputs
        &&& b[i].op == a[i].op
        &&& b[i].is_manual_input == a[i].is_manual_input
        &&& b[i].is_persistent == a[i].is_persistent
        &&& (a[i].kind is Input) ==> b[i].state == a[i].state
    }
}

/// The map of the tuples of type `T` that a state holds, with their multiplicities.
pub open spec fn typed_view<T: Tuple>(m: Map<ValView, int>) -> Map<T::V, int> {
    Map::new(|x: T::V| m.contains_key(T::encode(x)), |x: T::V| m[T::encode(x)])
}

impl Database {
    /// The nodes of the graph.
    pub closed spec fn nodes(&self) -> Seq<Node> {
        self.graph.nodes()
    }

    /// The state of node `i`.
    pub open spec fn state(&self, i: int) -> Map<ValView, int> {
        self.nodes()[i].state@
    }

    /// The names of the relations.
    pub closed spec fn names(&self) -> Map<Seq<char>, NodeId> {
        self.graph.names()
    }

    /// The steps of the stratified fixpoint.
    pub closed spec fn ops(&self) -> Seq<StratifiedOp> {
        self.strat@
    }

    /// The frames pushed and not yet popped.
    pub closed spec fn frame_count(&self) -> nat {
        self.frames@.len()
    }

    /// Some multiplicity did not fit in `i64` during the last commit.
    pub closed spec fn spec_overflowed(&self) -> bool {
        self.overflowed
    }

    /// The last commit stopped at the iteration limit, or at the greatest commit id.
    pub closed spec fn spec_limit_reached(&self) -> bool {
        self.limit_reached
    }

    /// The top frame recorded some change: to an input, or a tuple a loop added or saw.
    pub closed spec fn top_frame_records(&self) -> bool {
        &&& self.frames@.len() > 0
        &&& {
            let t = self.frames@.last();
            t.input_changes@.len() > 0 || t.outputs@.len() > 0 || t.deltas@.len() > 0
        }
    }

    pub closed spec fn spec_commit_id(&self) -> u64 {
        self.commit_id.0
    }

    pub closed spec fn spec_max_iterations(&self) -> usize {
        self.max_iterations
    }

    pub closed spec fn spec_interrupted(&self) -> bool {
        self.interrupted
    }

    /// The last commit found a multiplicity that does not fit in `i64` (its node is left empty)
    /// or reached the iteration limit.
    pub closed spec fn spec_incomplete(&self) -> bool {
        self.overflowed || self.limit_reached
    }

    /// The graph is well formed and every step refers to nodes of it.
    pub closed spec fn wf(&self) -> bool {
        &&& self.graph.wf()
        &&& self.checkpoints.ids_ok()
        &&& self.seen@.len() == self.strat@.len()
        &&& forall|k: int| 0 <= k < self.strat@.len() ==> op_refs_valid(#[trigger] self.strat@[k], self.graph.nodes())
        &&& forall|f: int| 0 <= f < self.frames@.len() ==> frame_refs_valid(#[trigger] self.frames@[f], self.graph.nodes().len(), self.strat@.len())
        &&& frames_agree(self.frames@, self.graph.nodes())
    }

    /// The invariant, except that the frames agree with the states of the inputs.
    pub closed spec fn wf_but_frames(&self) -> bool {
        &&& self.graph.wf()
        &&& self.checkpoints.ids_ok()
        &&& self.seen@.len() == self.strat@.len()
        &&& forall|k: int| 0 <= k < self.strat@.len() ==> op_refs_valid(#[trigger] self.strat@[k], self.graph.nodes())
        &&& forall|f: int| 0 <= f < self.frames@.len() ==> frame_refs_valid(#[trigger] self.frames@[f], self.graph.nodes().len(), self.strat@.len())
    }

    /// The state that node `n` had when the top frame was pushed (empty for a node created
    /// since).
    pub closed spec fn pushed_state(&self, n: int) -> Map<ValView, int> {
        snap_at(self.frames@.last().snapshot@, n)
    }

    /// What the closed spec functions of the database are, for the other modules of the crate.
    pub(crate) proof fn lemma_defs(&self)
        ensures
            self.nodes() == self.graph.nodes(),
            self.names() == self.graph.names(),
            self.ops() == self.strat@,
            self.frame_count() == self.frames@.len(),
            self.spec_commit_id() == self.commit_id.0,
            self.spec_max_iterations() == self.max_iterations,
            self.spec_interrupted() == self.interrupted,
            self.spec_incomplete() == (self.overflowed || self.limit_reached),
            self.spec_overflowed() == self.overflowed,
            self.spec_limit_reached() == self.limit_reached,
            self.top_frame_records() == (self.frames@.len() > 0 && (self.frames@.last().input_changes@.len() > 0
                || self.frames@.last().outputs@.len() > 0 || self.frames@.last().deltas@.len() > 0)),
            self.wf() == (self.graph.wf()
                && self.checkpoints.ids_ok()
                && self.seen@.len() == self.strat@.len()
                && (forall|k: int| 0 <= k < self.strat@.len() ==> op_refs_valid(#[trigger] self.strat@[k], self.graph.nodes()))
                && (forall|f: int| 0 <= f < self.frames@.len() ==> frame_refs_valid(#[trigger] self.frames@[f], self.graph.nodes().len(), self.strat@.len()))
                && frames_agree(self.frames@, self.graph.nodes())),
            self.frame_count() > 0 ==> forall|n: int| #[trigger] self.pushed_state(n) == snap_at(self.frames@.last().snapshot@, n),
            self.wf() == (self.wf_but_frames() && frames_agree(self.frames@, self.graph.nodes())),
            self.wf_but_frames() == (self.graph.wf()
                && self.checkpoints.ids_ok()
                && self.seen@.len() == self.strat@.len()
                && (forall|k: int| 0 <= k < self.strat@.len() ==> op_refs_valid(#[trigger] self.strat@[k], self.graph.nodes()))
                && (forall|f: int| 0 <= f < self.frames@.len() ==> frame_refs_valid(#[trigger] self.frames@[f], self.graph.nodes().len(), self.strat@.len()))),
    {
    }

    /// What `same_control` is, for the other modules of the crate.
    pub(crate) proof fn lemma_same_control(&self, other: &Self)
        ensures
            self.same_control(other) == (self.strat@ == other.strat@
                && self.seen@ == other.seen@
                && self.frames@ == other.frames@
                && self.commit_id == other.commit_id
                && self.max_iterations == other.max_iterations
                && self.interrupted == other.interrupted
                && self.overflowed == other.overflowed
                && self.limit_reached == other.limit_reached),
    {
    }

    /// Create a new empty database.
    pub fn new() -> (r: Self)
        ensures
            r.wf(),
            r.nodes().len() == 0,
            r.ops().len() == 0,
            r.frame_count() == 0,
            r.spec_commit_id() == 0,
            r.spec_max_iterations() == 1000,
            !r.spec_interrupted(),
            !r.spec_incomplete(),
            r.saved().len() == 0,
            r.next_checkpoint() == 0,
    {
        let r = Database {
            graph: DataflowGraph::new(),
            checkpoints: crate::checkpoint::CheckpointManager::new(),
            frames: Vec::new(),
            max_iterations: 1000,
            strat: Vec::new(),
            seen: Vec::new(),
            interrupted: false,
            overflowed: false,
            limit_reached: false,
            commit_id: CommitId(0),
        };
        proof {
            r.lemma_saved_defs();
        }
        r
    }

    /// Get the current commit ID.
    pub fn commit_id(&self) -> (r: CommitId)
        ensures
            r.0 == self.spec_commit_id(),
    {
        self.commit_id
    }

    /// Set the maximum iterations for fixed-point computation.
    pub fn set_max_iterations(&mut self, max: usize)
        ensures
            final(self).spec_max_iterations() == max,
            final(self).nodes() == old(self).nodes(),
            final(self).ops() == old(self).ops(),
            final(self).frame_count() == old(self).frame_count(),
            final(self).spec_commit_id() == old(self).spec_commit_id(),
            old(self).wf() ==> final(self).wf(),
    {
        self.max_iterations = max;
    }

    /// Check if the last fixpoint computation was interrupted.
    pub fn was_interrupted(&self) -> (r: bool)
        ensures
            r == self.spec_interrupted(),
    {
        self.interrupted
    }

    /// Whether the last commit could not complete: a multiplicity did not fit in `i64`,
    /// or the fixpoint reached the maximum number of iterations.
    pub fn was_incomplete(&self) -> (r: bool)
        ensures
            r == self.spec_incomplete(),
    {
        self.overflowed || self.limit_reached
    }

    /// Check if we're currently recording changes (have at least one frame on the stack).
    pub fn is_recording(&self) -> (r: bool)
        ensures
            r == (self.frame_count() > 0),
    {
        self.frames.len() > 0
    }

    /// Get the current checkpoint stack depth.
    pub fn stack_depth(&self) -> (r: usize)
        ensures
            r == self.frame_count(),
    {
        self.frames.len()
    }

    /// `self` and `other` agree on everything but the graph.
    pub closed spec fn same_control(&self, other: &Self) -> bool {
        &&& self.strat@ == other.strat@
        &&& self.seen@ == other.seen@
        &&& self.frames@ == other.frames@
        &&& self.commit_id == other.commit_id
        &&& self.max_iterations == other.max_iterations
        &&& self.interrupted == other.interrupted
        &&& self.overflowed == other.overflowed
        &&& self.limit_reached == other.limit_reached
    }

    /// `self` is `old` with the change of the multiplicity of `v` by `d` in input node `id`
    /// recorded in the top frame, if there is one and the node is not persistent.
    pub closed spec fn records(&self, old: &Self, id: usize, v: ValView, d: int) -> bool {
        &&& self.checkpoints == old.checkpoints
        &&& self.strat@ == old.strat@
        &&& self.seen@ == old.seen@
        &&& self.commit_id == old.commit_id
        &&& self.max_iterations == old.max_iterations
        &&& self.interrupted == old.interrupted
        &&& self.overflowed == old.overflowed
        &&& self.limit_reached == old.limit_reached
        &&& self.frames@.len() == old.frames@.len()
        &&& if old.frames@.len() > 0 && !old.graph.nodes()[id as int].is_persistent {
            &&& self.frames@.drop_last() == old.frames@.drop_last()
            &&& self.frames@.last().input_changes@.len() == old.frames@.last().input_changes@.len() + 1
            &&& self.frames@.last().input_changes@.drop_last() == old.frames@.last().input_changes@
            &&& self.frames@.last().input_changes@.last().0 == id
            &&& self.frames@.last().input_changes@.last().1.tuple@ == v
            &&& self.frames@.last().input_changes@.last().1.diff.0 == d
            &&& self.frames@.last().outputs == old.frames@.last().outputs
            &&& self.frames@.last().deltas == old.frames@.last().deltas
            &&& self.frames@.last().snapshot == old.frames@.last().snapshot
            &&& self.frames@.last().name == old.frames@.last().name
        } else {
            self.frames@ == old.frames@
        }
    }

    /// Create a new input relation.
    pub fn create_input<T: Tuple>(&mut self, name: &str) -> (r: Relation<T>)
        requires
            old(self).wf(),
        ensures
            final(self).wf(),
            final(self).same_control(&*old(self)),
            r.id.0 == old(self).nodes().len(),
            final(self).nodes().len() == old(self).nodes().len() + 1,
            final(self).nodes().subrange(0, r.id.0 as int) == old(self).nodes(),
            final(self).state(r.id.0 as int) == Map::<ValView, int>::empty(),
            final(self).nodes()[r.id.0 as int].kind is Input,
            !final(self).nodes()[r.id.0 as int].is_persistent,
            final(self).names() == old(self).names().insert(name@, r.id),
    {
        let id = self.graph.create_input(name);
        proof {
            self.lemma_refs_grow(old(self).graph.nodes());
            assert(self.graph.nodes().subrange(0, id.0 as int) == old(self).graph.nodes());
            assert forall|k: int| 0 <= k < old(self).graph.nodes().len() implies (#[trigger] self.graph.nodes()[k]) == old(self).graph.nodes()[k] by {
                assert(self.graph.nodes().subrange(0, id.0 as int)[k] == self.graph.nodes()[k]);
            }
            self.lemma_frames_grow(old(self));
        }
        Relation::new(id)
    }

    /// Create a new persistent input relation: its changes are not recorded, and survive
    /// `pop`.
    pub fn create_persistent_input<T: Tuple>(&mut self, name: &str) -> (r: Relation<T>)
        requires
            old(self).wf(),
        ensures
            final(self).wf(),
            final(self).same_control(&*old(self)),
            r.id.0 == old(self).nodes().len(),
            final(self).nodes().len() == old(self).nodes().len() + 1,
            final(self).nodes().subrange(0, r.id.0 as int) == old(self).nodes(),
            final(self).state(r.id.0 as int) == Map::<ValView, int>::empty(),
            final(self).nodes()[r.id.0 as int].kind is Input,
            final(self).nodes()[r.id.0 as int].is_persistent,
            final(self).names() == old(self).names().insert(name@, r.id),
    {
        let id = self.graph.create_persistent_input(name);
        proof {
            self.lemma_refs_grow(old(self).graph.nodes());
            assert(self.graph.nodes().subrange(0, id.0 as int) == old(self).graph.nodes());
            assert forall|k: int| 0 <= k < old(self).graph.nodes().len() implies (#[trigger] self.graph.nodes()[k]) == old(self).graph.nodes()[k] by {
                assert(self.graph.nodes().subrange(0, id.0 as int)[k] == self.graph.nodes()[k]);
            }
            self.lemma_frames_grow(old(self));
        }
        Relation::new(id)
    }

    /// The references of the steps and frames stay valid when nodes are only added or their
    /// states changed.
    proof fn lemma_refs_grow(&self, before: Seq<Node>)
        requires
            before.len() <= self.graph.nodes().len(),
            forall|i: int| 0 <= i < before.len() ==> (#[trigger] self.graph.nodes()[i]).kind == before[i].kind,
            forall|k: int| 0 <= k < self.strat@.len() ==> op_refs_valid(#[trigger] self.strat@[k], before),
            forall|f: int| 0 <= f < self.frames@.len() ==> frame_refs_valid(#[trigger] self.frames@[f], before.len(), self.strat@.len()),
        ensures
            forall|k: int| 0 <= k < self.strat@.len() ==> op_refs_valid(#[trigger] self.strat@[k], self.graph.nodes()),
            forall|f: int| 0 <= f < self.frames@.len() ==> frame_refs_valid(#[trigger] self.frames@[f], self.graph.nodes().len(), self.strat@.len()),
    {
        assert forall|k: int| 0 <= k < self.strat@.len() implies op_refs_valid(#[trigger] self.strat@[k], self.graph.nodes()) by {
            assert(op_refs_valid(self.strat@[k], before));
            match self.strat@[k] {
                StratifiedOp::Feedback { var, .. } => {
                    assert(self.graph.nodes()[var as int].kind == before[var as int].kind);
                },
                _ => {},
            }
        }
        assert forall|f: int| 0 <= f < self.frames@.len() implies frame_refs_valid(#[trigger] self.frames@[f], self.graph.nodes().len(), self.strat@.len()) by {
            assert(frame_refs_valid(self.frames@[f], before.len(), self.strat@.len()));
        }
    }

    /// The frames keep agreeing after `old` became `self` by adding nodes (undoable ones
    /// empty) or changing states other than those of undoable inputs, with the frames'
    /// recorded inputs unchanged.
    pub(crate) proof fn lemma_frames_grow(&self, old: &Self)
        requires
            frames_agree(old.frames@, old.graph.nodes()),
            forall|f: int| 0 <= f < old.frames@.len() ==> frame_refs_valid(#[trigger] old.frames@[f], old.graph.nodes().len(), old.strat@.len()),
            same_frame_inputs(old.frames@, self.frames@),
            old.graph.nodes().len() <= self.graph.nodes().len(),
            forall|k: int| 0 <= k < old.graph.nodes().len() ==> (#[trigger] self.graph.nodes()[k]).kind == old.graph.nodes()[k].kind
                && self.graph.nodes()[k].is_persistent == old.graph.nodes()[k].is_persistent,
            forall|k: int| 0 <= k < old.graph.nodes().len() && undoable(old.graph.nodes(), k) ==> (#[trigger] self.graph.nodes()[k]).state@ == old.graph.nodes()[k].state@,
            forall|k: int| old.graph.nodes().len() <= k < self.graph.nodes().len() && undoable(self.graph.nodes(), k) ==> (#[trigger] self.graph.nodes()[k]).state@ == Map::<ValView, int>::empty(),
        ensures
            frames_agree(self.frames@, self.graph.nodes()),
    {
        assert forall|f: int, j: int| 0 <= f < old.frames@.len() && 0 <= j < old.frames@[f].input_changes@.len() implies (#[trigger] old.frames@[f].input_changes@[j]).0 < old.graph.nodes().len() by {
            assert(frame_refs_valid(old.frames@[f], old.graph.nodes().len(), old.strat@.len()));
        }
        lemma_frames_kept(old.frames@, old.graph.nodes(), self.frames@, self.graph.nodes());
    }

    /// As `lemma_refs_grow`, for a graph whose first nodes are those of `before`.
    pub(crate) proof fn lemma_refs_grow_after(&self, before: Seq<Node>)
        requires
            before.len() <= self.graph.nodes().len(),
            forall|i: int| 0 <= i < before.len() ==> (#[trigger] self.graph.nodes()[i]).kind == before[i].kind,
            forall|k: int| 0 <= k < self.strat@.len() ==> op_refs_valid(#[trigger] self.strat@[k], before),
            forall|f: int| 0 <= f < self.frames@.len() ==> frame_refs_valid(#[trigger] self.frames@[f], before.len(), self.strat@.len()),
        ensures
            forall|k: int| 0 <= k < self.strat@.len() ==> op_refs_valid(#[trigger] self.strat@[k], self.graph.nodes()),
            forall|f: int| 0 <= f < self.frames@.len() ==> frame_refs_valid(#[trigger] self.frames@[f], self.graph.nodes().len(), self.strat@.len()),
    {
        self.lemma_refs_grow(before);
    }

    /// Record a change to input node `id` in the top frame, if there is one and the node is
    /// not persistent.
    fn record(&mut self, id: NodeId, c: Change<Val>)
        requires
            old(self).wf(),
            id.0 < old(self).nodes().len(),
        ensures
            final(self).graph == old(self).graph,
            forall|f: int| 0 <= f < final(self).frames@.len() ==> frame_refs_valid(#[trigger] final(self).frames@[f], final(self).graph.nodes().len(), final(self).strat@.len()),
            final(self).records(&*old(self), id.0, c.tuple@, c.diff.0 as int),
    {
        if self.frames.len() > 0 && !self.graph.get(id).is_persistent() {
            let mut top = self.frames.pop().unwrap();
            let ghost top0 = top;
            let ghost rest = self.frames@;
            assert(rest == old(self).frames@.drop_last());
            assert(top0 == old(self).frames@.last());
            top.input_changes.push((id.0, c));
            assert(top.input_changes@.drop_last() =~= top0.input_changes@);
            self.frames.push(top);
            proof {
                assert(self.frames@.drop_last() == rest);
                assert(self.frames@.last() == top);
                assert forall|f: int| 0 <= f < self.frames@.len() implies frame_refs_valid(#[trigger] self.frames@[f], self.graph.nodes().len(), self.strat@.len()) by {
                    if f < rest.len() {
                        assert(self.frames@[f] == old(self).frames@[f]);
                    } else {
                        assert(frame_refs_valid(old(self).frames@[f], self.graph.nodes().len(), self.strat@.len()));
                        let t = self.frames@[f];
                        assert forall|j: int| 0 <= j < t.input_changes@.len() implies (#[trigger] t.input_changes@[j]).0 < self.graph.nodes().len() by {
                            if j < t.input_changes@.len() - 1 {
                                assert(t.input_changes@[j] == old(self).frames@[f].input_changes@[j]);
                            }
                        }
                    }
                }
            }
        }
    }

    /// Insert a tuple into a relation.
    pub fn insert<T: Tuple>(&mut self, rel: Relation<T>, tuple: T)
        requires
            old(self).wf(),
            rel.id.0 < old(self).nodes().len(),
            count_of(old(self).state(rel.id.0 as int), T::encode(tuple@)) < i64::MAX,
        ensures
            final(self).wf(),
            final(self).nodes().len() == old(self).nodes().len(),
            forall|i: int| 0 <= i < old(self).nodes().len() && i != rel.id.0 ==> final(self).nodes()[i] == old(self).nodes()[i],
            final(self).state(rel.id.0 as int) == crate::collection::change_at(old(self).state(rel.id.0 as int), T::encode(tuple@), 1),
            final(self).records(&*old(self), rel.id.0, T::encode(tuple@), 1),
            final(self).frame_count() > 0 ==> forall|n: int| #[trigger] final(self).pushed_state(n) == old(self).pushed_state(n),
            final(self).names() == old(self).names(),
            final(self).nodes()[rel.id.0 as int].kind == old(self).nodes()[rel.id.0 as int].kind,
    {
        self.change_input(rel.id, tuple.to_val(), Diff(1));
    }

    /// Delete a tuple from a relation.
    pub fn delete<T: Tuple>(&mut self, rel: Relation<T>, tuple: T)
        requires
            old(self).wf(),
            rel.id.0 < old(self).nodes().len(),
            count_of(old(self).state(rel.id.0 as int), T::encode(tuple@)) > i64::MIN,
        ensures
            final(self).wf(),
            final(self).nodes().len() == old(self).nodes().len(),
            forall|i: int| 0 <= i < old(self).nodes().len() && i != rel.id.0 ==> final(self).nodes()[i] == old(self).nodes()[i],
            final(self).state(rel.id.0 as int) == crate::collection::change_at(old(self).state(rel.id.0 as int), T::encode(tuple@), -1),
            final(self).records(&*old(self), rel.id.0, T::encode(tuple@), -1),
            final(self).frame_count() > 0 ==> forall|n: int| #[trigger] final(self).pushed_state(n) == old(self).pushed_state(n),
            final(self).names() == old(self).names(),
            final(self).nodes()[rel.id.0 as int].kind == old(self).nodes()[rel.id.0 as int].kind,
    {
        self.change_input(rel.id, tuple.to_val(), Diff(-1));
    }

    fn change_input(&mut self, id: NodeId, v: Val, d: Diff)
        requires
            old(self).wf(),
            id.0 < old(self).nodes().len(),
            d.0 == 1 ==> count_of(old(self).state(id.0 as int), v@) < i64::MAX,
            d.0 == -1 ==> count_of(old(self).state(id.0 as int), v@) > i64::MIN,
            d.0 == 1 || d.0 == -1,
        ensures
            final(self).wf(),
            final(self).nodes().len() == old(self).nodes().len(),
            forall|i: int| 0 <= i < old(self).nodes().len() && i != id.0 ==> final(self).nodes()[i] == old(self).nodes()[i],
            final(self).state(id.0 as int) == crate::collection::change_at(old(self).state(id.0 as int), v@, d.0 as int),
            final(self).records(&*old(self), id.0, v@, d.0 as int),
            final(self).names() == old(self).names(),
            final(self).nodes()[id.0 as int].kind == old(self).nodes()[id.0 as int].kind,
    {
        let ghost start = *self;
        let cur = self.graph.get(id).state.get(&v);
        assert(cur.0 == count_of(start.state(id.0 as int), v@));
        let rc = Change::new(crate::tuple::val_clone(&v), d);
        self.record(id, rc);
        let ghost mid = *self;
        self.graph.apply_change_at(id, Change::new(v, d));
        self.graph.mark_dirty(id);
        proof {
            self.lemma_defs();
            start.lemma_defs();
            mid.lemma_defs();
            self.lemma_refs_grow(mid.graph.nodes());
            assert(self.records(&start, id.0, v@, d.0 as int));
            let n1 = start.graph.nodes();
            let n2 = self.graph.nodes();
            if start.frames@.len() == 0 {
                assert(frames_agree(self.frames@, n2));
            } else if n1[id.0 as int].is_persistent {
                assert(self.frames@ == start.frames@);
                lemma_frames_kept(start.frames@, n1, self.frames@, n2);
            } else {
                assert forall|f: int| 0 <= f < start.frames@.len() - 1 implies (#[trigger] self.frames@[f]) == start.frames@[f] by {
                    assert(self.frames@.drop_last()[f] == start.frames@.drop_last()[f]);
                }
                lemma_frames_record(start.frames@, n1, self.frames@, n2, id.0 as int, v@, d.0 as int);
            }
        }
    }

    /// Get the multiplicity of a specific tuple in a relation.
    pub fn multiplicity<T: Tuple>(&self, rel: Relation<T>, tuple: &T) -> (r: Diff)
        requires
            rel.id.0 < self.nodes().len(),
        ensures
            r.0 == count_of(self.state(rel.id.0 as int), T::encode(tuple@)),
    {
        let v = tuple.to_val();
        self.graph.get(rel.id).state.get(&v)
    }

    /// Get a relation by name.
    pub fn get<T: Tuple>(&self, name: &str) -> (r: Option<Relation<T>>)
        ensures
            match r {
                Some(rel) => self.names().contains_key(name@) && self.names()[name@] == rel.id,
                None => !self.names().contains_key(name@),
            },
    {
        match self.graph.get_id(name) {
            Some(id) => Some(Relation::new(id)),
            None => None,
        }
    }

    /// The tuples of type `T` stored in relation `rel`, with their multiplicities, each once.
    pub fn iter_with_multiplicity<T: Tuple>(&self, rel: Relation<T>) -> (r: Vec<(T, Diff)>)
        requires
            rel.id.0 < self.nodes().len(),
        ensures
            forall|i: int| 0 <= i < r@.len() ==> self.state(rel.id.0 as int).contains_key(T::encode((#[trigger] r@[i]).0@))
                && self.state(rel.id.0 as int)[T::encode(r@[i].0@)] == r@[i].1.0,
            forall|x: T::V| #[trigger] self.state(rel.id.0 as int).contains_key(T::encode(x)) ==> exists|i: int| 0 <= i < r@.len() && r@[i].0@ == x,
            forall|i: int, j: int| 0 <= i < r@.len() && 0 <= j < r@.len() && i != j ==> r@[i].0@ != r@[j].0@,
    {
        let st = &self.graph.get(rel.id).state;
        let items = st.iter_with_multiplicity();
        let ghost e = st.entries();
        proof {
            crate::collection::lemma_seq_to_map_facts(e);
        }
        let mut r: Vec<(T, Diff)> = Vec::new();
        let mut i: usize = 0;
        while i < items.len()
            invariant
                i <= items@.len(),
                e == st.entries(),
                items@.len() == e.len(),
                crate::collection::keys_distinct(e),
                st@ == crate::collection::seq_to_map(e),
                forall|j: int| 0 <= j < items@.len() ==> (#[trigger] items@[j]).0@ == e[j].0 && items@[j].1.0 == e[j].1,
                forall|j: int| 0 <= j < e.len() ==> #[trigger] st@.contains_key(e[j].0) && st@[e[j].0] == e[j].1,
                forall|a: int| 0 <= a < r@.len() ==> exists|b: int| 0 <= b < i && e[b].0 == T::encode((#[trigger] r@[a]).0@) && e[b].1 == r@[a].1.0,
                forall|b: int| 0 <= b < i && decodes::<T>(e[b].0) ==> exists|a: int| 0 <= a < r@.len() && T::encode(r@[a].0@) == #[trigger] e[b].0,
                forall|a: int, c: int| 0 <= a < r@.len() && 0 <= c < r@.len() && a != c ==> r@[a].0@ != r@[c].0@,
            decreases items@.len() - i,
        {
            let x = T::from_val(items[i].0);
            match x {
                Some(t) => {
                    let ghost before = r@;
                    proof {
                        assert forall|a: int| 0 <= a < before.len() implies before[a].0@ != t@ by {
                            let b = choose|b: int| 0 <= b < i && e[b].0 == T::encode((before[a]).0@) && e[b].1 == before[a].1.0;
                            assert(e[b].0 != e[i as int].0);
                        }
                    }
                    r.push((t, items[i].1));
                    proof {
                        assert forall|a: int| 0 <= a < r@.len() implies exists|b: int| 0 <= b < i + 1 && e[b].0 == T::encode((#[trigger] r@[a]).0@) && e[b].1 == r@[a].1.0 by {
                            if a < before.len() {
                                assert(r@[a] == before[a]);
                                let b = choose|b: int| 0 <= b < i && e[b].0 == T::encode((before[a]).0@) && e[b].1 == before[a].1.0;
                            } else {
                                assert(e[i as int].0 == T::encode(r@[a].0@));
                            }
                        }
                        assert forall|b: int| 0 <= b < i + 1 && decodes::<T>(e[b].0) implies exists|a: int| 0 <= a < r@.len() && T::encode(r@[a].0@) == #[trigger] e[b].0 by {
                            if b < i {
                                let a = choose|a: int| 0 <= a < before.len() && T::encode(before[a].0@) == e[b].0;
                                assert(r@[a] == before[a]);
                            } else {
                                assert(T::encode(r@[r@.len() - 1].0@) == e[b].0);
                            }
                        }
                    }
                },
                None => {},
            }
            i = i + 1;
        }
        proof {
            assert forall|a: int| 0 <= a < r@.len() implies st@.contains_key(T::encode((#[trigger] r@[a]).0@)) && st@[T::encode(r@[a].0@)] == r@[a].1.0 by {
                let b = choose|b: int| 0 <= b < i && e[b].0 == T::encode((r@[a]).0@) && e[b].1 == r@[a].1.0;
            }
            assert forall|x: T::V| #[trigger] st@.contains_key(T::encode(x)) implies exists|a: int| 0 <= a < r@.len() && r@[a].0@ == x by {
                let b = choose|b: int| 0 <= b < e.len() && e[b].0 == T::encode(x);
                assert(decodes::<T>(e[b].0));
                let a = choose|a: int| 0 <= a < r@.len() && T::encode(r@[a].0@) == e[b].0;
                T::lemma_encode_injective(r@[a].0@, x);
            }
        }
        r
    }

    /// Iterate over the tuples of a relation with positive multiplicity: the same tuples as
    /// `collect`.
    pub fn iter<T: Tuple>(&self, rel: Relation<T>) -> (r: Vec<T>)
        requires
            rel.id.0 < self.nodes().len(),
        ensures
            forall|i: int| 0 <= i < r@.len() ==> count_of(self.state(rel.id.0 as int), T::encode((#[trigger] r@[i])@)) > 0,
            forall|x: T::V| count_of(self.state(rel.id.0 as int), #[trigger] T::encode(x)) > 0 ==> exists|i: int| 0 <= i < r@.len() && r@[i]@ == x,
            forall|i: int, j: int| 0 <= i < r@.len() && 0 <= j < r@.len() && i != j ==> r@[i]@ != r@[j]@,
    {
        self.collect(rel)
    }

    /// The tuples of type `T` with positive multiplicity in relation `rel`, each once.
    pub fn collect<T: Tuple>(&self, rel: Relation<T>) -> (r: Vec<T>)
        requires
            rel.id.0 < self.nodes().len(),
        ensures
            forall|i: int| 0 <= i < r@.len() ==> count_of(self.state(rel.id.0 as int), T::encode((#[trigger] r@[i])@)) > 0,
            forall|x: T::V| count_of(self.state(rel.id.0 as int), #[trigger] T::encode(x)) > 0 ==> exists|i: int| 0 <= i < r@.len() && r@[i]@ == x,
            forall|i: int, j: int| 0 <= i < r@.len() && 0 <= j < r@.len() && i != j ==> r@[i]@ != r@[j]@,
    {
        let st = &self.graph.get(rel.id).state;
        let items = st.iter();
        let mut r: Vec<T> = Vec::new();
        let mut i: usize = 0;
        while i < items.len()
            invariant
                i <= items@.len(),
                forall|a: int| 0 <= a < items@.len() ==> count_of(st@, (#[trigger] items@[a])@) > 0,
                forall|k: ValView| #[trigger] count_of(st@, k) > 0 ==> exists|a: int| 0 <= a < items@.len() && items@[a]@ == k,
                forall|a: int, b: int| 0 <= a < items@.len() && 0 <= b < items@.len() && a != b ==> items@[a]@ != items@[b]@,
                forall|a: int| 0 <= a < r@.len() ==> exists|b: int| 0 <= b < i && items@[b]@ == T::encode((#[trigger] r@[a])@),
                forall|b: int| 0 <= b < i && decodes::<T>(items@[b]@) ==> exists|a: int| 0 <= a < r@.len() && T::encode(r@[a]@) == #[trigger] items@[b]@,
                forall|a: int, c: int| 0 <= a < r@.len() && 0 <= c < r@.len() && a != c ==> r@[a]@ != r@[c]@,
            decreases items@.len() - i,
        {
            let x = T::from_val(items[i]);
            match x {
                Some(t) => {
                    let ghost before = r@;
                    proof {
                        assert forall|a: int| 0 <= a < before.len() implies before[a]@ != t@ by {
                            let b = choose|b: int| 0 <= b < i && items@[b]@ == T::encode(before[a]@);
                            assert(items@[b]@ != items@[i as int]@);
                        }
                    }
                    r.push(t);
                    proof {
                        assert forall|a: int| 0 <= a < r@.len() implies exists|b: int| 0 <= b < i + 1 && items@[b]@ == T::encode((#[trigger] r@[a])@) by {
                            if a < before.len() {
                                assert(r@[a] == before[a]);
                                let b = choose|b: int| 0 <= b < i && items@[b]@ == T::encode(before[a]@);
                            } else {
                                assert(items@[i as int]@ == T::encode(r@[a]@));
                            }
                        }
                        assert forall|b: int| 0 <= b < i + 1 && decodes::<T>(items@[b]@) implies exists|a: int| 0 <= a < r@.len() && T::encode(r@[a]@) == #[trigger] items@[b]@ by {
                            if b < i {
                                let a = choose|a: int| 0 <= a < before.len() && T::encode(before[a]@) == items@[b]@;
                                assert(r@[a] == before[a]);
                            } else {
                                assert(T::encode(r@[r@.len() - 1]@) == items@[b]@);
                            }
                        }
                    }
                },
                None => {},
            }
            i = i + 1;
        }
        proof {
            assert forall|i: int| 0 <= i < r@.len() implies count_of(st@, T::encode((#[trigger] r@[i])@)) > 0 by {
                let b = choose|b: int| 0 <= b < items@.len() && items@[b]@ == T::encode(r@[i]@);
            }
            assert forall|x: T::V| count_of(st@, #[trigger] T::encode(x)) > 0 implies exists|i: int| 0 <= i < r@.len() && r@[i]@ == x by {
                let b = choose|b: int| 0 <= b < items@.len() && items@[b]@ == T::encode(x);
                assert(decodes::<T>(items@[b]@));
                let a = choose|a: int| 0 <= a < r@.len() && T::encode(r@[a]@) == items@[b]@;
                T::lemma_encode_injective(r@[a]@, x);
            }
        }
        r
    }
}

/// The nodes that node `i` reads come before it.
pub proof fn lemma_inputs_below(nodes: Seq<Node>, i: int)
    requires
        node_wf(nodes, i),
    ensures
        forall|j: int| 0 <= j < op_inputs(&nodes[i].op).len() ==> op_inputs(&nodes[i].op)[j] < i,
{
    let n = nodes[i];
    if !(n.op is Source) {
        assert forall|j: int| 0 <= j < op_inputs(&n.op).len() implies op_inputs(&n.op)[j] < i by {
            assert(n.inputs@[j].0 == op_inputs(&n.op)[j]);
        }
    }
}

/// Recompute every derived node, in order of creation, from the nodes it reads.
/// Returns false where some node's arithmetic did not fit in `i64`; that node is left empty.
pub fn recompute_graph(graph: &mut DataflowGraph) -> (ok: bool)
    requires
        old(graph).wf(),
    ensures
        final(graph).wf(),
        same_but_derived_states(old(graph).nodes(), final(graph).nodes()),
        ok ==> all_consistent(final(graph).nodes()),
        forall|j: int| 0 <= j < final(graph).nodes().len() ==> #[trigger] computed_at(final(graph).nodes(), j),
        ok == forall|j: int| 0 <= j < final(graph).nodes().len() ==> #[trigger] fits_at(final(graph).nodes(), j),
        final(graph).names() == old(graph).names(),
        final(graph).dirty() == old(graph).dirty(),
        final(graph).spec_commit_id() == old(graph).spec_commit_id(),
{
    let ghost start = graph.nodes();
    let n = graph.len();
    let mut ok = true;
    let mut i: usize = 0;
    while i < n
        invariant
            n == graph.nodes().len(),
            i <= n,
            graph.wf(),
            same_but_derived_states(start, graph.nodes()),
            ok ==> forall|j: int| 0 <= j < i ==> #[trigger] consistent_at(graph.nodes(), j),
            forall|j: int| 0 <= j < i ==> #[trigger] computed_at(graph.nodes(), j),
            ok == forall|j: int| 0 <= j < i ==> #[trigger] fits_at(graph.nodes(), j),
            graph.names() == old(graph).names(),
            graph.dirty() == old(graph).dirty(),
            graph.spec_commit_id() == old(graph).spec_commit_id(),
        decreases n - i,
    {
        let derived = match &graph.get(NodeId(i)).op {
            NodeOp::Source => false,
            _ => true,
        };
        proof {
            assert(node_wf(graph.nodes(), i as int));
        }
        if derived {
            let ghost before = graph.nodes();
            let r = compute_op(graph, i);
            let ghost fits = r is Some;
            let ghost ok0 = ok;
            let c = match r {
                Some(c) => c,
                None => {
                    ok = false;
                    Collection::new()
                },
            };
            graph.set_state(NodeId(i), c);
            proof {
                let after = graph.nodes();
                assert forall|k: int| 0 <= k < i implies before[k] == after[k] by {}
                assert(node_wf(before, i as int));
                lemma_inputs_below(before, i as int);
                lemma_op_output_frame(before[i as int].op, before, after, i as int);
                assert forall|j: int| #![trigger computed_at(after, j)] #![trigger fits_at(after, j)] #![trigger fits_at(before, j)]
                    0 <= j < i implies computed_at(after, j) && (fits_at(after, j) == fits_at(before, j)) by {
                    assert(computed_at(before, j));
                    assert(node_wf(before, j));
                    lemma_inputs_below(before, j);
                    lemma_op_output_frame(before[j].op, before, after, j);
                    assert(after[j] == before[j]);
                }
                assert(computed_at(after, i as int));
                assert(fits_at(after, i as int) == fits);
                assert(ok == (ok0 && fits));
                assert(ok0 == forall|j: int| 0 <= j < i ==> #[trigger] fits_at(before, j));
                if ok0 && fits {
                    assert forall|j: int| 0 <= j < i + 1 implies #[trigger] fits_at(after, j) by {
                        if j < i {
                            assert(fits_at(before, j));
                        }
                    }
                }
                if forall|j: int| 0 <= j < i + 1 ==> #[trigger] fits_at(after, j) {
                    assert forall|j: int| 0 <= j < i implies #[trigger] fits_at(before, j) by {
                        assert(fits_at(after, j));
                    }
                    assert(fits_at(after, i as int));
                }
                if ok {
                    assert forall|j: int| 0 <= j < i + 1 implies #[trigger] consistent_at(after, j) by {
                        if j < i {
                            assert(consistent_at(before, j));
                            assert(node_wf(before, j));
                            lemma_inputs_below(before, j);
                            lemma_op_output_frame(before[j].op, before, after, j);
                            assert(after[j] == before[j]);
                        }
                    }
                }
            }
        } else {
            proof {
                assert(node_wf(graph.nodes(), i as int));
                if ok {
                    assert(consistent_at(graph.nodes(), i as int));
                }
                assert(computed_at(graph.nodes(), i as int));
                assert(fits_at(graph.nodes(), i as int));
                if ok {
                    assert forall|j: int| 0 <= j < i + 1 implies #[trigger] fits_at(graph.nodes(), j) by {}
                }
            }
        }
        i = i + 1;
    }
    ok
}

/// The changes of `cs` to node `n`, each as its tuple and its diff, in order.
pub open spec fn node_changes(cs: Seq<(usize, Change<Val>)>, n: int) -> Seq<(ValView, int)>
    decreases cs.len(),
{
    if cs.len() == 0 {
        Seq::empty()
    } else {
        node_changes(cs.drop_last(), n) + if cs.last().0 == n {
            seq![(cs.last().1.tuple@, cs.last().1.diff.0 as int)]
        } else {
            Seq::empty()
        }
    }
}

/// The state of node `n` in snapshot `s`; empty for a node created after it.
pub open spec fn snap_at(s: Seq<Map<ValView, int>>, n: int) -> Map<ValView, int> {
    if 0 <= n < s.len() {
        s[n]
    } else {
        Map::empty()
    }
}

/// Node `n` is an input whose changes the frames record (one that is not persistent).
pub open spec fn undoable(nodes: Seq<Node>, n: int) -> bool {
    nodes[n].kind is Input && !nodes[n].is_persistent
}

/// The state of node `n` when the frame after `f` was pushed, or now if `f` is the top frame.
pub open spec fn after_frame(frames: Seq<Frame>, nodes: Seq<Node>, f: int, n: int) -> Map<ValView, int> {
    if f + 1 < frames.len() {
        snap_at(frames[f + 1].snapshot@, n)
    } else {
        nodes[n].state@
    }
}

/// Frame `f`'s changes to node `n`, applied to its state at the push without leaving `i64`,
/// give (up to zero entries) its state at the next push, or now.
pub open spec fn frame_agrees(frames: Seq<Frame>, nodes: Seq<Node>, f: int, n: int) -> bool {
    let start = snap_at(frames[f].snapshot@, n);
    let cs = node_changes(frames[f].input_changes@, n);
    &&& applies_in_range(start, cs)
    &&& nonzero(after_frame(frames, nodes, f, n)) == nonzero(apply_all(start, cs))
}

/// Node `id` exists and is not persistent: a frame may record changes to it.
pub open spec fn recordable(nodes: Seq<Node>, id: int) -> bool {
    0 <= id < nodes.len() && !nodes[id].is_persistent
}

/// The frames account for every change to the undoable inputs since the first push, and
/// record no change to a persistent node.
pub open spec fn frames_agree(frames: Seq<Frame>, nodes: Seq<Node>) -> bool {
    &&& forall|f: int| 0 <= f < frames.len() ==> (#[trigger] frames[f]).snapshot@.len() <= nodes.len()
    &&& forall|f: int, j: int| 0 <= f < frames.len() && 0 <= j < frames[f].input_changes@.len() ==>
        recordable(nodes, (#[trigger] frames[f].input_changes@[j]).0 as int)
    &&& forall|f: int, j: int| 0 <= f < frames.len() && 0 <= j < frames[f].input_changes@.len() ==>
        (#[trigger] frames[f].input_changes@[j]).1.diff.0 == 1 || frames[f].input_changes@[j].1.diff.0 == -1
    &&& forall|f: int, n: int| 0 <= f < frames.len() && 0 <= n < nodes.len() && undoable(nodes, n) ==> #[trigger] frame_agrees(frames, nodes, f, n)
    &&& forall|f: int, n: int, v: ValView| 0 <= f < frames.len() ==> i64::MIN <= #[trigger] count_of(snap_at(frames[f].snapshot@, n), v) <= i64::MAX
}

/// The frames have the same snapshots and recorded input changes.
pub open spec fn same_frame_inputs(a: Seq<Frame>, b: Seq<Frame>) -> bool {
    &&& a.len() == b.len()
    &&& forall|f: int| 0 <= f < a.len() ==> (#[trigger] b[f]).input_changes@ == a[f].input_changes@ && b[f].snapshot@ == a[f].snapshot@
}

pub proof fn lemma_node_changes_none(cs: Seq<(usize, Change<Val>)>, n: int)
    requires
        forall|j: int| 0 <= j < cs.len() ==> (#[trigger] cs[j]).0 != n,
    ensures
        node_changes(cs, n) == Seq::<(ValView, int)>::empty(),
    decreases cs.len(),
{
    if cs.len() > 0 {
        lemma_node_changes_none(cs.drop_last(), n);
        assert(node_changes(cs, n) =~= Seq::<(ValView, int)>::empty());
    }
}

/// The frames keep agreeing when their recorded inputs stay, nodes are only added (undoable
/// ones empty), and the states of the undoable inputs stay.
pub proof fn lemma_frames_kept(fr1: Seq<Frame>, n1: Seq<Node>, fr2: Seq<Frame>, n2: Seq<Node>)
    requires
        frames_agree(fr1, n1),
        same_frame_inputs(fr1, fr2),
        n1.len() <= n2.len(),
        forall|f: int, j: int| 0 <= f < fr1.len() && 0 <= j < fr1[f].input_changes@.len() ==> (#[trigger] fr1[f].input_changes@[j]).0 < n1.len(),
        forall|k: int| 0 <= k < n1.len() ==> (#[trigger] n2[k]).kind == n1[k].kind && n2[k].is_persistent == n1[k].is_persistent,
        forall|k: int| 0 <= k < n1.len() && undoable(n1, k) ==> (#[trigger] n2[k]).state@ == n1[k].state@,
        forall|k: int| n1.len() <= k < n2.len() && undoable(n2, k) ==> (#[trigger] n2[k]).state@ == Map::<ValView, int>::empty(),
    ensures
        frames_agree(fr2, n2),
{
    assert forall|f: int| 0 <= f < fr2.len() implies (#[trigger] fr2[f]).snapshot@.len() <= n2.len() by {
        assert(fr1[f].snapshot@.len() <= n1.len());
    }
    assert forall|f: int, j: int| 0 <= f < fr2.len() && 0 <= j < fr2[f].input_changes@.len() implies
        (#[trigger] fr2[f].input_changes@[j]).1.diff.0 == 1 || fr2[f].input_changes@[j].1.diff.0 == -1 by {
        assert(fr2[f].input_changes@[j] == fr1[f].input_changes@[j]);
    }
    assert forall|f: int, j: int| 0 <= f < fr2.len() && 0 <= j < fr2[f].input_changes@.len() implies
        recordable(n2, (#[trigger] fr2[f].input_changes@[j]).0 as int) by {
        assert(fr2[f].input_changes@[j] == fr1[f].input_changes@[j]);
        assert(recordable(n1, fr1[f].input_changes@[j].0 as int));
    }
    assert forall|f: int, n: int, v: ValView| 0 <= f < fr2.len() implies i64::MIN <= #[trigger] count_of(snap_at(fr2[f].snapshot@, n), v) <= i64::MAX by {
        assert(fr2[f].snapshot@ == fr1[f].snapshot@);
        assert(i64::MIN <= count_of(snap_at(fr1[f].snapshot@, n), v) <= i64::MAX);
    }
    assert forall|f: int, n: int| 0 <= f < fr2.len() && 0 <= n < n2.len() && undoable(n2, n) implies #[trigger] frame_agrees(fr2, n2, f, n) by {
        assert(fr2[f] .input_changes@ == fr1[f].input_changes@);
        if n < n1.len() {
            assert(n2[n].kind == n1[n].kind);
            assert(frame_agrees(fr1, n1, f, n));
            if f + 1 < fr2.len() {
                assert(fr2[f + 1].snapshot@ == fr1[f + 1].snapshot@);
            }
        } else {
            assert(fr1[f].snapshot@.len() <= n1.len());
            assert forall|j: int| 0 <= j < fr2[f].input_changes@.len() implies (#[trigger] fr2[f].input_changes@[j]).0 != n by {
                assert(fr2[f].input_changes@[j] == fr1[f].input_changes@[j]);
            }
            lemma_node_changes_none(fr2[f].input_changes@, n);
            if f + 1 < fr2.len() {
                assert(fr1[f + 1].snapshot@.len() <= n1.len());
                assert(fr2[f + 1].snapshot@ == fr1[f + 1].snapshot@);
            }
            assert(nonzero(Map::<ValView, int>::empty()) =~= Map::<ValView, int>::empty());
        }
    }
}

/// The frames keep agreeing when a change of the multiplicity of `v` by `d` in node `id` is
/// recorded in the top frame and applied to the node's state.
pub proof fn lemma_frames_record(fr1: Seq<Frame>, n1: Seq<Node>, fr2: Seq<Frame>, n2: Seq<Node>, id: int, v: ValView, d: int)
    requires
        frames_agree(fr1, n1),
        fr1.len() > 0,
        fr2.len() == fr1.len(),
        forall|f: int| 0 <= f < fr1.len() - 1 ==> (#[trigger] fr2[f]).input_changes@ == fr1[f].input_changes@ && fr2[f].snapshot@ == fr1[f].snapshot@,
        fr2.last().snapshot@ == fr1.last().snapshot@,
        fr2.last().input_changes@.len() == fr1.last().input_changes@.len() + 1,
        fr2.last().input_changes@.drop_last() == fr1.last().input_changes@,
        fr2.last().input_changes@.last().0 == id,
        fr2.last().input_changes@.last().1.tuple@ == v,
        fr2.last().input_changes@.last().1.diff.0 == d,
        d == 1 || d == -1,
        0 <= id < n1.len(),
        n2.len() == n1.len(),
        forall|k: int| 0 <= k < n1.len() ==> (#[trigger] n2[k]).kind == n1[k].kind && n2[k].is_persistent == n1[k].is_persistent,
        forall|k: int| 0 <= k < n1.len() && k != id ==> (#[trigger] n2[k]).state@ == n1[k].state@,
        n2[id].state@ == crate::collection::change_at(n1[id].state@, v, d),
        undoable(n1, id) ==> i64::MIN <= count_of(n1[id].state@, v) + d <= i64::MAX,
        !n1[id].is_persistent,
    ensures
        frames_agree(fr2, n2),
{
    let top = fr1.len() - 1;
    assert forall|f: int, j: int| 0 <= f < fr2.len() && 0 <= j < fr2[f].input_changes@.len() implies
        recordable(n2, (#[trigger] fr2[f].input_changes@[j]).0 as int) by {
        if f < top {
            assert(fr2[f].input_changes@ == fr1[f].input_changes@);
            assert(recordable(n1, fr1[f].input_changes@[j].0 as int));
        } else if j < fr1[f].input_changes@.len() {
            assert(fr2[f].input_changes@[j] == fr2[f].input_changes@.drop_last()[j]);
            assert(recordable(n1, fr1[f].input_changes@[j].0 as int));
        }
    }
    assert forall|f: int| 0 <= f < fr2.len() implies (#[trigger] fr2[f]).snapshot@.len() <= n2.len() by {
        assert(fr1[f].snapshot@.len() <= n1.len());
    }
    assert forall|f: int, j: int| 0 <= f < fr2.len() && 0 <= j < fr2[f].input_changes@.len() implies
        (#[trigger] fr2[f].input_changes@[j]).1.diff.0 == 1 || fr2[f].input_changes@[j].1.diff.0 == -1 by {
        if f < top {
            assert(fr2[f].input_changes@ == fr1[f].input_changes@);
        } else if j < fr1[f].input_changes@.len() {
            assert(fr2[f].input_changes@[j] == fr2[f].input_changes@.drop_last()[j]);
        }
    }
    assert forall|f: int, n: int, v: ValView| 0 <= f < fr2.len() implies i64::MIN <= #[trigger] count_of(snap_at(fr2[f].snapshot@, n), v) <= i64::MAX by {
        if f < top {
            assert(fr2[f].snapshot@ == fr1[f].snapshot@);
        }
        assert(i64::MIN <= count_of(snap_at(fr1[f].snapshot@, n), v) <= i64::MAX);
    }
    assert forall|f: int, n: int| 0 <= f < fr2.len() && 0 <= n < n2.len() && undoable(n2, n) implies #[trigger] frame_agrees(fr2, n2, f, n) by {
        assert(n2[n].kind == n1[n].kind);
        assert(frame_agrees(fr1, n1, f, n));
        if f < top {
            assert(fr2[f].input_changes@ == fr1[f].input_changes@);
            if f + 1 < top {
                assert(fr2[f + 1].snapshot@ == fr1[f + 1].snapshot@);
            }
        } else {
            let cs1 = fr1[f].input_changes@;
            let cs2 = fr2[f].input_changes@;
            assert(cs2.drop_last() == cs1);
            let start = snap_at(fr1[f].snapshot@, n);
            if n != id {
                assert(node_changes(cs2, n) == node_changes(cs1, n));
                assert(n2[n].state@ == n1[n].state@);
            } else {
                assert(node_changes(cs2, n) =~= node_changes(cs1, n).push((v, d)));
                let cs = node_changes(cs1, n);
                lemma_nonzero_add(n1[n].state@, apply_all(start, cs), v, d);
                crate::collection::lemma_change_at_counts(n1[n].state@, v, d);
                lemma_apply_all_push(start, cs, (v, d));
            }
        }
    }
}

/// The frames keep agreeing when a frame is pushed that records nothing yet and holds the
/// current states, all within `i64`.
pub proof fn lemma_frames_push(fr: Seq<Frame>, nodes: Seq<Node>, nf: Frame)
    requires
        frames_agree(fr, nodes),
        nf.input_changes@.len() == 0,
        nf.snapshot@ == Seq::new(nodes.len(), |i: int| nodes[i].state@),
        forall|n: int, v: ValView| 0 <= n < nodes.len() ==> i64::MIN <= #[trigger] count_of(nodes[n].state@, v) <= i64::MAX,
    ensures
        frames_agree(fr.push(nf), nodes),
{
    let fr2 = fr.push(nf);
    assert forall|f: int, j: int| 0 <= f < fr2.len() && 0 <= j < fr2[f].input_changes@.len() implies
        (#[trigger] fr2[f].input_changes@[j]).1.diff.0 == 1 || fr2[f].input_changes@[j].1.diff.0 == -1 by {
        assert(f < fr.len());
        assert(fr2[f] == fr[f]);
    }
    assert forall|f: int, j: int| 0 <= f < fr2.len() && 0 <= j < fr2[f].input_changes@.len() implies
        recordable(nodes, (#[trigger] fr2[f].input_changes@[j]).0 as int) by {
        assert(f < fr.len());
        assert(fr2[f] == fr[f]);
    }
    assert forall|f: int, n: int, v: ValView| 0 <= f < fr2.len() implies i64::MIN <= #[trigger] count_of(snap_at(fr2[f].snapshot@, n), v) <= i64::MAX by {
        if f < fr.len() {
            assert(fr2[f] == fr[f]);
        } else if 0 <= n < nodes.len() {
            assert(snap_at(fr2[f].snapshot@, n) == nodes[n].state@);
        }
    }
    assert forall|f: int, n: int| 0 <= f < fr2.len() && 0 <= n < nodes.len() && undoable(nodes, n) implies #[trigger] frame_agrees(fr2, nodes, f, n) by {
        if f < fr.len() {
            assert(fr2[f] == fr[f]);
            assert(frame_agrees(fr, nodes, f, n));
            if f + 1 == fr.len() {
                assert(after_frame(fr2, nodes, f, n) == nodes[n].state@);
            } else {
                assert(fr2[f + 1] == fr[f + 1]);
            }
        } else {
            assert(node_changes(nf.input_changes@, n) =~= Seq::<(ValView, int)>::empty());
            assert(snap_at(nf.snapshot@, n) == nodes[n].state@);
        }
    }
}

/// The first `i` recorded changes of frame `t` to node `n`, applied to its state at the push
/// without leaving `i64`, give (up to zero entries) its state in `nodes`.
pub open spec fn undo_agrees(t: Frame, nodes: Seq<Node>, i: int, n: int) -> bool {
    let start = snap_at(t.snapshot@, n);
    let cs = node_changes(t.input_changes@.subrange(0, i), n);
    &&& applies_in_range(start, cs)
    &&& nonzero(nodes[n].state@) == nonzero(apply_all(start, cs))
}

/// Every undoable input agrees with the first `i` changes of frame `t`.
pub open spec fn undo_inv(t: Frame, nodes: Seq<Node>, i: int) -> bool {
    forall|n: int| 0 <= n < nodes.len() && undoable(nodes, n) ==> #[trigger] undo_agrees(t, nodes, i, n)
}

/// The top frame agrees with all its changes.
pub proof fn lemma_undo_start(fr: Seq<Frame>, nodes: Seq<Node>)
    requires
        frames_agree(fr, nodes),
        fr.len() > 0,
    ensures
        undo_inv(fr.last(), nodes, fr.last().input_changes@.len() as int),
{
    let t = fr.last();
    assert(t.input_changes@.subrange(0, t.input_changes@.len() as int) =~= t.input_changes@);
    assert forall|n: int| 0 <= n < nodes.len() && undoable(nodes, n) implies #[trigger] undo_agrees(t, nodes, t.input_changes@.len() as int, n) by {
        assert(frame_agrees(fr, nodes, fr.len() - 1, n));
    }
}

/// Undoing change `i - 1` of frame `t` on an undoable input stays within `i64`.
pub proof fn lemma_undo_fits(t: Frame, nodes: Seq<Node>, i: int)
    requires
        0 < i <= t.input_changes@.len(),
        undo_inv(t, nodes, i),
        forall|n: int, v: ValView| i64::MIN <= #[trigger] count_of(snap_at(t.snapshot@, n), v) <= i64::MAX,
        0 <= t.input_changes@[i - 1].0 < nodes.len(),
        undoable(nodes, t.input_changes@[i - 1].0 as int),
    ensures
        ({
            let e = t.input_changes@[i - 1];
            i64::MIN <= count_of(nodes[e.0 as int].state@, e.1.tuple@) - e.1.diff.0 <= i64::MAX
        }),
{
    let e = t.input_changes@[i - 1];
    let m = e.0 as int;
    let v = e.1.tuple@;
    let d = e.1.diff.0 as int;
    let start = snap_at(t.snapshot@, m);
    let pre = node_changes(t.input_changes@.subrange(0, i - 1), m);
    assert(t.input_changes@.subrange(0, i).drop_last() == t.input_changes@.subrange(0, i - 1));
    assert(node_changes(t.input_changes@.subrange(0, i), m) == pre.push((v, d)));
    assert(undo_agrees(t, nodes, i, m));
    lemma_apply_all_push(start, pre, (v, d));
    lemma_apply_all_fits(start, pre);
    lemma_nonzero_add(nodes[m].state@, apply_all(start, pre.push((v, d))), v, 0);
}

/// Undoing change `i - 1` of frame `t` keeps the undoable inputs in agreement with the first
/// `i - 1` changes.
pub proof fn lemma_undo_step(t: Frame, n1: Seq<Node>, n2: Seq<Node>, i: int)
    requires
        0 < i <= t.input_changes@.len(),
        undo_inv(t, n1, i),
        n2.len() == n1.len(),
        forall|k: int| 0 <= k < n1.len() ==> (#[trigger] n2[k]).kind == n1[k].kind && n2[k].is_persistent == n1[k].is_persistent,
        forall|k: int| 0 <= k < n1.len() && k != t.input_changes@[i - 1].0 ==> (#[trigger] n2[k]).state@ == n1[k].state@,
        0 <= t.input_changes@[i - 1].0 < n1.len() && undoable(n1, t.input_changes@[i - 1].0 as int) ==>
            n2[t.input_changes@[i - 1].0 as int].state@ == crate::collection::change_at(n1[t.input_changes@[i - 1].0 as int].state@, t.input_changes@[i - 1].1.tuple@, -t.input_changes@[i - 1].1.diff.0),
    ensures
        undo_inv(t, n2, i - 1),
{
    let e = t.input_changes@[i - 1];
    let m = e.0 as int;
    let v = e.1.tuple@;
    let d = e.1.diff.0 as int;
    assert(t.input_changes@.subrange(0, i).drop_last() == t.input_changes@.subrange(0, i - 1));
    assert forall|n: int| 0 <= n < n2.len() && undoable(n2, n) implies #[trigger] undo_agrees(t, n2, i - 1, n) by {
        assert(n2[n].kind == n1[n].kind);
        assert(undo_agrees(t, n1, i, n));
        let start = snap_at(t.snapshot@, n);
        let pre = node_changes(t.input_changes@.subrange(0, i - 1), n);
        if n != m {
            assert(node_changes(t.input_changes@.subrange(0, i), n) == pre);
        } else {
            assert(node_changes(t.input_changes@.subrange(0, i), n) == pre.push((v, d)));
            lemma_apply_all_push(start, pre, (v, d));
            let x = apply_all(start, pre);
            lemma_nonzero_add(n1[n].state@, add_to(x, v, d), v, -d);
            crate::collection::lemma_change_at_counts(n1[n].state@, v, -d);
            lemma_add_cancel(x, v, d);
        }
    }
}

/// Once the top frame is undone, the frames below it agree with the states.
pub proof fn lemma_frames_after_pop(fr: Seq<Frame>, n0: Seq<Node>, n1: Seq<Node>)
    requires
        frames_agree(fr, n0),
        fr.len() > 0,
        undo_inv(fr.last(), n1, 0),
        n1.len() == n0.len(),
        forall|k: int| 0 <= k < n0.len() ==> (#[trigger] n1[k]).kind == n0[k].kind && n1[k].is_persistent == n0[k].is_persistent,
    ensures
        frames_agree(fr.drop_last(), n1),
        forall|n: int| 0 <= n < n1.len() && undoable(n1, n) ==> #[trigger] nonzero(n1[n].state@) == nonzero(snap_at(fr.last().snapshot@, n)),
{
    let t = fr.last();
    let fd = fr.drop_last();
    assert(t.input_changes@.subrange(0, 0) =~= Seq::<(usize, Change<Val>)>::empty());
    assert forall|n: int| 0 <= n < n1.len() && undoable(n1, n) implies #[trigger] nonzero(n1[n].state@) == nonzero(snap_at(t.snapshot@, n)) by {
        assert(undo_agrees(t, n1, 0, n));
        assert(node_changes(t.input_changes@.subrange(0, 0), n) =~= Seq::<(ValView, int)>::empty());
    }
    assert forall|f: int| 0 <= f < fd.len() implies (#[trigger] fd[f]).snapshot@.len() <= n1.len() by {
        assert(fd[f] == fr[f]);
    }
    assert forall|f: int, j: int| 0 <= f < fd.len() && 0 <= j < fd[f].input_changes@.len() implies
        (#[trigger] fd[f].input_changes@[j]).1.diff.0 == 1 || fd[f].input_changes@[j].1.diff.0 == -1 by {
        assert(fd[f] == fr[f]);
    }
    assert forall|f: int, j: int| 0 <= f < fd.len() && 0 <= j < fd[f].input_changes@.len() implies
        recordable(n1, (#[trigger] fd[f].input_changes@[j]).0 as int) by {
        assert(fd[f] == fr[f]);
        assert(recordable(n0, fr[f].input_changes@[j].0 as int));
    }
    assert forall|f: int, n: int, v: ValView| 0 <= f < fd.len() implies i64::MIN <= #[trigger] count_of(snap_at(fd[f].snapshot@, n), v) <= i64::MAX by {
        assert(fd[f] == fr[f]);
    }
    assert forall|f: int, n: int| 0 <= f < fd.len() && 0 <= n < n1.len() && undoable(n1, n) implies #[trigger] frame_agrees(fd, n1, f, n) by {
        assert(fd[f] == fr[f]);
        assert(n1[n].kind == n0[n].kind);
        assert(frame_agrees(fr, n0, f, n));
        if f + 1 < fd.len() {
            assert(fd[f + 1] == fr[f + 1]);
        } else {
            assert(after_frame(fr, n0, f, n) == snap_at(t.snapshot@, n));
            assert(nonzero(n1[n].state@) == nonzero(snap_at(t.snapshot@, n)));
        }
    }
}

/// The nodes that a step refers to exist, and a feedback loop's variable is a feedback node.
pub open spec fn op_refs_valid(op: StratifiedOp, nodes: Seq<Node>) -> bool {
    match op {
        StratifiedOp::Feedback { var, base, rec, .. } => {
            &&& var < nodes.len()
            &&& base < nodes.len()
            &&& rec < nodes.len()
            &&& nodes[var as int].kind is Feedback
        },
        StratifiedOp::Interrupt { rel } => rel < nodes.len(),
    }
}

/// The nodes and loops that a frame refers to exist.
pub open spec fn frame_refs_valid(f: Frame, n_nodes: nat, n_ops: nat) -> bool {
    &&& forall|j: int| 0 <= j < f.input_changes@.len() ==> (#[trigger] f.input_changes@[j]).0 < n_nodes
    &&& forall|j: int| 0 <= j < f.outputs@.len() ==> (#[trigger] f.outputs@[j]).0 < n_ops
    &&& forall|j: int| 0 <= j < f.deltas@.len() ==> (#[trigger] f.deltas@[j]).0 < n_ops
}

} // verus!
