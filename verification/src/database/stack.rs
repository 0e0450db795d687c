//! Push and pop: frames that record the changes made since a push, so that a pop can undo
//! them.

use vstd::prelude::*;

use crate::change::{Change, Diff};
use crate::collection::count_of;
use crate::dataflow::graph::NodeId;
use crate::database::commit_id::CommitId;
use crate::collection::nonzero;
use crate::database::db::{
    Database, Frame, StratifiedOp, all_consistent, frame_refs_valid, frames_agree, lemma_frames_after_pop, lemma_frames_push,
    lemma_undo_fits, lemma_undo_start, lemma_undo_step, only_states_changed, op_refs_valid, recordable,
    same_frame_inputs, snap_at, undo_inv, undoable,
};
use crate::tuple::{Val, ValView, val_clone};

verus! {

/// The views of the entries of a frame's outputs: loop, tuple as seen, tuple as held.
pub open spec fn output_views(s: Seq<(usize, Val, Val)>) -> Seq<(usize, ValView, ValView)> {
    s.map_values(|e: (usize, Val, Val)| (e.0, e.1@, e.2@))
}

/// The outputs of loop `k` among `outs` whose seen tuple it still counts, in order.
pub open spec fn still_seen(outs: Seq<(usize, ValView, ValView)>, k: usize, seen: Map<ValView, int>) -> Seq<(usize, ValView, ValView)>
    decreases outs.len(),
{
    if outs.len() == 0 {
        Seq::empty()
    } else {
        still_seen(outs.drop_last(), k, seen) + if outs.last().0 == k && count_of(seen, outs.last().1) > 0 {
            seq![outs.last()]
        } else {
            Seq::empty()
        }
    }
}

/// The state `m` with one more of the held tuple of each entry of `bs`, in order (an entry
/// that comes to zero dropped); an addition that would pass `i64::MAX` is skipped.
pub open spec fn re_add(m: Map<ValView, int>, bs: Seq<(usize, ValView, ValView)>) -> Map<ValView, int>
    decreases bs.len(),
{
    if bs.len() == 0 {
        m
    } else {
        let p = re_add(m, bs.drop_last());
        let t = bs.last().2;
        if count_of(p, t) < i64::MAX {
            crate::collection::change_at(p, t, 1)
        } else {
            p
        }
    }
}

/// No addition of `re_add(m, bs)` is skipped.
pub open spec fn re_add_fits(m: Map<ValView, int>, bs: Seq<(usize, ValView, ValView)>) -> bool
    decreases bs.len(),
{
    if bs.len() == 0 {
        true
    } else {
        re_add_fits(m, bs.drop_last()) && count_of(re_add(m, bs.drop_last()), bs.last().2) < i64::MAX
    }
}

impl Database {
    /// Push a new checkpoint frame onto the stack: changes made after this call are recorded
    /// and can be undone with `pop`. Returns the new stack depth.
    pub fn push(&mut self, name: Option<&str>) -> (r: usize)
        requires
            old(self).wf(),
        ensures
            final(self).wf(),
            final(self).nodes() == old(self).nodes(),
            final(self).names() == old(self).names(),
            final(self).ops() == old(self).ops(),
            final(self).frame_count() == old(self).frame_count() + 1,
            r == final(self).frame_count(),
            final(self).spec_commit_id() == old(self).spec_commit_id(),
            forall|n: int| 0 <= n < old(self).nodes().len() ==> #[trigger] final(self).pushed_state(n) == old(self).state(n),
    {
        proof {
            old(self).lemma_defs();
        }
        let count = self.graph.len();
        let mut i: usize = 0;
        while i < count
            invariant
                count == self.graph.nodes().len(),
                i <= count,
                forall|n: int, v: ValView| 0 <= n < i ==> i64::MIN <= #[trigger] count_of(self.graph.nodes()[n].state@, v) <= i64::MAX,
            decreases count - i,
        {
            self.graph.get(NodeId(i)).state.counts_fit();
            i = i + 1;
        }
        let n = match name {
            Some(s) => Some(s.to_owned()),
            None => None,
        };
        let ghost snap = Seq::new(self.graph.nodes().len(), |i: int| self.graph.nodes()[i].state@);
        let nf = Frame {
            name: n,
            input_changes: Vec::new(),
            outputs: Vec::new(),
            deltas: Vec::new(),
            snapshot: Ghost(snap),
        };
        proof {
            lemma_frames_push(self.frames@, self.graph.nodes(), nf);
        }
        self.frames.push(nf);
        proof {
            assert forall|f: int| 0 <= f < self.frames@.len() implies frame_refs_valid(#[trigger] self.frames@[f], self.graph.nodes().len(), self.strat@.len()) by {
                if f < old(self).frames@.len() {
                    assert(self.frames@[f] == old(self).frames@[f]);
                }
            }
            self.lemma_defs();
        }
        self.frames.len()
    }

    /// Pop the top checkpoint frame, undoing the changes since the matching push: the
    /// recorded input changes are undone, the tuples that feedback loops added in the frame
    /// are removed (and no longer counted as seen), the derived relations are recomputed, and
    /// each loop, in order, takes back those of its removed tuples it still counts as seen
    /// and runs to its fixpoint. Returns false, changing nothing, if there is no frame.
    /// Each input that is not persistent is left with the multiplicities it had at the push.
    #[verifier::rlimit(60)]
    pub fn pop(&mut self) -> (r: bool)
        requires
            old(self).wf(),
        ensures
            final(self).wf(),
            r == (old(self).frame_count() > 0),
            !r ==> *final(self) == *old(self),
            r ==> final(self).frame_count() == old(self).frame_count() - 1,
            final(self).nodes().len() == old(self).nodes().len(),
            final(self).names() == old(self).names(),
            final(self).ops() == old(self).ops(),
            old(self).spec_commit_id() <= final(self).spec_commit_id(),
            forall|k: int| 0 <= k < old(self).nodes().len() ==> #[trigger] final(self).nodes()[k].kind == old(self).nodes()[k].kind,
            forall|k: int| 0 <= k < old(self).nodes().len() && old(self).nodes()[k].is_persistent ==> #[trigger] final(self).state(k) == old(self).state(k),
            r && !old(self).top_frame_records() ==> final(self).spec_commit_id() == old(self).spec_commit_id()
                && final(self).nodes() == old(self).nodes(),
            r && old(self).top_frame_records() && old(self).spec_commit_id() < u64::MAX ==> final(self).spec_commit_id() > old(self).spec_commit_id(),
            r && old(self).top_frame_records() && !final(self).spec_interrupted() && !final(self).spec_incomplete() ==> all_consistent(final(self).nodes()),
            r && old(self).top_frame_records() && !final(self).spec_interrupted() && !final(self).spec_incomplete() ==> forall|j: int|
                0 <= j < final(self).ops().len() && (final(self).ops()[j] is Feedback) ==> #[trigger] final(self).settled_at(j),
            r ==> forall|n: int| 0 <= n < old(self).nodes().len() && undoable(old(self).nodes(), n) ==>
                #[trigger] nonzero(final(self).state(n)) == nonzero(old(self).pushed_state(n)),
    {
        proof {
            old(self).lemma_defs();
        }
        if self.frames.len() == 0 {
            return false;
        }
        let ghost fr0 = self.frames@;
        let ghost n0 = self.graph.nodes();
        proof {
            old(self).lemma_defs();
            assert forall|x: int| 0 <= x < n0.len() && n0[x].is_persistent implies (#[trigger] n0[x].kind) is Input by {
                assert(crate::dataflow::graph::node_wf(n0, x));
            }
        }
        let frame = self.frames.pop().unwrap();
        proof {
            assert(frame == fr0.last());
            assert(self.frames@ == fr0.drop_last());
            lemma_undo_start(fr0, n0);
            assert(frame_refs_valid(frame, self.graph.nodes().len(), self.strat@.len()));
            assert forall|f: int| 0 <= f < self.frames@.len() implies frame_refs_valid(#[trigger] self.frames@[f], self.graph.nodes().len(), self.strat@.len()) by {
                assert(self.frames@[f] == old(self).frames@[f]);
            }
            assert forall|n: int, v: ValView| i64::MIN <= #[trigger] count_of(snap_at(frame.snapshot@, n), v) <= i64::MAX by {
                assert(i64::MIN <= count_of(snap_at(fr0[fr0.len() - 1].snapshot@, n), v) <= i64::MAX);
            }
            self.lemma_defs();
        }
        if frame.input_changes.len() == 0 && frame.outputs.len() == 0 && frame.deltas.len() == 0 {
            proof {
                lemma_frames_after_pop(fr0, n0, n0);
                self.lemma_defs();
                old(self).lemma_defs();
                assert(!old(self).top_frame_records());
            }
            return true;
        }
        if self.commit_id.0 < u64::MAX {
            self.commit_id = CommitId(self.commit_id.0 + 1);
        }
        let ghost c1 = self.commit_id.0;
        proof {
            old(self).lemma_defs();
            assert(old(self).top_frame_records());
            self.lemma_defs();
        }
        // Undo the input changes, last first.
        let mut i = frame.input_changes.len();
        while i > 0
            invariant
                i <= frame.input_changes@.len(),
                self.wf_but_frames(),
                frame_refs_valid(frame, self.graph.nodes().len(), self.strat@.len()),
                frame == fr0.last(),
                fr0.len() > 0,
                self.frames@ == fr0.drop_last(),
                frames_agree(fr0, n0),
                self.graph.nodes().len() == n0.len(),
                forall|k: int| 0 <= k < n0.len() ==> (#[trigger] self.graph.nodes()[k]).kind == n0[k].kind
                    && self.graph.nodes()[k].is_persistent == n0[k].is_persistent,
                forall|k: int| 0 <= k < n0.len() && n0[k].is_persistent ==> (#[trigger] self.graph.nodes()[k]).state == n0[k].state,
                forall|n: int, v: ValView| i64::MIN <= #[trigger] count_of(snap_at(frame.snapshot@, n), v) <= i64::MAX,
                forall|j: int| 0 <= j < frame.input_changes@.len() ==>
                    (#[trigger] frame.input_changes@[j]).1.diff.0 == 1 || frame.input_changes@[j].1.diff.0 == -1,
                undo_inv(frame, self.graph.nodes(), i as int),
                self.graph.names() == old(self).graph.names(),
                self.strat@ == old(self).strat@,
                old(self).commit_id.0 <= self.commit_id.0,
                c1 <= self.commit_id.0,
                old(self).commit_id.0 < u64::MAX ==> old(self).commit_id.0 < c1,
            decreases i,
        {
            i = i - 1;
            let n = frame.input_changes[i].0;
            let ghost pre = *self;
            proof {
                assert(recordable(n0, fr0[fr0.len() - 1].input_changes@[i as int].0 as int));
                pre.lemma_defs();
                if undoable(pre.graph.nodes(), n as int) {
                    lemma_undo_fits(frame, pre.graph.nodes(), i as int + 1);
                }
            }
            self.undo_change(NodeId(n), &frame.input_changes[i].1.tuple, frame.input_changes[i].1.diff);
            proof {
                lemma_undo_step(frame, pre.graph.nodes(), self.graph.nodes(), i as int + 1);
            }
        }
        let ghost n1 = self.graph.nodes();
        proof {
            lemma_frames_after_pop(fr0, n0, n1);
            self.lemma_defs();
        }
        // Remove the tuples that loops added in the frame, and stop counting them as seen.
        let mut j: usize = 0;
        while j < frame.outputs.len()
            invariant
                j <= frame.outputs@.len(),
                self.wf(),
                frame_refs_valid(frame, self.graph.nodes().len(), self.strat@.len()),
                self.graph.nodes().len() == n1.len(),
                forall|k: int| 0 <= k < n1.len() ==> (#[trigger] self.graph.nodes()[k]).kind == n1[k].kind
                    && self.graph.nodes()[k].is_persistent == n1[k].is_persistent,
                forall|k: int| 0 <= k < n1.len() && undoable(n1, k) ==> (#[trigger] self.graph.nodes()[k]).state == n1[k].state,
                forall|k: int| 0 <= k < n0.len() && n0[k].is_persistent ==> (#[trigger] self.graph.nodes()[k]).state == n0[k].state,
                forall|k: int| 0 <= k < n0.len() && n0[k].is_persistent ==> (#[trigger] n0[k].kind) is Input,
                n1.len() == n0.len(),
                forall|k: int| 0 <= k < n0.len() ==> (#[trigger] n1[k]).kind == n0[k].kind && n1[k].is_persistent == n0[k].is_persistent,
                self.graph.names() == old(self).graph.names(),
                self.strat@ == old(self).strat@,
                self.frames@.len() == old(self).frames@.len() - 1,
                old(self).commit_id.0 <= self.commit_id.0,
                c1 <= self.commit_id.0,
                old(self).commit_id.0 < u64::MAX ==> old(self).commit_id.0 < c1,
            decreases frame.outputs@.len() - j,
        {
            let k = frame.outputs[j].0;
            proof {
                self.lemma_defs();
                assert(op_refs_valid(self.strat@[k as int], self.graph.nodes()));
            }
            let var = match &self.strat[k] {
                StratifiedOp::Feedback { var, .. } => Some(*var),
                StratifiedOp::Interrupt { .. } => None,
            };
            match var {
                Some(var) => {
                    let ghost pre = *self;
                    self.undo_change(NodeId(var), &frame.outputs[j].2, Diff(1));
                    proof {
                        assert(pre.graph.nodes()[var as int].kind is Feedback);
                        self.lemma_frames_grow(&pre);
                        self.lemma_defs();
                    }
                },
                None => {},
            }
            j = j + 1;
        }
        j = 0;
        while j < frame.deltas.len()
            invariant
                j <= frame.deltas@.len(),
                self.wf(),
                frame_refs_valid(frame, self.graph.nodes().len(), self.strat@.len()),
                self.graph.nodes().len() == n1.len(),
                forall|k: int| 0 <= k < n1.len() ==> (#[trigger] self.graph.nodes()[k]).kind == n1[k].kind
                    && self.graph.nodes()[k].is_persistent == n1[k].is_persistent,
                forall|k: int| 0 <= k < n1.len() && undoable(n1, k) ==> (#[trigger] self.graph.nodes()[k]).state == n1[k].state,
                forall|k: int| 0 <= k < n0.len() && n0[k].is_persistent ==> (#[trigger] self.graph.nodes()[k]).state == n0[k].state,
                forall|k: int| 0 <= k < n0.len() && n0[k].is_persistent ==> (#[trigger] n0[k].kind) is Input,
                n1.len() == n0.len(),
                forall|k: int| 0 <= k < n0.len() ==> (#[trigger] n1[k]).kind == n0[k].kind && n1[k].is_persistent == n0[k].is_persistent,
                self.graph.names() == old(self).graph.names(),
                self.strat@ == old(self).strat@,
                self.frames@.len() == old(self).frames@.len() - 1,
                old(self).commit_id.0 <= self.commit_id.0,
                c1 <= self.commit_id.0,
                old(self).commit_id.0 < u64::MAX ==> old(self).commit_id.0 < c1,
            decreases frame.deltas@.len() - j,
        {
            let k = frame.deltas[j].0;
            proof {
                self.lemma_defs();
            }
            let ghost pre = *self;
            let mut s = self.seen[k].snapshot();
            let c = s.get(&frame.deltas[j].1);
            if c.0 > i64::MIN {
                s.delete(val_clone(&frame.deltas[j].1));
            } else {
                self.overflowed = true;
            }
            self.seen.set(k, s);
            proof {
                pre.lemma_defs();
                self.lemma_defs();
            }
            j = j + 1;
        }
        self.recompute_all();
        // Each loop, in order, takes back the removed tuples it still counts as seen, then runs
        // with the loops before it to a fixpoint.
        let mut k: usize = 0;
        while k < self.strat.len()
            invariant
                self.wf(),
                frame_refs_valid(frame, self.graph.nodes().len(), self.strat@.len()),
                self.graph.nodes().len() == n1.len(),
                forall|x: int| 0 <= x < n1.len() ==> (#[trigger] self.graph.nodes()[x]).kind == n1[x].kind
                    && self.graph.nodes()[x].is_persistent == n1[x].is_persistent,
                forall|x: int| 0 <= x < n1.len() && undoable(n1, x) ==> (#[trigger] self.graph.nodes()[x]).state == n1[x].state,
                forall|x: int| 0 <= x < n0.len() && n0[x].is_persistent ==> (#[trigger] self.graph.nodes()[x]).state == n0[x].state,
                forall|x: int| 0 <= x < n0.len() && n0[x].is_persistent ==> (#[trigger] n0[x].kind) is Input,
                n1.len() == n0.len(),
                forall|x: int| 0 <= x < n0.len() ==> (#[trigger] n1[x]).kind == n0[x].kind && n1[x].is_persistent == n0[x].is_persistent,
                self.graph.names() == old(self).graph.names(),
                self.strat@ == old(self).strat@,
                self.frames@.len() == old(self).frames@.len() - 1,
                old(self).commit_id.0 <= self.commit_id.0,
                c1 <= self.commit_id.0,
                old(self).commit_id.0 < u64::MAX ==> old(self).commit_id.0 < c1,
                !self.interrupted && !self.overflowed && !self.limit_reached ==> all_consistent(self.graph.nodes()),
                !self.interrupted && !self.overflowed && !self.limit_reached ==> forall|j: int| 0 <= j < k
                    && (self.strat@[j] is Feedback) ==> #[trigger] self.settled_at(j),
            decreases self.strat@.len() - k,
        {
            proof {
                self.lemma_defs();
                assert(op_refs_valid(self.strat@[k as int], self.graph.nodes()));
            }
            let var = match &self.strat[k] {
                StratifiedOp::Feedback { var, .. } => Some(*var),
                StratifiedOp::Interrupt { .. } => None,
            };
            match var {
                Some(var) => {
                    let ghost pre = *self;
                    self.take_back(k, var, &frame);
                    proof {
                        pre.lemma_defs();
                        self.lemma_defs();
                    }
                    self.run_fixpoint_up_to(k + 1);
                },
                None => {},
            }
            k = k + 1;
        }
        proof {
            self.lemma_defs();
            assert forall|n: int| 0 <= n < old(self).nodes().len() && undoable(old(self).nodes(), n) implies
                #[trigger] nonzero(self.state(n)) == nonzero(old(self).pushed_state(n)) by {
                assert(n0[n].kind == n1[n].kind);
                assert(nonzero(n1[n].state@) == nonzero(snap_at(frame.snapshot@, n)));
            }
        }
        true
    }

    /// Subtract `d` from the multiplicity of `v` in node `id`, where the result fits in `i64`;
    /// elsewhere mark the commit incomplete.
    fn undo_change(&mut self, id: NodeId, v: &Val, d: Diff)
        requires
            old(self).wf_but_frames(),
            id.0 < old(self).graph.nodes().len(),
        ensures
            final(self).wf_but_frames(),
            final(self).graph.nodes().len() == old(self).graph.nodes().len(),
            final(self).graph.names() == old(self).graph.names(),
            final(self).strat@ == old(self).strat@,
            final(self).seen@ == old(self).seen@,
            final(self).frames@ == old(self).frames@,
            final(self).commit_id == old(self).commit_id,
            forall|i: int| 0 <= i < old(self).graph.nodes().len() && i != id.0 ==> final(self).graph.nodes()[i] == old(self).graph.nodes()[i],
            final(self).graph.nodes()[id.0 as int].kind == old(self).graph.nodes()[id.0 as int].kind,
            final(self).graph.nodes()[id.0 as int].is_persistent == old(self).graph.nodes()[id.0 as int].is_persistent,
            d.0 > i64::MIN && i64::MIN <= count_of(old(self).graph.nodes()[id.0 as int].state@, v@) - d.0 <= i64::MAX ==>
                final(self).graph.nodes()[id.0 as int].state@ == crate::collection::change_at(old(self).graph.nodes()[id.0 as int].state@, v@, -d.0),
    {
        proof {
            old(self).lemma_defs();
        }
        let c = self.graph.get(id).state.get(v);
        match c.0.checked_sub(d.0) {
            Some(_) => {
                if d.0 == i64::MIN {
                    self.overflowed = true;
                } else {
                    self.graph.apply_change_at(id, Change::new(val_clone(v), Diff(-d.0)));
                }
            },
            None => {
                self.overflowed = true;
            },
        }
        proof {
            self.lemma_refs_grow_after(old(self).graph.nodes());
            self.lemma_defs();
        }
    }

    /// Loop `k`, whose variable is `var`, takes back the tuples it added in `frame` that it
    /// still counts as seen; they are recorded in the frame below, if there is one.
    fn take_back(&mut self, k: usize, var: usize, frame: &Frame)
        requires
            old(self).wf(),
            k < old(self).strat@.len(),
            old(self).strat@[k as int] matches StratifiedOp::Feedback { var: v, .. } && v == var,
        ensures
            final(self).wf(),
            final(self).graph.nodes().len() == old(self).graph.nodes().len(),
            only_states_changed(old(self).graph.nodes(), final(self).graph.nodes()),
            final(self).graph.names() == old(self).graph.names(),
            final(self).strat@ == old(self).strat@,
            final(self).seen@ == old(self).seen@,
            final(self).frames@.len() == old(self).frames@.len(),
            final(self).commit_id == old(self).commit_id,
            final(self).interrupted == old(self).interrupted,
            final(self).limit_reached == old(self).limit_reached,
            ({
                let bs = still_seen(output_views(frame.outputs@), k, old(self).seen@[k as int]@);
                &&& final(self).graph.nodes()[var as int].state@ == re_add(old(self).graph.nodes()[var as int].state@, bs)
                &&& final(self).overflowed == (old(self).overflowed || !re_add_fits(old(self).graph.nodes()[var as int].state@, bs))
                &&& old(self).frames@.len() > 0 ==> output_views(final(self).frames@.last().outputs@)
                    == output_views(old(self).frames@.last().outputs@) + bs
            }),
            forall|n: int| 0 <= n < old(self).graph.nodes().len() && n != var ==> #[trigger] final(self).graph.nodes()[n].state
                == old(self).graph.nodes()[n].state,
            forall|f: int| 0 <= f < old(self).frames@.len() - 1 ==> #[trigger] final(self).frames@[f] == old(self).frames@[f],
    {
        proof {
            old(self).lemma_defs();
            assert(op_refs_valid(self.strat@[k as int], self.graph.nodes()));
        }
        let ghost ov = output_views(frame.outputs@);
        let ghost seen_k = self.seen@[k as int]@;
        let ghost var0 = self.graph.nodes()[var as int].state@;
        let mut vs = self.graph.get(NodeId(var)).state.snapshot();
        let mut back: Vec<(usize, Val, Val)> = Vec::new();
        let mut over = false;
        let mut j: usize = 0;
        proof {
            assert(ov.subrange(0, 0) =~= Seq::<(usize, ValView, ValView)>::empty());
            assert(output_views(back@) =~= Seq::<(usize, ValView, ValView)>::empty());
        }
        while j < frame.outputs.len()
            invariant
                j <= frame.outputs@.len(),
                k < self.strat@.len(),
                self.seen@.len() == self.strat@.len(),
                self.seen@[k as int]@ == seen_k,
                ov == output_views(frame.outputs@),
                forall|a: int| 0 <= a < back@.len() ==> (#[trigger] back@[a]).0 == k,
                output_views(back@) == still_seen(ov.subrange(0, j as int), k, seen_k),
                vs@ == re_add(var0, output_views(back@)),
                over == !re_add_fits(var0, output_views(back@)),
            decreases frame.outputs@.len() - j,
        {
            let ghost b0 = output_views(back@);
            proof {
                assert(ov.subrange(0, j + 1).drop_last() =~= ov.subrange(0, j as int));
                assert(ov.subrange(0, j + 1).last() == ov[j as int]);
                assert(ov[j as int] == (frame.outputs@[j as int].0, frame.outputs@[j as int].1@, frame.outputs@[j as int].2@));
            }
            if frame.outputs[j].0 == k {
                let still = self.seen[k].get(&frame.outputs[j].1);
                if still.0 > 0 {
                    let c = vs.get(&frame.outputs[j].2);
                    if c.0 < i64::MAX {
                        vs.insert(val_clone(&frame.outputs[j].2));
                    } else {
                        over = true;
                    }
                    back.push((k, val_clone(&frame.outputs[j].1), val_clone(&frame.outputs[j].2)));
                    proof {
                        assert(output_views(back@) =~= b0.push(ov[j as int]));
                        assert(output_views(back@).drop_last() =~= b0);
                    }
                } else {
                    proof {
                        assert(b0 + Seq::<(usize, ValView, ValView)>::empty() =~= b0);
                    }
                }
            } else {
                proof {
                    assert(b0 + Seq::<(usize, ValView, ValView)>::empty() =~= b0);
                }
            }
            j = j + 1;
        }
        proof {
            assert(ov.subrange(0, j as int) =~= ov);
        }
        if over {
            self.overflowed = true;
        }
        self.graph.set_state(NodeId(var), vs);
        self.graph.mark_dirty(NodeId(var));
        if self.frames.len() > 0 {
            let mut top = self.frames.pop().unwrap();
            let ghost top0 = top;
            let ghost back0 = back@;
            top.outputs.append(&mut back);
            proof {
                assert(top.outputs@ == top0.outputs@ + back0);
                assert(output_views(top.outputs@) =~= output_views(top0.outputs@) + output_views(back0));
            }
            let ghost rest = self.frames@;
            self.frames.push(top);
            proof {
                assert forall|f: int| 0 <= f < self.frames@.len() implies (#[trigger] self.frames@[f]).input_changes@ == old(self).frames@[f].input_changes@
                    && self.frames@[f].snapshot@ == old(self).frames@[f].snapshot@ by {
                    if f < rest.len() {
                        assert(self.frames@[f] == old(self).frames@[f]);
                    }
                }
                assert(frame_refs_valid(top0, self.graph.nodes().len(), self.strat@.len()));
                assert forall|f: int| 0 <= f < self.frames@.len() implies frame_refs_valid(#[trigger] self.frames@[f], self.graph.nodes().len(), self.strat@.len()) by {
                    if f < rest.len() {
                        assert(self.frames@[f] == old(self).frames@[f]);
                    } else {
                        let t = self.frames@[f];
                        assert(t == top);
                        assert forall|a: int| 0 <= a < t.outputs@.len() implies (#[trigger] t.outputs@[a]).0 < self.strat@.len() by {
                            if a < top0.outputs@.len() {
                                assert(t.outputs@[a] == top0.outputs@[a]);
                            }
                        }
                    }
                }
            }
        }
        proof {
            self.lemma_refs_grow_after(old(self).graph.nodes());
            assert(same_frame_inputs(old(self).frames@, self.frames@));
            self.lemma_frames_grow(old(self));
            self.lemma_defs();
        }
    }
}

} // verus!
