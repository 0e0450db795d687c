//! Named checkpoints of a database: save the states of all nodes, restore them later
//! (except the manual inputs), list them.

use vstd::prelude::*;

use crate::checkpoint::{Checkpoint, CheckpointId, RestoreInfo};
use crate::collection::Collection;
use crate::dataflow::graph::{Node, NodeId};
use crate::database::db::{Database, undoable};
use crate::tuple::{Val, ValView};

verus! {

/// `cp` holds the state of each of `nodes`, in order, and the name `name`.
pub open spec fn saves(cp: Checkpoint, nodes: Seq<Node>, name: Option<&str>) -> bool {
    &&& cp.states@.len() == nodes.len()
    &&& forall|j: int| 0 <= j < nodes.len() ==> (#[trigger] cp.states@[j]).0 == NodeId(j as usize) && cp.states@[j].1@ == nodes[j].state@
    &&& forall|j: int| 0 <= j < cp.manual_inputs@.len() ==> (#[trigger] cp.manual_inputs@[j]).0 < nodes.len() && nodes[cp.manual_inputs@[j].0 as int].is_manual_input
    &&& match name {
        Some(s) => cp.name matches Some(t) && t@ == s@,
        None => cp.name is None,
    }
}

impl Database {
    /// The checkpoints stored, in order.
    pub closed spec fn saved(&self) -> Seq<Checkpoint> {
        self.checkpoints.stored()
    }

    /// What `saved` and `next_checkpoint` are, for the other modules of the crate.
    pub(crate) proof fn lemma_saved_defs(&self)
        ensures
            self.saved() == self.checkpoints.stored(),
            self.next_checkpoint() == self.checkpoints.spec_next_id(),
    {
    }

    /// The number the next checkpoint gets.
    pub closed spec fn next_checkpoint(&self) -> usize {
        self.checkpoints.spec_next_id()
    }

    /// Create a checkpoint of the current states of all nodes.
    pub fn checkpoint(&mut self, name: Option<&str>) -> (r: CheckpointId)
        requires
            old(self).wf(),
            old(self).next_checkpoint() < usize::MAX,
        ensures
            final(self).wf(),
            final(self).same_control(&*old(self)),
            final(self).nodes() == old(self).nodes(),
            final(self).names() == old(self).names(),
            r.0 == old(self).next_checkpoint(),
            final(self).next_checkpoint() == old(self).next_checkpoint() + 1,
            exists|i: int| 0 <= i < final(self).saved().len() && #[trigger] final(self).saved()[i].id == r
                && saves(final(self).saved()[i], old(self).nodes(), name),
            final(self).saved().len() == old(self).saved().len() + 1,
            final(self).saved().drop_last() == old(self).saved(),
            final(self).saved().last().id == r,
            saves(final(self).saved().last(), old(self).nodes(), name),
    {
        proof {
            old(self).lemma_defs();
        }
        let id = self.checkpoints.next_id();
        let n = match name {
            Some(s) => Some(s.to_owned()),
            None => None,
        };
        let ghost n0 = n;
        let mut cp = Checkpoint::new(id, n);
        let count = self.graph.len();
        let mut i: usize = 0;
        while i < count
            invariant
                count == self.graph.nodes().len(),
                i <= count,
                cp.id == id,
                cp.name == n0,
                cp.states@.len() == i,
                forall|j: int| 0 <= j < i ==> (#[trigger] cp.states@[j]).0 == NodeId(j as usize) && cp.states@[j].1@ == self.graph.nodes()[j].state@,
                forall|j: int| 0 <= j < cp.manual_inputs@.len() ==> (#[trigger] cp.manual_inputs@[j]).0 < i && self.graph.nodes()[cp.manual_inputs@[j].0 as int].is_manual_input,
            decreases count - i,
        {
            let node = self.graph.get(NodeId(i));
            cp.states.push((NodeId(i), node.state.snapshot()));
            if node.is_manual_input {
                cp.manual_inputs.push(NodeId(i));
            }
            i = i + 1;
        }
        let ghost cp0 = cp;
        assert(saves(cp0, self.graph.nodes(), name));
        let ghost pre = self.checkpoints;
        proof {
            self.lemma_defs();
            assert forall|i: int| 0 <= i < pre.stored().len() implies pre.stored()[i].id != cp0.id by {
                assert(pre.stored()[i].id.0 < old(self).checkpoints.spec_next_id());
            }
        }
        self.checkpoints.store(cp);
        proof {
            old(self).lemma_saved_defs();
            self.lemma_saved_defs();
            assert(self.saved() == old(self).saved().push(cp0));
            assert(self.saved().drop_last() =~= old(self).saved());
            self.lemma_defs();
            self.lemma_same_control(old(self));
            let i = choose|i: int| 0 <= i < self.saved().len() && #[trigger] self.saved()[i] == cp0;
            assert(self.saved()[i].id == id);
        }
        id
    }
}

/// The node and the state of each entry of a checkpoint.
pub open spec fn states_view(cp: Checkpoint) -> Seq<(NodeId, Map<ValView, int>)> {
    cp.states@.map_values(|e: (NodeId, Collection<Val>)| (e.0, e.1@))
}

/// Entry `k` of `sv` saves node `k`, which exists.
pub open spec fn restorable(sv: Seq<(NodeId, Map<ValView, int>)>, nodes: Seq<Node>, k: int) -> bool {
    0 <= k < sv.len() && sv[k].0 == NodeId(k as usize) && k < nodes.len()
}

/// The nodes among the first `m` that entries of `sv` save and that are (or, with `manual`
/// false, are not) manual inputs, in order.
pub open spec fn ids_where(sv: Seq<(NodeId, Map<ValView, int>)>, nodes: Seq<Node>, m: int, manual: bool) -> Seq<NodeId>
    decreases m,
{
    if m <= 0 {
        Seq::empty()
    } else {
        ids_where(sv, nodes, m - 1, manual) + if restorable(sv, nodes, m - 1) && nodes[m - 1].is_manual_input == manual {
            seq![NodeId((m - 1) as usize)]
        } else {
            Seq::empty()
        }
    }
}

/// The first `m` entries of `sv` have been restored into `before`, giving `after`: each node
/// they save takes its saved state unless it is a manual input; `info` lists the restored
/// nodes and the manual inputs left alone.
pub open spec fn restored_prefix(sv: Seq<(NodeId, Map<ValView, int>)>, before: Seq<Node>, after: Seq<Node>, info: RestoreInfo, m: int) -> bool {
    &&& after.len() == before.len()
    &&& forall|k: int| 0 <= k < before.len() ==> {
        &&& (#[trigger] after[k]).id == before[k].id
        &&& after[k].kind == before[k].kind
        &&& after[k].inputs == before[k].inputs
        &&& after[k].op == before[k].op
        &&& after[k].pending_changes == before[k].pending_changes
        &&& after[k].is_manual_input == before[k].is_manual_input
        &&& after[k].is_persistent == before[k].is_persistent
        &&& if k < m && restorable(sv, before, k) && !before[k].is_manual_input {
            after[k].state@ == sv[k].1
        } else {
            after[k].state == before[k].state
        }
    }
    &&& info.restored_nodes@ == ids_where(sv, before, m, false)
    &&& info.manual_input_nodes@ == ids_where(sv, before, m, true)
}

/// The whole checkpoint `cp` has been restored into `before`, giving `after`.
pub open spec fn restored_from(cp: Checkpoint, before: Seq<Node>, after: Seq<Node>, info: RestoreInfo) -> bool {
    &&& restored_prefix(states_view(cp), before, after, info, cp.states@.len() as int)
    &&& info.needs_propagation == (info.restored_nodes@.len() > 0)
}

impl Database {
    /// Restore the states saved in a checkpoint, except those of manual inputs; `None` if
    /// there is no checkpoint with that ID.
    pub fn restore(&mut self, checkpoint_id: CheckpointId) -> (r: Option<RestoreInfo>)
        requires
            old(self).wf(),
        ensures
            final(self).wf(),
            final(self).same_control(&*old(self)),
            final(self).saved() == old(self).saved(),
            final(self).names() == old(self).names(),
            final(self).nodes().len() == old(self).nodes().len(),
            r is None <==> forall|i: int| 0 <= i < old(self).saved().len() ==> old(self).saved()[i].id != checkpoint_id,
            r is None ==> *final(self) == *old(self),
            r matches Some(info) ==> exists|c: int| 0 <= c < old(self).saved().len() && old(self).saved()[c].id == checkpoint_id
                && restored_from(old(self).saved()[c], old(self).nodes(), final(self).nodes(), info),
            r matches Some(info) ==> forall|c: int| 0 <= c < old(self).saved().len() && old(self).saved()[c].id == checkpoint_id
                ==> restored_from(#[trigger] old(self).saved()[c], old(self).nodes(), final(self).nodes(), info),
            forall|c: int, d: int| 0 <= c < old(self).saved().len() && 0 <= d < old(self).saved().len() && c != d
                ==> (#[trigger] old(self).saved()[c]).id != (#[trigger] old(self).saved()[d]).id,
    {
        proof {
            old(self).lemma_defs();
        }
        let found = self.checkpoints.get(checkpoint_id);
        let ghost cp_src = match found {
            Some(c) => *c,
            None => arbitrary(),
        };
        let cp = match found {
            Some(c) => c.duplicate(),
            None => {
                proof {
                    self.lemma_same_control(old(self));
                }
                return None;
            },
        };
        let ghost sv = states_view(cp);
        let mut info = RestoreInfo::new();
        assert(info.restored_nodes@ =~= ids_where(sv, old(self).graph.nodes(), 0, false));
        assert(info.manual_input_nodes@ =~= ids_where(sv, old(self).graph.nodes(), 0, true));
        let mut i: usize = 0;
        while i < cp.states.len()
            invariant
                i <= cp.states@.len(),
                self.wf(),
                self.strat@ == old(self).strat@,
                self.seen@ == old(self).seen@,
                self.frames@ == old(self).frames@,
                self.commit_id == old(self).commit_id,
                self.max_iterations == old(self).max_iterations,
                self.interrupted == old(self).interrupted,
                self.overflowed == old(self).overflowed,
                self.limit_reached == old(self).limit_reached,
                self.checkpoints == old(self).checkpoints,
                self.graph.names() == old(self).graph.names(),
                self.graph.nodes().len() == old(self).graph.nodes().len(),
                forall|k: int| 0 <= k < self.graph.nodes().len() ==> (#[trigger] self.graph.nodes()[k]).is_manual_input == old(self).graph.nodes()[k].is_manual_input,
                sv == states_view(cp),
                restored_prefix(sv, old(self).graph.nodes(), self.graph.nodes(), info, i as int),
            decreases cp.states@.len() - i,
        {
            let n = cp.states[i].0;
            let ghost before = old(self).graph.nodes();
            let ghost pre = *self;
            let ghost info0 = info;
            assert(sv[i as int] == (cp.states@[i as int].0, cp.states@[i as int].1@));
            if n.0 == i && n.0 < self.graph.len() {
                if self.graph.get(n).is_manual_input {
                    info.manual_input_nodes.push(n);
                    proof {
                        assert(ids_where(sv, before, i + 1, true) =~= ids_where(sv, before, i as int, true).push(n));
                        assert(ids_where(sv, before, i + 1, false) =~= ids_where(sv, before, i as int, false));
                    }
                } else {
                    self.graph.set_state(n, cp.states[i].1.snapshot());
                    self.graph.mark_dirty(n);
                    info.restored_nodes.push(n);
                    proof {
                        pre.lemma_defs();
                        self.lemma_refs_grow_after(pre.graph.nodes());
                        assert(crate::dataflow::graph::node_wf(pre.graph.nodes(), i as int));
                        assert(!undoable(pre.graph.nodes(), i as int));
                        self.lemma_frames_grow(&pre);
                        self.lemma_defs();
                        assert(ids_where(sv, before, i + 1, false) =~= ids_where(sv, before, i as int, false).push(n));
                        assert(ids_where(sv, before, i + 1, true) =~= ids_where(sv, before, i as int, true));
                    }
                }
            } else {
                proof {
                    assert(!restorable(sv, before, i as int));
                    assert(ids_where(sv, before, i + 1, true) =~= ids_where(sv, before, i as int, true));
                    assert(ids_where(sv, before, i + 1, false) =~= ids_where(sv, before, i as int, false));
                }
            }
            i = i + 1;
        }
        info.needs_propagation = info.restored_nodes.len() > 0;
        proof {
            self.lemma_same_control(old(self));
            old(self).lemma_defs();
            self.lemma_defs();
            let c = choose|c: int| 0 <= c < old(self).saved().len() && old(self).saved()[c] == cp_src && cp_src.id == checkpoint_id;
            assert(cp.states@.len() == cp_src.states@.len());
            assert forall|k: int| 0 <= k < sv.len() implies states_view(cp_src)[k] == sv[k] by {
                assert(cp.states@[k].0 == cp_src.states@[k].0 && cp.states@[k].1@ == cp_src.states@[k].1@);
            }
            assert(states_view(cp_src) =~= sv);
            assert(restored_from(old(self).saved()[c], old(self).nodes(), self.nodes(), info));
            old(self).lemma_saved_defs();
            assert forall|d: int| 0 <= d < old(self).saved().len() && old(self).saved()[d].id == checkpoint_id
                implies restored_from(#[trigger] old(self).saved()[d], old(self).nodes(), self.nodes(), info) by {
                if d != c {
                    assert(old(self).saved()[c].id != old(self).saved()[d].id);
                }
            }
        }
        Some(info)
    }
}

impl Database {
    /// List all checkpoints, with their names.
    pub fn list_checkpoints(&self) -> (r: Vec<(CheckpointId, Option<&str>)>)
        ensures
            r@.len() == self.saved().len(),
            forall|i: int| 0 <= i < r@.len() ==> (#[trigger] r@[i]).0 == self.saved()[i].id && match self.saved()[i].name {
                Some(n) => r@[i].1 matches Some(s) && s@ == n@,
                None => r@[i].1 is None,
            },
    {
        let list = self.checkpoints.list();
        let mut r: Vec<(CheckpointId, Option<&str>)> = Vec::new();
        let mut i: usize = 0;
        while i < list.len()
            invariant
                i <= list@.len(),
                list@ == self.saved(),
                r@.len() == i,
                forall|j: int| 0 <= j < i ==> (#[trigger] r@[j]).0 == list@[j].id && match list@[j].name {
                    Some(n) => r@[j].1 matches Some(s) && s@ == n@,
                    None => r@[j].1 is None,
                },
            decreases list@.len() - i,
        {
            let c = &list[i];
            let name = match &c.name {
                Some(n) => Some(n.as_str()),
                None => None,
            };
            r.push((c.id, name));
            i = i + 1;
        }
        r
    }
}

} // verus!
