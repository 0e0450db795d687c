//! The DataflowGraph that manages nodes and dependencies.

use vstd::prelude::*;

use crate::change::Change;
use crate::collection::{Collection, add_to, count_of, occurrences};
use crate::dataflow::traits::{ValFlat, ValFn, ValInt, ValLess, ValPred};
use crate::tuple::{Val, val_clone};

verus! {

/// The identifier of a node: its position in the graph.
#[derive(Debug, Clone, Copy, PartialEq, Eq, Structural, Hash)]
pub struct NodeId(pub usize);

impl NodeId {
    pub fn index(&self) -> (r: usize)
        ensures
            r == self.0,
    {
        self.0
    }
}

/// What a node is.
pub enum NodeKind {
    /// A relation whose tuples are inserted and deleted by the user.
    Input { name: String },
    /// A relation computed from other relations.
    Derived { name: Option<String> },
    /// A variable that a feedback loop fills.
    Feedback { name: String },
}

/// How a node's state is computed from the states of other nodes (given by position).
pub enum NodeOp {
    /// The state is set from outside: inputs and feedback variables.
    Source,
    Transform { input: usize, func: Box<dyn ValFn> },
    Filter { input: usize, pred: Box<dyn ValPred> },
    FlatMap { input: usize, flat: Box<dyn ValFlat> },
    Join { left: usize, right: usize, key_left: Box<dyn ValFn>, key_right: Box<dyn ValFn> },
    Union { left: usize, right: usize },
    Distinct { input: usize },
    Difference { left: usize, right: usize },
    GroupSum { input: usize, key: Box<dyn ValFn>, weight: Box<dyn ValInt> },
    GroupBest { input: usize, key: Box<dyn ValFn>, value: Box<dyn ValFn>, better: Box<dyn ValLess> },
}

/// The positions of the nodes that an operation reads.
pub open spec fn op_inputs(op: &NodeOp) -> Seq<usize> {
    match op {
        NodeOp::Source => seq![],
        NodeOp::Transform { input, .. } => seq![*input],
        NodeOp::Filter { input, .. } => seq![*input],
        NodeOp::FlatMap { input, .. } => seq![*input],
        NodeOp::Join { left, right, .. } => seq![*left, *right],
        NodeOp::Union { left, right } => seq![*left, *right],
        NodeOp::Distinct { input } => seq![*input],
        NodeOp::Difference { left, right } => seq![*left, *right],
        NodeOp::GroupSum { input, .. } => seq![*input],
        NodeOp::GroupBest { input, .. } => seq![*input],
    }
}

/// The operations that an operation applies are well formed.
pub open spec fn op_wf(op: &NodeOp) -> bool {
    match op {
        NodeOp::Transform { func, .. } => func.wf(),
        NodeOp::Filter { pred, .. } => pred.wf(),
        NodeOp::FlatMap { flat, .. } => flat.wf(),
        NodeOp::Join { key_left, key_right, .. } => key_left.wf() && key_right.wf(),
        NodeOp::GroupSum { key, weight, .. } => key.wf() && weight.wf(),
        NodeOp::GroupBest { key, value, better, .. } => key.wf() && value.wf() && better.wf(),
        _ => true,
    }
}

/// A node of the graph.
pub struct Node {
    pub id: NodeId,
    pub kind: NodeKind,
    pub inputs: Vec<NodeId>,
    pub state: Collection<Val>,
    pub pending_changes: Vec<Change<Val>>,
    pub op: NodeOp,
    pub is_manual_input: bool,
    pub is_persistent: bool,
}

impl Node {
    pub open spec fn spec_is_feedback(&self) -> bool {
        self.kind is Feedback
    }

    pub fn is_feedback(&self) -> (r: bool)
        ensures
            r == self.spec_is_feedback(),
    {
        match self.kind {
            NodeKind::Feedback { .. } => true,
            _ => false,
        }
    }

    pub fn is_persistent(&self) -> (r: bool)
        ensures
            r == self.is_persistent,
    {
        self.is_persistent
    }
}

/// The dataflow graph managing all nodes and their dependencies.
pub struct DataflowGraph {
    nodes: Vec<Node>,
    name_to_id: Vec<(String, NodeId)>,
    /// Nodes that have pending changes and need propagation.
    dirty_nodes: Vec<NodeId>,
    /// Current commit ID (mirrored from the database).
    commit_id: u64,
}

/// A node's inputs are the nodes its operation reads, all created before it.
pub open spec fn node_wf(nodes: Seq<Node>, i: int) -> bool {
    let n = nodes[i];
    &&& n.id.0 == i
    &&& op_wf(&n.op)
    &&& !(n.op is Source) ==> {
        &&& n.inputs@.len() == op_inputs(&n.op).len()
        &&& forall|j: int| 0 <= j < n.inputs@.len() ==> (#[trigger] n.inputs@[j]).0 == op_inputs(&n.op)[j] && n.inputs@[j].0 < i
    }
    &&& (n.kind is Input) ==> n.inputs@.len() == 0
    &&& n.is_persistent ==> (n.kind is Input)
    &&& n.is_manual_input == (n.kind is Input)
    &&& (n.kind is Input) ==> n.op is Source
    &&& (n.kind is Feedback) ==> n.op is Source
    &&& (n.kind is Derived) ==> !(n.op is Source)
    &&& crate::collection::entries_agree(n.state)
}

impl DataflowGraph {
    /// The nodes, in order of creation.
    pub closed spec fn nodes(&self) -> Seq<Node> {
        self.nodes@
    }

    /// The node each name refers to; a later name replaces an earlier one.
    pub closed spec fn names(&self) -> Map<Seq<char>, NodeId> {
        names_map(self.name_to_id@)
    }

    /// The nodes marked dirty.
    pub closed spec fn dirty(&self) -> Set<NodeId> {
        self.dirty_nodes@.to_set()
    }

    pub closed spec fn spec_commit_id(&self) -> u64 {
        self.commit_id
    }

    /// Every node is well formed.
    pub open spec fn wf(&self) -> bool {
        forall|i: int| 0 <= i < self.nodes().len() ==> node_wf(self.nodes(), i)
    }

    pub fn new() -> (r: Self)
        ensures
            r.nodes().len() == 0,
            r.names() == Map::<Seq<char>, NodeId>::empty(),
            r.dirty() == Set::<NodeId>::empty(),
            r.spec_commit_id() == 0,
            r.wf(),
    {
        let r = DataflowGraph {
            nodes: Vec::new(),
            name_to_id: Vec::new(),
            dirty_nodes: Vec::new(),
            commit_id: 0,
        };
        assert(r.dirty_nodes@.to_set() =~= Set::<NodeId>::empty());
        r
    }

    /// Set the current commit ID (called by the database to sync).
    pub fn set_commit_id(&mut self, id: u64)
        ensures
            final(self).spec_commit_id() == id,
            final(self).nodes() == old(self).nodes(),
            final(self).names() == old(self).names(),
            final(self).dirty() == old(self).dirty(),
    {
        self.commit_id = id;
    }

    fn insert_name(&mut self, name: String, id: NodeId)
        ensures
            final(self).names() == old(self).names().insert(name@, id),
            final(self).nodes() == old(self).nodes(),
            final(self).dirty() == old(self).dirty(),
            final(self).spec_commit_id() == old(self).spec_commit_id(),
    {
        let ghost before = self.name_to_id@;
        self.name_to_id.push((name, id));
        proof {
            assert(self.name_to_id@.drop_last() =~= before);
        }
    }

    /// Create a new input node.
    pub fn create_input(&mut self, name: &str) -> (r: NodeId)
        requires
            old(self).wf(),
        ensures
            final(self).created_source(*old(self), r, name@, true, false),
    {
        self.create_input_internal(name, false)
    }

    /// Create a new persistent input node.
    /// Changes to persistent inputs are not recorded and survive pop().
    pub fn create_persistent_input(&mut self, name: &str) -> (r: NodeId)
        requires
            old(self).wf(),
        ensures
            final(self).created_source(*old(self), r, name@, true, true),
    {
        self.create_input_internal(name, true)
    }

    /// `self` is `old` with one more node, at position `r`: an empty source named `name`,
    /// an input if `input` holds and a feedback variable otherwise.
    pub open spec fn created_source(self, old: Self, r: NodeId, name: Seq<char>, input: bool, persistent: bool) -> bool {
        &&& r.0 == old.nodes().len()
        &&& self.nodes().len() == old.nodes().len() + 1
        &&& self.nodes().subrange(0, r.0 as int) == old.nodes()
        &&& self.nodes()[r.0 as int].state@ == Map::<crate::tuple::ValView, int>::empty()
        &&& self.nodes()[r.0 as int].pending_changes@.len() == 0
        &&& self.nodes()[r.0 as int].inputs@.len() == 0
        &&& self.nodes()[r.0 as int].op is Source
        &&& self.nodes()[r.0 as int].is_persistent == persistent
        &&& self.nodes()[r.0 as int].is_manual_input == input
        &&& input == (self.nodes()[r.0 as int].kind is Input)
        &&& !input == (self.nodes()[r.0 as int].kind is Feedback)
        &&& self.names() == old.names().insert(name, r)
        &&& self.dirty() == old.dirty()
        &&& self.spec_commit_id() == old.spec_commit_id()
        &&& self.wf()
    }

    fn create_input_internal(&mut self, name: &str, persistent: bool) -> (r: NodeId)
        requires
            old(self).wf(),
        ensures
            final(self).created_source(*old(self), r, name@, true, persistent),
    {
        let id = NodeId(self.nodes.len());
        let node = Node {
            id,
            kind: NodeKind::Input { name: name.to_owned() },
            inputs: Vec::new(),
            state: Collection::new(),
            pending_changes: Vec::new(),
            op: NodeOp::Source,
            is_manual_input: true,
            is_persistent: persistent,
        };
        let ghost before = self.nodes@;
        assert(before == old(self).nodes());
        assert(old(self).wf());
        assert(forall|k: int| 0 <= k < before.len() ==> node_wf(before, k));
        self.nodes.push(node);
        self.insert_name(name.to_owned(), id);
        proof {
            assert(self.nodes@.subrange(0, id.0 as int) =~= before);
            assert forall|i: int| 0 <= i < self.nodes().len() implies node_wf(self.nodes(), i) by {
                if i < before.len() {
                    assert(node_wf(before, i));
                    assert(self.nodes()[i] == before[i]);
                }
            }
        }
        id
    }

    /// Create a derived node computed by `op` from the nodes `inputs`.
    pub fn create_derived(&mut self, name: Option<&str>, inputs: Vec<NodeId>, op: NodeOp) -> (r: NodeId)
        requires
            old(self).wf(),
            op_wf(&op),
            !(op is Source),
            inputs@.len() == op_inputs(&op).len(),
            forall|j: int| 0 <= j < inputs@.len() ==> (#[trigger] inputs@[j]).0 == op_inputs(&op)[j] && inputs@[j].0 < old(self).nodes().len(),
        ensures
            r.0 == old(self).nodes().len(),
            final(self).nodes().len() == old(self).nodes().len() + 1,
            final(self).nodes().subrange(0, r.0 as int) == old(self).nodes(),
            final(self).nodes()[r.0 as int].state@ == Map::<crate::tuple::ValView, int>::empty(),
            final(self).nodes()[r.0 as int].pending_changes@.len() == 0,
            final(self).nodes()[r.0 as int].op == op,
            final(self).nodes()[r.0 as int].kind is Derived,
            !final(self).nodes()[r.0 as int].is_persistent,
            !final(self).nodes()[r.0 as int].is_manual_input,
            match name {
                Some(n) => final(self).names() == old(self).names().insert(n@, r),
                None => final(self).names() == old(self).names(),
            },
            final(self).dirty() == old(self).dirty(),
            final(self).spec_commit_id() == old(self).spec_commit_id(),
            final(self).wf(),
    {
        let id = NodeId(self.nodes.len());
        let node_name = match name {
            Some(s) => Some(s.to_owned()),
            None => None,
        };
        let node = Node {
            id,
            kind: NodeKind::Derived { name: node_name },
            inputs,
            state: Collection::new(),
            pending_changes: Vec::new(),
            op,
            is_manual_input: false,
            is_persistent: false,
        };
        let ghost before = self.nodes@;
        assert(before == old(self).nodes());
        assert(old(self).wf());
        assert(forall|k: int| 0 <= k < before.len() ==> node_wf(before, k));
        self.nodes.push(node);
        match name {
            Some(n) => {
                self.insert_name(n.to_owned(), id);
            },
            None => {},
        }
        proof {
            assert(self.nodes@.subrange(0, id.0 as int) =~= before);
            assert forall|i: int| 0 <= i < self.nodes().len() implies node_wf(self.nodes(), i) by {
                if i < before.len() {
                    assert(node_wf(before, i));
                    assert(self.nodes()[i] == before[i]);
                }
            }
        }
        id
    }

    /// Create a feedback node for fixed-point iteration.
    pub fn create_feedback(&mut self, name: &str) -> (r: NodeId)
        requires
            old(self).wf(),
        ensures
            final(self).created_source(*old(self), r, name@, false, false),
    {
        let id = NodeId(self.nodes.len());
        let node = Node {
            id,
            kind: NodeKind::Feedback { name: name.to_owned() },
            inputs: Vec::new(),
            state: Collection::new(),
            pending_changes: Vec::new(),
            op: NodeOp::Source,
            is_manual_input: false,
            is_persistent: false,
        };
        let ghost before = self.nodes@;
        assert(before == old(self).nodes());
        assert(old(self).wf());
        assert(forall|k: int| 0 <= k < before.len() ==> node_wf(before, k));
        self.nodes.push(node);
        self.insert_name(name.to_owned(), id);
        proof {
            assert(self.nodes@.subrange(0, id.0 as int) =~= before);
            assert forall|i: int| 0 <= i < self.nodes().len() implies node_wf(self.nodes(), i) by {
                if i < before.len() {
                    assert(node_wf(before, i));
                    assert(self.nodes()[i] == before[i]);
                }
            }
        }
        id
    }

    /// The number of nodes.
    pub fn len(&self) -> (r: usize)
        ensures
            r == self.nodes().len(),
    {
        self.nodes.len()
    }

    /// Get a node by ID.
    pub fn get(&self, id: NodeId) -> (r: &Node)
        requires
            id.0 < self.nodes().len(),
        ensures
            *r == self.nodes()[id.0 as int],
    {
        &self.nodes[id.0]
    }

    /// Get a mutable node by ID.
    pub fn get_mut(&mut self, id: NodeId) -> (r: &mut Node)
        requires
            id.0 < old(self).nodes().len(),
        ensures
            *r == old(self).nodes()[id.0 as int],
            final(self).nodes() == old(self).nodes().update(id.0 as int, *final(r)),
            final(self).names() == old(self).names(),
            final(self).dirty() == old(self).dirty(),
            final(self).spec_commit_id() == old(self).spec_commit_id(),
    {
        &mut self.nodes[id.0]
    }

    /// Replace the state of a node.
    pub fn set_state(&mut self, id: NodeId, state: Collection<Val>)
        requires
            id.0 < old(self).nodes().len(),
        ensures
            final(self).nodes().len() == old(self).nodes().len(),
            forall|i: int| 0 <= i < old(self).nodes().len() && i != id.0 ==> final(self).nodes()[i] == old(self).nodes()[i],
            final(self).nodes()[id.0 as int].state == state,
            final(self).nodes()[id.0 as int].id == old(self).nodes()[id.0 as int].id,
            final(self).nodes()[id.0 as int].kind == old(self).nodes()[id.0 as int].kind,
            final(self).nodes()[id.0 as int].inputs == old(self).nodes()[id.0 as int].inputs,
            final(self).nodes()[id.0 as int].op == old(self).nodes()[id.0 as int].op,
            final(self).nodes()[id.0 as int].pending_changes == old(self).nodes()[id.0 as int].pending_changes,
            final(self).nodes()[id.0 as int].is_manual_input == old(self).nodes()[id.0 as int].is_manual_input,
            final(self).nodes()[id.0 as int].is_persistent == old(self).nodes()[id.0 as int].is_persistent,
            final(self).names() == old(self).names(),
            final(self).dirty() == old(self).dirty(),
            final(self).spec_commit_id() == old(self).spec_commit_id(),
            old(self).wf() ==> final(self).wf(),
    {
        let ghost before = self.nodes@;
        state.entries_match_view();
        let node = &mut self.nodes[id.0];
        node.state = state;
        proof {
            assert forall|i: int| 0 <= i < self.nodes().len() && before.len() == self.nodes().len() && (forall|k: int| 0 <= k < before.len() ==> node_wf(before, k)) implies node_wf(self.nodes(), i) by {
                assert(node_wf(before, i));
            }
        }
    }

    /// Apply a change to the state of a node, and append it to the node's pending changes.
    pub fn apply_change_at(&mut self, id: NodeId, change: Change<Val>)
        requires
            id.0 < old(self).nodes().len(),
            i64::MIN <= count_of(old(self).nodes()[id.0 as int].state@, change.tuple@) + change.diff.0 <= i64::MAX,
        ensures
            final(self).nodes().len() == old(self).nodes().len(),
            forall|i: int| 0 <= i < old(self).nodes().len() && i != id.0 ==> final(self).nodes()[i] == old(self).nodes()[i],
            final(self).nodes()[id.0 as int].state@ == crate::collection::change_at(old(self).nodes()[id.0 as int].state@, change.tuple@, change.diff.0 as int),
            final(self).nodes()[id.0 as int].pending_changes@ == old(self).nodes()[id.0 as int].pending_changes@.push(change),
            final(self).nodes()[id.0 as int].id == old(self).nodes()[id.0 as int].id,
            final(self).nodes()[id.0 as int].kind == old(self).nodes()[id.0 as int].kind,
            final(self).nodes()[id.0 as int].inputs == old(self).nodes()[id.0 as int].inputs,
            final(self).nodes()[id.0 as int].op == old(self).nodes()[id.0 as int].op,
            final(self).nodes()[id.0 as int].is_manual_input == old(self).nodes()[id.0 as int].is_manual_input,
            final(self).nodes()[id.0 as int].is_persistent == old(self).nodes()[id.0 as int].is_persistent,
            final(self).names() == old(self).names(),
            final(self).dirty() == old(self).dirty(),
            final(self).spec_commit_id() == old(self).spec_commit_id(),
            old(self).wf() ==> final(self).wf(),
    {
        let ghost before = self.nodes@;
        let c2 = Change::new(val_clone(&change.tuple), change.diff);
        let node = &mut self.nodes[id.0];
        node.state.apply_change(c2);
        node.state.entries_match_view();
        node.pending_changes.push(change);
        proof {
            assert forall|i: int| 0 <= i < self.nodes().len() && before.len() == self.nodes().len() && (forall|k: int| 0 <= k < before.len() ==> node_wf(before, k)) implies node_wf(self.nodes(), i) by {
                assert(node_wf(before, i));
            }
        }
    }

    /// Set the inputs of a source node (the relations a feedback variable is fed from).
    pub fn set_inputs(&mut self, id: NodeId, inputs: Vec<NodeId>)
        requires
            id.0 < old(self).nodes().len(),
            old(self).nodes()[id.0 as int].kind is Feedback,
        ensures
            final(self).nodes().len() == old(self).nodes().len(),
            forall|i: int| 0 <= i < old(self).nodes().len() && i != id.0 ==> final(self).nodes()[i] == old(self).nodes()[i],
            final(self).nodes()[id.0 as int].inputs == inputs,
            final(self).nodes()[id.0 as int].state == old(self).nodes()[id.0 as int].state,
            final(self).nodes()[id.0 as int].id == old(self).nodes()[id.0 as int].id,
            final(self).nodes()[id.0 as int].kind == old(self).nodes()[id.0 as int].kind,
            final(self).nodes()[id.0 as int].op == old(self).nodes()[id.0 as int].op,
            final(self).nodes()[id.0 as int].pending_changes == old(self).nodes()[id.0 as int].pending_changes,
            final(self).nodes()[id.0 as int].is_manual_input == old(self).nodes()[id.0 as int].is_manual_input,
            final(self).nodes()[id.0 as int].is_persistent == old(self).nodes()[id.0 as int].is_persistent,
            final(self).names() == old(self).names(),
            final(self).dirty() == old(self).dirty(),
            final(self).spec_commit_id() == old(self).spec_commit_id(),
            old(self).wf() ==> final(self).wf(),
    {
        let ghost before = self.nodes@;
        let node = &mut self.nodes[id.0];
        node.inputs = inputs;
        proof {
            assert forall|i: int| 0 <= i < self.nodes().len() && before.len() == self.nodes().len() && (forall|k: int| 0 <= k < before.len() ==> node_wf(before, k)) implies node_wf(self.nodes(), i) by {
                assert(node_wf(before, i));
            }
        }
    }

    /// Get a node ID by name.
    pub fn get_id(&self, name: &str) -> (r: Option<NodeId>)
        ensures
            match r {
                Some(id) => self.names().contains_key(name@) && self.names()[name@] == id,
                None => !self.names().contains_key(name@),
            },
    {
        let target = name.to_owned();
        let mut i = self.name_to_id.len();
        while i > 0
            invariant
                i <= self.name_to_id@.len(),
                target@ == name@,
                forall|j: int| i <= j < self.name_to_id@.len() ==> self.name_to_id@[j].0@ != name@,
            decreases i,
        {
            i = i - 1;
            if self.name_to_id[i].0 == target {
                proof {
                    lemma_names_map_last(self.name_to_id@, i as int, name@);
                }
                return Some(self.name_to_id[i].1);
            }
        }
        proof {
            lemma_names_map_absent(self.name_to_id@, name@);
        }
        None
    }

    /// Mark a node as having pending changes.
    pub fn mark_dirty(&mut self, id: NodeId)
        ensures
            final(self).dirty() == old(self).dirty().insert(id),
            final(self).nodes() == old(self).nodes(),
            final(self).names() == old(self).names(),
            final(self).spec_commit_id() == old(self).spec_commit_id(),
    {
        let ghost before = self.dirty_nodes@;
        self.dirty_nodes.push(id);
        assert(self.dirty_nodes@.to_set() =~= before.to_set().insert(id)) by {
            assert(self.dirty_nodes@ == before.push(id));
            before.lemma_push_to_set_commute(id);
        }
    }

    /// Clear all dirty flags.
    pub fn clear_dirty(&mut self)
        ensures
            final(self).dirty() == Set::<NodeId>::empty(),
            final(self).nodes() == old(self).nodes(),
            final(self).names() == old(self).names(),
            final(self).spec_commit_id() == old(self).spec_commit_id(),
    {
        self.dirty_nodes = Vec::new();
        assert(self.dirty_nodes@.to_set() =~= Set::<NodeId>::empty());
    }

    /// Get all node IDs, in order of creation.
    pub fn node_ids(&self) -> (r: Vec<NodeId>)
        ensures
            r@.len() == self.nodes().len(),
            forall|i: int| 0 <= i < r@.len() ==> (#[trigger] r@[i]).0 == i,
    {
        let mut r: Vec<NodeId> = Vec::new();
        let mut i: usize = 0;
        while i < self.nodes.len()
            invariant
                i <= self.nodes@.len(),
                r@.len() == i,
                forall|j: int| 0 <= j < i ==> (#[trigger] r@[j]).0 == j,
            decreases self.nodes@.len() - i,
        {
            r.push(NodeId(i));
            i = i + 1;
        }
        r
    }
    /// A topological order of the nodes: every node comes after the nodes it reads.
    /// A feedback variable is set from outside, so it waits for nothing.
    pub fn topo_order(&self) -> (r: Vec<NodeId>)
        requires
            self.wf(),
        ensures
            is_topo_order(self.nodes(), r@),
    {
        let ghost nodes = self.nodes@;
        let n = self.nodes.len();
        proof {
            lemma_wf_acyclic(nodes);
        }
        let mut in_degree: Vec<usize> = Vec::new();
        let mut j: usize = 0;
        while j < n
            invariant
                n == nodes.len(),
                nodes == self.nodes@,
                j <= n,
                in_degree@.len() == j,
                forall|k: int| 0 <= k < j ==> #[trigger] in_degree@[k] == order_preds(nodes, k).len(),
            decreases n - j,
        {
            let d = if self.nodes[j].is_feedback() {
                0
            } else {
                self.nodes[j].inputs.len()
            };
            in_degree.push(d);
            j = j + 1;
        }
        let mut queue: Vec<NodeId> = Vec::new();
        let mut j: usize = 0;
        while j < n
            invariant
                n == nodes.len(),
                j <= n,
                in_degree@.len() == n,
                forall|k: int| 0 <= k < n ==> #[trigger] in_degree@[k] == order_preds(nodes, k).len(),
                forall|a: int| 0 <= a < queue@.len() ==> (#[trigger] queue@[a]).0 < j && order_preds(nodes, queue@[a].0 as int).len() == 0,
                forall|a: int, b: int| 0 <= a < b < queue@.len() ==> queue@[a] != queue@[b],
                forall|k: int| 0 <= k < j ==> (queued(queue@, k) <==> order_preds(nodes, k).len() == 0),
            decreases n - j,
        {
            let ghost before = queue@;
            if in_degree[j] == 0 {
                queue.push(NodeId(j));
                proof {
                    assert(queue@[queue@.len() - 1].0 == j);
                }
            }
            proof {
                assert forall|k: int| 0 <= k < j + 1 implies (queued(queue@, k) <==> order_preds(nodes, k).len() == 0) by {
                    if k == j {
                        if in_degree@[k] == 0 {
                            assert(queue@[queue@.len() - 1].0 == k);
                        } else if queued(queue@, k) {
                            let a = choose|a: int| 0 <= a < queue@.len() && queue@[a].0 == k;
                            assert(queue@ == before);
                            assert(before[a].0 < j);
                        }
                    } else {
                        if queued(queue@, k) {
                            let a = choose|a: int| 0 <= a < queue@.len() && queue@[a].0 == k;
                            if a < before.len() {
                                assert(queue@[a] == before[a]);
                            } else {
                                assert(queue@[a].0 == j);
                            }
                        }
                        if queued(before, k) {
                            let a = choose|a: int| 0 <= a < before.len() && before[a].0 == k;
                            assert(queue@[a] == before[a]);
                        }
                    }
                }
                assert(waits_respected(nodes, queue@)) by {
                    assert forall|b: int, t: int| 0 <= b < queue@.len() && 0 <= t < order_preds(nodes, queue@[b].0 as int).len()
                        implies #[trigger] appears_before(queue@, b, order_preds(nodes, queue@[b].0 as int)[t]) by {
                        assert(order_preds(nodes, queue@[b].0 as int).len() == 0);
                    }
                }
            }
            j = j + 1;
        }
        proof {
            assert forall|k: int| 0 <= k < n implies #[trigger] in_degree@[k] == count_outside(order_preds(nodes, k), prefix_set(queue@, 0)) by {
                lemma_count_outside_none(order_preds(nodes, k), prefix_set(queue@, 0));
            }
            assert(waits_respected(nodes, queue@)) by {
                assert forall|b: int, t: int| 0 <= b < queue@.len() && 0 <= t < order_preds(nodes, queue@[b].0 as int).len()
                    implies #[trigger] appears_before(queue@, b, order_preds(nodes, queue@[b].0 as int)[t]) by {
                    assert(order_preds(nodes, queue@[b].0 as int).len() == 0);
                }
            }
        }
        let mut head: usize = 0;
        while head < queue.len()
            invariant
                n == nodes.len(),
                nodes == self.nodes@,
                forall|k: int, t: int| 0 <= k < n && 0 <= t < order_preds(nodes, k).len() ==> (#[trigger] order_preds(nodes, k)[t]).0 < k,
                in_degree@.len() == n,
                head <= queue@.len(),
                forall|a: int| 0 <= a < queue@.len() ==> (#[trigger] queue@[a]).0 < n,
                forall|a: int, b: int| 0 <= a < b < queue@.len() ==> queue@[a] != queue@[b],
                forall|k: int| 0 <= k < n ==> #[trigger] in_degree@[k] == count_outside(order_preds(nodes, k), prefix_set(queue@, head as int)),
                forall|k: int| 0 <= k < n ==> (queued(queue@, k) <==> in_degree@[k] == 0),
                waits_respected(nodes, queue@),
            decreases n - head,
        {
            proof {
                lemma_distinct_ids_bound(queue@, n as int);
            }
            let id = queue[head];
            let ghost d0 = prefix_set(queue@, head as int);
            head = head + 1;
            let ghost d1 = prefix_set(queue@, head as int);
            let ghost q0 = queue@;
            proof {
                assert(!d0.contains(id)) by {
                    if d0.contains(id) {
                        let a = choose|a: int| 0 <= a < head - 1 && queue@[a] == id;
                    }
                }
                assert(d1 =~= d0.insert(id)) by {
                    assert forall|x: NodeId| d1.contains(x) implies d0.insert(id).contains(x) by {
                        let a = choose|a: int| 0 <= a < head && queue@[a] == x;
                        if a < head - 1 {
                            assert(d0.contains(x));
                        }
                    }
                    assert forall|x: NodeId| d0.insert(id).contains(x) implies d1.contains(x) by {
                        if x == id {
                            assert(queue@[head - 1] == x);
                        } else {
                            let a = choose|a: int| 0 <= a < head - 1 && queue@[a] == x;
                        }
                    }
                }
            }
            let mut k: usize = 0;
            while k < n
                invariant
                    n == nodes.len(),
                    nodes == self.nodes@,
                    forall|k2: int, t: int| 0 <= k2 < n && 0 <= t < order_preds(nodes, k2).len() ==> (#[trigger] order_preds(nodes, k2)[t]).0 < k2,
                    k <= n,
                    in_degree@.len() == n,
                    1 <= head <= q0.len(),
                    id == q0[head - 1],
                    !d0.contains(id),
                    d1 == d0.insert(id),
                    d0 == prefix_set(q0, head - 1),
                    d1 == prefix_set(q0, head as int),
                    q0.len() <= queue@.len(),
                    queue@.subrange(0, q0.len() as int) == q0,
                    forall|a: int| 0 <= a < queue@.len() ==> (#[trigger] queue@[a]).0 < n,
                    forall|a: int| q0.len() <= a < queue@.len() ==> (#[trigger] queue@[a]).0 < k,
                    forall|a: int, b: int| 0 <= a < b < queue@.len() ==> queue@[a] != queue@[b],
                    forall|k2: int| 0 <= k2 < k ==> #[trigger] in_degree@[k2] == count_outside(order_preds(nodes, k2), d1),
                    forall|k2: int| k <= k2 < n ==> #[trigger] in_degree@[k2] == count_outside(order_preds(nodes, k2), d0),
                    forall|k2: int| 0 <= k2 < n ==> (queued(queue@, k2) <==> in_degree@[k2] == 0),
                    waits_respected(nodes, queue@),
                decreases n - k,
            {
                let ghost preds = order_preds(nodes, k as int);
                proof {
                    lemma_count_outside_step(preds, d0, id);
                    lemma_count_outside_bounds(preds, d0);
                }
                if !self.nodes[k].is_feedback() {
                    let inputs = &self.nodes[k].inputs;
                    let mut c: usize = 0;
                    let mut t: usize = 0;
                    while t < inputs.len()
                        invariant
                            preds == inputs@,
                            t <= inputs@.len(),
                            c == occurrences(inputs@.subrange(0, t as int), id),
                            c <= t,
                        decreases inputs@.len() - t,
                    {
                        proof {
                            assert(inputs@.subrange(0, t as int) =~= inputs@.subrange(0, t + 1).drop_last());
                        }
                        if inputs[t] == id {
                            c = c + 1;
                        }
                        t = t + 1;
                    }
                    proof {
                        assert(inputs@.subrange(0, t as int) =~= inputs@);
                    }
                    if c > 0 {
                        let ghost before = queue@;
                        in_degree.set(k, in_degree[k] - c);
                        if in_degree[k] == 0 {
                            proof {
                                assert(!queued(before, k as int));
                            }
                            queue.push(NodeId(k));
                            proof {
                                assert(queue@[queue@.len() - 1].0 == k);
                                assert forall|a: int, b: int| 0 <= a < b < queue@.len() implies queue@[a] != queue@[b] by {
                                    if b == queue@.len() - 1 {
                                        assert(queue@[a] == before[a]);
                                        if queue@[a] == queue@[b] {
                                            assert(before[a].0 == k);
                                        }
                                    }
                                }
                                lemma_count_outside_bounds(preds, d1);
                                assert(queue@ == before.push(NodeId(k as usize)));
                                assert(order_preds(nodes, k as int) == preds);
                                lemma_waits_push(nodes, before, k as int, q0, head as int);
                            }
                        }
                        proof {
                            assert forall|k2: int| 0 <= k2 < n implies (queued(queue@, k2) <==> in_degree@[k2] == 0) by {
                                if k2 != k {
                                    if queued(queue@, k2) {
                                        let a = choose|a: int| 0 <= a < queue@.len() && queue@[a].0 == k2;
                                        if a < before.len() {
                                            assert(queue@[a] == before[a]);
                                        }
                                    }
                                    if queued(before, k2) {
                                        let a = choose|a: int| 0 <= a < before.len() && before[a].0 == k2;
                                        assert(queue@[a] == before[a]);
                                    }
                                } else if in_degree@[k2] == 0 {
                                    assert(queue@[queue@.len() - 1].0 == k2);
                                } else {
                                    assert(queue@ == before);
                                }
                            }
                        }
                    }
                } else {
                    proof {
                        assert(preds.len() == 0);
                    }
                }
                proof {
                    assert(queue@.subrange(0, q0.len() as int) =~= q0) by {
                        assert forall|a: int| 0 <= a < q0.len() implies queue@[a] == q0[a] by {}
                    }
                }
                k = k + 1;
            }
            proof {
                assert(prefix_set(queue@, head as int) =~= d1) by {
                    assert forall|x: NodeId| prefix_set(queue@, head as int).contains(x) implies d1.contains(x) by {
                        let a = choose|a: int| 0 <= a < head && queue@[a] == x;
                        assert(queue@[a] == q0[a]);
                    }
                    assert forall|x: NodeId| d1.contains(x) implies prefix_set(queue@, head as int).contains(x) by {
                        let a = choose|a: int| 0 <= a < head && q0[a] == x;
                        assert(queue@[a] == q0[a]);
                    }
                }
            }
        }
        proof {
            let q = queue@;
            assert(prefix_set(q, head as int) == prefix_set(q, q.len() as int));
            assert forall|k2: int| 0 <= k2 < n implies (queued(q, k2) <==> count_outside(order_preds(nodes, k2), prefix_set(q, q.len() as int)) == 0) by {
                assert(in_degree@[k2] == count_outside(order_preds(nodes, k2), prefix_set(q, head as int)));
            }
            assert forall|j2: int| 0 <= j2 < n implies queued(q, j2) by {
                lemma_all_queued(nodes, q, j2);
            }
            lemma_order_length(q, n as int);
        }
        queue
    }
}

/// The nodes that node `j` waits for in a propagation order: its inputs, except for a
/// feedback variable, whose state is set from outside.
pub open spec fn order_preds(nodes: Seq<Node>, j: int) -> Seq<NodeId> {
    if nodes[j].kind is Feedback {
        Seq::empty()
    } else {
        nodes[j].inputs@
    }
}

/// Node `j` occurs in `q`.
pub open spec fn queued(q: Seq<NodeId>, j: int) -> bool {
    exists|a: int| 0 <= a < q.len() && q[a].0 == j
}

/// The nodes among the first `h` of `q`.
pub open spec fn prefix_set(q: Seq<NodeId>, h: int) -> Set<NodeId> {
    Set::new(|x: NodeId| exists|a: int| 0 <= a < h && q[a] == x)
}

/// `order` lists every node once, each after every node it waits for.
pub open spec fn is_topo_order(nodes: Seq<Node>, order: Seq<NodeId>) -> bool {
    &&& order.len() == nodes.len()
    &&& forall|a: int| 0 <= a < order.len() ==> (#[trigger] order[a]).0 < nodes.len()
    &&& forall|a: int, b: int| 0 <= a < b < order.len() ==> order[a] != order[b]
    &&& waits_respected(nodes, order)
}

/// The number of elements of `s` outside `done`, counted with repetition.
pub open spec fn count_outside(s: Seq<NodeId>, done: Set<NodeId>) -> nat
    decreases s.len(),
{
    if s.len() == 0 {
        0
    } else {
        count_outside(s.drop_last(), done) + if done.contains(s.last()) {
            0nat
        } else {
            1nat
        }
    }
}

/// Every node of `q` comes after each node it waits for.
pub open spec fn waits_respected(nodes: Seq<Node>, q: Seq<NodeId>) -> bool {
    forall|b: int, t: int| 0 <= b < q.len() && 0 <= t < order_preds(nodes, q[b].0 as int).len()
        ==> #[trigger] appears_before(q, b, order_preds(nodes, q[b].0 as int)[t])
}

/// `x` is among the first `b` entries of `q`.
pub open spec fn appears_before(q: Seq<NodeId>, b: int, x: NodeId) -> bool {
    exists|a: int| 0 <= a < b && q[a] == x
}

/// Appending a node all of whose awaited nodes are among the first `head` entries of a prefix
/// `q0` keeps the order respecting what each node waits for.
pub proof fn lemma_waits_push(nodes: Seq<Node>, before: Seq<NodeId>, k: int, q0: Seq<NodeId>, head: int)
    requires
        waits_respected(nodes, before),
        0 <= k <= usize::MAX,
        0 <= head <= q0.len() <= before.len(),
        forall|a: int| 0 <= a < q0.len() ==> before[a] == q0[a],
        forall|t: int| 0 <= t < order_preds(nodes, k).len() ==> prefix_set(q0, head).contains(#[trigger] order_preds(nodes, k)[t]),
    ensures
        waits_respected(nodes, before.push(NodeId(k as usize))),
{
    let q = before.push(NodeId(k as usize));
    assert(waits_respected(nodes, q)) by {
    assert forall|b: int, t2: int| 0 <= b < q.len() && 0 <= t2 < order_preds(nodes, q[b].0 as int).len()
        implies #[trigger] appears_before(q, b, order_preds(nodes, q[b].0 as int)[t2]) by {
        if b < q.len() - 1 {
            assert(q[b] == before[b]);
            let pr = order_preds(nodes, before[b].0 as int)[t2];
            assert(appears_before(before, b, pr));
            let a = choose|a: int| 0 <= a < b && before[a] == pr;
            assert(q[a] == before[a]);
        } else {
            assert(q[b].0 == k);
            let pr = order_preds(nodes, k)[t2];
            assert(prefix_set(q0, head).contains(pr));
            let a = choose|a: int| 0 <= a < head && q0[a] == pr;
            assert(q[a] == before[a]);
            assert(0 <= a < b && q[a] == order_preds(nodes, q[b].0 as int)[t2]);
        }
    }
    }
}

/// When no element is done, every element counts.
pub proof fn lemma_count_outside_none(s: Seq<NodeId>, done: Set<NodeId>)
    requires
        forall|x: NodeId| !done.contains(x),
    ensures
        count_outside(s, done) == s.len(),
    decreases s.len(),
{
    if s.len() > 0 {
        lemma_count_outside_none(s.drop_last(), done);
    }
}

/// In a well-formed graph every node waits only for nodes created before it.
pub proof fn lemma_wf_acyclic(nodes: Seq<Node>)
    requires
        forall|i: int| 0 <= i < nodes.len() ==> node_wf(nodes, i),
    ensures
        forall|k: int, t: int| 0 <= k < nodes.len() && 0 <= t < order_preds(nodes, k).len() ==> (#[trigger] order_preds(nodes, k)[t]).0 < k,
{
    assert forall|k: int, t: int| 0 <= k < nodes.len() && 0 <= t < order_preds(nodes, k).len() implies (#[trigger] order_preds(nodes, k)[t]).0 < k by {
        assert(node_wf(nodes, k));
        assert(nodes[k].inputs@[t].0 < k);
    }
}

/// A count outside `done` is at most the length, and is zero exactly when every element is done.
pub proof fn lemma_count_outside_bounds(s: Seq<NodeId>, done: Set<NodeId>)
    ensures
        count_outside(s, done) <= s.len(),
        count_outside(s, done) == 0 <==> forall|t: int| 0 <= t < s.len() ==> done.contains(#[trigger] s[t]),
    decreases s.len(),
{
    if s.len() > 0 {
        let p = s.drop_last();
        lemma_count_outside_bounds(p, done);
        assert forall|t: int| 0 <= t < p.len() implies p[t] == s[t] by {}
        if count_outside(s, done) == 0 {
            assert forall|t: int| 0 <= t < s.len() implies done.contains(#[trigger] s[t]) by {
                if t < p.len() {
                    assert(done.contains(p[t]));
                }
            }
        }
        if forall|t: int| 0 <= t < s.len() ==> done.contains(#[trigger] s[t]) {
            assert forall|t: int| 0 <= t < p.len() implies done.contains(#[trigger] p[t]) by {
                assert(done.contains(s[t]));
            }
            assert(done.contains(s[s.len() - 1]));
        }
    }
}

/// Marking `id` done removes its occurrences from the count.
pub proof fn lemma_count_outside_step(s: Seq<NodeId>, done: Set<NodeId>, id: NodeId)
    requires
        !done.contains(id),
    ensures
        count_outside(s, done.insert(id)) + occurrences(s, id) == count_outside(s, done),
    decreases s.len(),
{
    if s.len() > 0 {
        lemma_count_outside_step(s.drop_last(), done, id);
    }
}

/// Distinct nodes below `n` are at most `n`.
pub proof fn lemma_distinct_ids_bound(q: Seq<NodeId>, n: int)
    requires
        0 <= n,
        forall|a: int| 0 <= a < q.len() ==> (#[trigger] q[a]).0 < n,
        forall|a: int, b: int| 0 <= a < b < q.len() ==> q[a] != q[b],
    ensures
        q.len() <= n,
{
    let ids = q.map_values(|x: NodeId| x.0 as int);
    assert(ids.no_duplicates()) by {
        assert forall|a: int, b: int| 0 <= a < ids.len() && 0 <= b < ids.len() && a != b implies ids[a] != ids[b] by {
            if a < b {
                assert(q[a] != q[b]);
            } else {
                assert(q[b] != q[a]);
            }
        }
    }
    ids.unique_seq_to_set();
    vstd::set_lib::lemma_int_range(0, n);
    assert(ids.to_set().subset_of(vstd::set_lib::set_int_range(0, n))) by {
        assert forall|x: int| ids.to_set().contains(x) implies vstd::set_lib::set_int_range(0, n).contains(x) by {
            let a = choose|a: int| 0 <= a < ids.len() && ids[a] == x;
            assert(q[a].0 < n);
        }
    }
    vstd::set_lib::lemma_len_subset(ids.to_set(), vstd::set_lib::set_int_range(0, n));
}

/// An order of distinct nodes below `n` that holds each of them has length `n`.
pub proof fn lemma_order_length(q: Seq<NodeId>, n: int)
    requires
        0 <= n,
        forall|a: int| 0 <= a < q.len() ==> (#[trigger] q[a]).0 < n,
        forall|a: int, b: int| 0 <= a < b < q.len() ==> q[a] != q[b],
        forall|j: int| 0 <= j < n ==> queued(q, j),
    ensures
        q.len() == n,
{
    lemma_distinct_ids_bound(q, n);
    let ids = q.map_values(|x: NodeId| x.0 as int);
    assert(ids.no_duplicates()) by {
        assert forall|a: int, b: int| 0 <= a < ids.len() && 0 <= b < ids.len() && a != b implies ids[a] != ids[b] by {
            if a < b {
                assert(q[a] != q[b]);
            } else {
                assert(q[b] != q[a]);
            }
        }
    }
    ids.unique_seq_to_set();
    vstd::set_lib::lemma_int_range(0, n);
    assert(vstd::set_lib::set_int_range(0, n).subset_of(ids.to_set())) by {
        assert forall|x: int| vstd::set_lib::set_int_range(0, n).contains(x) implies ids.to_set().contains(x) by {
            assert(queued(q, x));
            let a = choose|a: int| 0 <= a < q.len() && q[a].0 == x;
            assert(ids[a] == x);
        }
    }
    vstd::set_lib::lemma_len_subset(vstd::set_lib::set_int_range(0, n), ids.to_set());
}

/// When every node is queued exactly when all it waits for is queued, and every node waits
/// only for earlier ones, every node is queued.
pub proof fn lemma_all_queued(nodes: Seq<Node>, q: Seq<NodeId>, j: int)
    requires
        0 <= j < nodes.len(),
        forall|k: int, t: int| 0 <= k < nodes.len() && 0 <= t < order_preds(nodes, k).len() ==> (#[trigger] order_preds(nodes, k)[t]).0 < k,
        forall|k: int| 0 <= k < nodes.len() ==> (queued(q, k) <==> count_outside(order_preds(nodes, k), prefix_set(q, q.len() as int)) == 0),
    ensures
        queued(q, j),
    decreases j,
{
    let preds = order_preds(nodes, j);
    let done = prefix_set(q, q.len() as int);
    lemma_count_outside_bounds(preds, done);
    if !queued(q, j) {
        let t = choose|t: int| 0 <= t < preds.len() && !done.contains(preds[t]);
        let p = preds[t].0 as int;
        assert(p < j);
        lemma_all_queued(nodes, q, p);
        let a = choose|a: int| 0 <= a < q.len() && q[a].0 == p;
        assert(q[a] == preds[t]);
        assert(done.contains(preds[t]));
    }
}

/// The map from names to nodes that `s` builds, a later entry replacing an earlier one.
pub open spec fn names_map(s: Seq<(String, NodeId)>) -> Map<Seq<char>, NodeId>
    decreases s.len(),
{
    if s.len() == 0 {
        Map::empty()
    } else {
        names_map(s.drop_last()).insert(s.last().0@, s.last().1)
    }
}

proof fn lemma_names_map_last(s: Seq<(String, NodeId)>, i: int, name: Seq<char>)
    requires
        0 <= i < s.len(),
        s[i].0@ == name,
        forall|j: int| i < j < s.len() ==> s[j].0@ != name,
    ensures
        names_map(s).contains_key(name),
        names_map(s)[name] == s[i].1,
    decreases s.len(),
{
    if i < s.len() - 1 {
        lemma_names_map_last(s.drop_last(), i, name);
    }
}

proof fn lemma_names_map_absent(s: Seq<(String, NodeId)>, name: Seq<char>)
    requires
        forall|j: int| 0 <= j < s.len() ==> s[j].0@ != name,
    ensures
        !names_map(s).contains_key(name),
    decreases s.len(),
{
    if s.len() > 0 {
        lemma_names_map_absent(s.drop_last(), name);
    }
}

} // verus!
