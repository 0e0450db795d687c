//! Checkpoint system for backtracking state.
//!
//! Checkpoints save the states of the nodes of a database, allowing you to go back after
//! making changes. Manual inputs are not reverted on restore: the user decides what to keep.

use vstd::prelude::*;
use vstd::string::StringExecFns;

use crate::collection::Collection;
use crate::dataflow::graph::NodeId;
use crate::tuple::Val;

verus! {

/// A unique identifier for a checkpoint.
#[derive(Debug, Clone, Copy, PartialEq, Eq, Structural, Hash)]
pub struct CheckpointId(pub usize);

impl CheckpointId {
    pub fn index(&self) -> (r: usize)
        ensures
            r == self.0,
    {
        self.0
    }
}

/// A checkpoint capturing the states of the nodes of a database at a point in time.
pub struct Checkpoint {
    /// Unique identifier for this checkpoint.
    pub id: CheckpointId,
    /// Optional name for the checkpoint.
    pub name: Option<String>,
    /// The saved state of each node.
    pub states: Vec<(NodeId, Collection<Val>)>,
    /// Which nodes are manual inputs (not reverted on restore).
    pub manual_inputs: Vec<NodeId>,
}

/// The character of decimal digit `d`.
pub open spec fn digit_char(d: nat) -> char {
    if d == 0 {
        '0'
    } else if d == 1 {
        '1'
    } else if d == 2 {
        '2'
    } else if d == 3 {
        '3'
    } else if d == 4 {
        '4'
    } else if d == 5 {
        '5'
    } else if d == 6 {
        '6'
    } else if d == 7 {
        '7'
    } else if d == 8 {
        '8'
    } else {
        '9'
    }
}

/// The decimal representation of `n`, without leading zeros.
pub open spec fn decimal(n: nat) -> Seq<char>
    decreases n,
{
    if n < 10 {
        seq![digit_char(n)]
    } else {
        decimal(n / 10) + seq![digit_char(n % 10)]
    }
}

fn digit_str(d: usize) -> (r: &'static str)
    requires
        d < 10,
    ensures
        r@ == seq![digit_char(d as nat)],
{
    if d == 0 {
        proof { reveal_strlit("0"); }
        "0"
    } else if d == 1 {
        proof { reveal_strlit("1"); }
        "1"
    } else if d == 2 {
        proof { reveal_strlit("2"); }
        "2"
    } else if d == 3 {
        proof { reveal_strlit("3"); }
        "3"
    } else if d == 4 {
        proof { reveal_strlit("4"); }
        "4"
    } else if d == 5 {
        proof { reveal_strlit("5"); }
        "5"
    } else if d == 6 {
        proof { reveal_strlit("6"); }
        "6"
    } else if d == 7 {
        proof { reveal_strlit("7"); }
        "7"
    } else if d == 8 {
        proof { reveal_strlit("8"); }
        "8"
    } else {
        proof { reveal_strlit("9"); }
        "9"
    }
}

/// Append the decimal representation of `n` to `out`.
fn push_decimal(out: &mut String, n: usize)
    ensures
        final(out)@ == old(out)@ + decimal(n as nat),
    decreases n,
{
    if n >= 10 {
        push_decimal(out, n / 10);
    }
    out.append(digit_str(n % 10));
    proof {
        if n >= 10 {
            assert(decimal(n as nat) == decimal((n / 10) as nat) + seq![digit_char((n % 10) as nat)]);
        }
    }
}

impl Checkpoint {
    pub fn new(id: CheckpointId, name: Option<String>) -> (r: Self)
        ensures
            r.id == id,
            r.name == name,
            r.states@.len() == 0,
            r.manual_inputs@.len() == 0,
    {
        Checkpoint { id, name, states: Vec::new(), manual_inputs: Vec::new() }
    }

    /// The checkpoint's name, or `checkpoint_` followed by its number.
    pub fn display_name(&self) -> (r: String)
        ensures
            r@ == match self.name {
                Some(n) => n@,
                None => "checkpoint_"@ + decimal(self.id.0 as nat),
            },
    {
        match &self.name {
            Some(n) => n.clone(),
            None => {
                let mut s = String::from_str("checkpoint_");
                push_decimal(&mut s, self.id.0);
                s
            },
        }
    }

    /// A copy of the checkpoint, with copies of its states.
    pub fn duplicate(&self) -> (r: Self)
        ensures
            r.id == self.id,
            r.name == self.name,
            r.states@.len() == self.states@.len(),
            forall|i: int| 0 <= i < r.states@.len() ==> (#[trigger] r.states@[i]).0 == self.states@[i].0 && r.states@[i].1@ == self.states@[i].1@,
            r.manual_inputs@ == self.manual_inputs@,
    {
        let mut states: Vec<(NodeId, Collection<Val>)> = Vec::new();
        let mut i: usize = 0;
        while i < self.states.len()
            invariant
                i <= self.states@.len(),
                states@.len() == i,
                forall|j: int| 0 <= j < i ==> (#[trigger] states@[j]).0 == self.states@[j].0 && states@[j].1@ == self.states@[j].1@,
            decreases self.states@.len() - i,
        {
            states.push((self.states[i].0, self.states[i].1.snapshot()));
            i = i + 1;
        }
        let name = match &self.name {
            Some(n) => Some(n.clone()),
            None => None,
        };
        Checkpoint { id: self.id, name, states, manual_inputs: self.manual_inputs.clone() }
    }
}

/// Manages checkpoints for a database.
pub struct CheckpointManager {
    /// All checkpoints, in order of storage.
    checkpoints: Vec<Checkpoint>,
    /// The number of the next checkpoint.
    next_id: usize,
}

impl CheckpointManager {
    /// The stored checkpoints.
    pub closed spec fn stored(&self) -> Seq<Checkpoint> {
        self.checkpoints@
    }

    /// The number the next checkpoint gets.
    pub closed spec fn spec_next_id(&self) -> usize {
        self.next_id
    }

    /// Every stored checkpoint has an ID below the next one, and no two share an ID.
    pub open spec fn ids_ok(&self) -> bool {
        &&& forall|i: int| 0 <= i < self.stored().len() ==> (#[trigger] self.stored()[i]).id.0 < self.spec_next_id()
        &&& forall|i: int, j: int| 0 <= i < self.stored().len() && 0 <= j < self.stored().len() && i != j
            ==> (#[trigger] self.stored()[i]).id != (#[trigger] self.stored()[j]).id
    }

    pub fn new() -> (r: Self)
        ensures
            r.stored().len() == 0,
            r.spec_next_id() == 0,
            r.ids_ok(),
    {
        CheckpointManager { checkpoints: Vec::new(), next_id: 0 }
    }

    /// Create a new checkpoint ID.
    pub fn next_id(&mut self) -> (r: CheckpointId)
        requires
            old(self).spec_next_id() < usize::MAX,
        ensures
            r.0 == old(self).spec_next_id(),
            final(self).spec_next_id() == old(self).spec_next_id() + 1,
            final(self).stored() == old(self).stored(),
            old(self).ids_ok() ==> final(self).ids_ok(),
    {
        let id = CheckpointId(self.next_id);
        self.next_id = self.next_id + 1;
        id
    }

    /// Store a checkpoint, replacing the first one with the same ID if there is one.
    pub fn store(&mut self, checkpoint: Checkpoint)
        ensures
            old(self).ids_ok() && checkpoint.id.0 < old(self).spec_next_id() ==> final(self).ids_ok(),
            final(self).spec_next_id() == old(self).spec_next_id(),
            exists|i: int| 0 <= i < final(self).stored().len() && #[trigger] final(self).stored()[i] == checkpoint,
            (forall|i: int| 0 <= i < old(self).stored().len() ==> old(self).stored()[i].id != checkpoint.id) ==>
                final(self).stored() == old(self).stored().push(checkpoint),
            (exists|i: int| 0 <= i < old(self).stored().len() && old(self).stored()[i].id == checkpoint.id) ==>
                final(self).stored().len() == old(self).stored().len(),
            forall|j: int| 0 <= j < old(self).stored().len() ==> #[trigger] final(self).stored()[j] == old(self).stored()[j] || (
                final(self).stored()[j] == checkpoint && old(self).stored()[j].id == checkpoint.id
                    && forall|k: int| 0 <= k < j ==> old(self).stored()[k].id != checkpoint.id),
    {
        let mut i: usize = 0;
        while i < self.checkpoints.len()
            invariant
                i <= self.checkpoints@.len(),
                self.checkpoints@ == old(self).checkpoints@,
                self.next_id == old(self).next_id,
                forall|j: int| 0 <= j < i ==> self.checkpoints@[j].id != checkpoint.id,
            decreases self.checkpoints@.len() - i,
        {
            if self.checkpoints[i].id == checkpoint.id {
                let ghost c0 = checkpoint;
                let ghost before = self.checkpoints@;
                self.checkpoints.set(i, checkpoint);
                assert(self.checkpoints@[i as int] == c0);
                proof {
                    if old(self).ids_ok() && c0.id.0 < old(self).spec_next_id() {
                    assert forall|a: int, b: int| 0 <= a < self.stored().len() && 0 <= b < self.stored().len() && a != b
                        implies (#[trigger] self.stored()[a]).id != (#[trigger] self.stored()[b]).id by {
                        assert(old(self).stored()[a].id == self.stored()[a].id);
                        assert(old(self).stored()[b].id == self.stored()[b].id);
                    }
                    assert forall|a: int| 0 <= a < self.stored().len() implies (#[trigger] self.stored()[a]).id.0 < self.spec_next_id() by {
                        assert(old(self).stored()[a].id == self.stored()[a].id);
                    }
                    }
                }
                return;
            }
            i = i + 1;
        }
        let ghost c0 = checkpoint;
        self.checkpoints.push(checkpoint);
        assert(self.checkpoints@[self.checkpoints@.len() - 1] == c0);
        proof {
            if old(self).ids_ok() && c0.id.0 < old(self).spec_next_id() {
            let n = old(self).stored().len();
            assert forall|a: int, b: int| 0 <= a < self.stored().len() && 0 <= b < self.stored().len() && a != b
                implies (#[trigger] self.stored()[a]).id != (#[trigger] self.stored()[b]).id by {
                if a < n && b < n {
                    assert(old(self).stored()[a] == self.stored()[a]);
                    assert(old(self).stored()[b] == self.stored()[b]);
                } else if a < n {
                    assert(old(self).stored()[a] == self.stored()[a]);
                } else {
                    assert(old(self).stored()[b] == self.stored()[b]);
                }
            }
            assert forall|a: int| 0 <= a < self.stored().len() implies (#[trigger] self.stored()[a]).id.0 < self.spec_next_id() by {
                if a < n {
                    assert(old(self).stored()[a] == self.stored()[a]);
                }
            }
            }
        }
    }

    /// Get a checkpoint by ID: the first stored with that ID.
    pub fn get(&self, id: CheckpointId) -> (r: Option<&Checkpoint>)
        ensures
            match r {
                Some(c) => exists|i: int| 0 <= i < self.stored().len() && self.stored()[i] == *c && c.id == id,
                None => forall|i: int| 0 <= i < self.stored().len() ==> self.stored()[i].id != id,
            },
    {
        let mut i: usize = 0;
        while i < self.checkpoints.len()
            invariant
                i <= self.checkpoints@.len(),
                forall|j: int| 0 <= j < i ==> self.checkpoints@[j].id != id,
            decreases self.checkpoints@.len() - i,
        {
            if self.checkpoints[i].id == id {
                return Some(&self.checkpoints[i]);
            }
            i = i + 1;
        }
        None
    }

    /// List all checkpoints.
    pub fn list(&self) -> (r: &Vec<Checkpoint>)
        ensures
            r@ == self.stored(),
    {
        &self.checkpoints
    }
}

/// Information about what changed when restoring a checkpoint.
#[derive(Debug)]
pub struct RestoreInfo {
    /// Nodes that were restored to checkpoint state.
    pub restored_nodes: Vec<NodeId>,
    /// Manual input nodes that were NOT restored (user must decide).
    pub manual_input_nodes: Vec<NodeId>,
    /// Whether any re-propagation is needed.
    pub needs_propagation: bool,
}

impl RestoreInfo {
    pub fn new() -> (r: Self)
        ensures
            r.restored_nodes@.len() == 0,
            r.manual_input_nodes@.len() == 0,
            !r.needs_propagation,
    {
        RestoreInfo { restored_nodes: Vec::new(), manual_input_nodes: Vec::new(), needs_propagation: false }
    }
}

} // verus!
