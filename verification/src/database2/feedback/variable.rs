//! Variable for tracking iterative computation state.

use vstd::prelude::*;

use crate::change::Diff;
use crate::collection::{count_of, lemma_occurrences_push, occurrences};
use crate::database2::feedback::counts::Counts;
use crate::tuple::Tuple;

verus! {

/// The abstract state of a variable.
#[verifier::reject_recursive_types(K)]
pub struct VariableState<K> {
    /// Cumulative input multiplicities: the "seen set" (a tuple is seen while positive).
    pub totals: Map<K, int>,
    /// The output state that downstream operators see.
    pub outputs: Map<K, int>,
    /// Changes not yet committed.
    pub staged: Seq<(K, int)>,
    /// Committed changes, ready to be taken.
    pub pending: Seq<(K, int)>,
    /// For each checkpoint level, the outputs added at that level.
    pub levels: Seq<Seq<K>>,
}

/// `levels` with `t` appended to its level at position `i`.
pub open spec fn record_at<K>(levels: Seq<Seq<K>>, i: int, t: K) -> Seq<Seq<K>> {
    levels.update(i, levels[i].push(t))
}

/// The state after adding `d` to the input total of `t`: where the total becomes positive
/// and `t` is not yet output, `t` is output once, staged, and recorded in the current level.
pub open spec fn add_input_spec<K>(s: VariableState<K>, t: K, d: int) -> VariableState<K> {
    let total = count_of(s.totals, t) + d;
    if total > 0 && count_of(s.outputs, t) <= 0 {
        VariableState {
            totals: s.totals.insert(t, total),
            outputs: s.outputs.insert(t, 1),
            staged: s.staged.push((t, 1)),
            pending: s.pending,
            levels: if s.levels.len() > 0 {
                record_at(s.levels, s.levels.len() - 1, t)
            } else {
                s.levels
            },
        }
    } else {
        VariableState {
            totals: s.totals.insert(t, total),
            outputs: s.outputs,
            staged: s.staged,
            pending: s.pending,
            levels: s.levels,
        }
    }
}

/// The state after applying `add_input_spec` to each change of `adds`, in order.
pub open spec fn add_all_spec<K>(s: VariableState<K>, adds: Seq<(K, int)>) -> VariableState<K>
    decreases adds.len(),
{
    if adds.len() == 0 {
        s
    } else {
        let p = add_all_spec(s, adds.drop_last());
        add_input_spec(p, adds.last().0, adds.last().1)
    }
}

/// The output counts after one retraction per occurrence in `l` of each tuple that has one.
pub open spec fn retract_all<K>(m: Map<K, int>, l: Seq<K>) -> Map<K, int> {
    Map::new(|k: K| m.contains_key(k), |k: K| m[k] - occurrences(l, k))
}

/// The state after retracting every output of the current level.
pub open spec fn send_inverse_spec<K>(s: VariableState<K>) -> VariableState<K> {
    if s.levels.len() > 0 {
        let l = s.levels.last();
        VariableState {
            totals: s.totals,
            outputs: retract_all(s.outputs, l),
            staged: s.staged + l.map_values(|t: K| (t, -1int)),
            pending: s.pending,
            levels: s.levels,
        }
    } else {
        s
    }
}

/// The state after forwarding `t` once more where it is seen but not output, recording it in
/// the level below the top one.
pub open spec fn forward_one<K>(s: VariableState<K>, t: K, parent: int) -> VariableState<K> {
    if count_of(s.totals, t) > 0 && count_of(s.outputs, t) <= 0 {
        VariableState {
            totals: s.totals,
            outputs: s.outputs.insert(t, count_of(s.outputs, t) + 1),
            staged: s.staged.push((t, 1)),
            pending: s.pending,
            levels: if 0 <= parent < s.levels.len() {
                record_at(s.levels, parent, t)
            } else {
                s.levels
            },
        }
    } else {
        s
    }
}

/// The state after forwarding `t`, unless the current level recorded it.
pub open spec fn forward_if_not_in_checkpoint_spec<K>(s: VariableState<K>, t: K) -> VariableState<K> {
    if s.levels.len() > 0 && s.levels.last().contains(t) {
        s
    } else {
        forward_one(s, t, s.levels.len() - 2)
    }
}

/// The state after forwarding each tuple of `l`, in order, into the current top level.
pub open spec fn forward_each<K>(s: VariableState<K>, l: Seq<K>) -> VariableState<K>
    decreases l.len(),
{
    if l.len() == 0 {
        s
    } else {
        let p = forward_each(s, l.drop_last());
        forward_one(p, l.last(), p.levels.len() - 1)
    }
}

/// The state after dropping the current level and forwarding each of its tuples that is still
/// seen, recording it in the level below.
pub open spec fn pop_and_forward_spec<K>(s: VariableState<K>) -> VariableState<K> {
    if s.levels.len() > 0 {
        let popped = VariableState {
            totals: s.totals,
            outputs: s.outputs,
            staged: s.staged,
            pending: s.pending,
            levels: s.levels.drop_last(),
        };
        forward_each(popped, s.levels.last())
    } else {
        s
    }
}

/// The state with a new, empty checkpoint level.
pub open spec fn push_spec<K>(s: VariableState<K>) -> VariableState<K> {
    VariableState {
        totals: s.totals,
        outputs: s.outputs,
        staged: s.staged,
        pending: s.pending,
        levels: s.levels.push(Seq::empty()),
    }
}

/// Every output count is at most one.
pub open spec fn outputs_at_most_once<K>(s: VariableState<K>) -> bool {
    forall|k: K| #[trigger] count_of(s.outputs, k) <= 1
}

/// The views of pairs of a tuple and a diff.
pub open spec fn pair_views<T: View>(s: Seq<(T, Diff)>) -> Seq<(T::V, int)> {
    s.map_values(|e: (T, Diff)| (e.0@, e.1.0 as int))
}

/// The views of a sequence of tuples.
pub open spec fn tuple_views<T: View>(s: Seq<T>) -> Seq<T::V> {
    s.map_values(|t: T| t@)
}

/// A variable in an iterative computation.
///
/// Variables track a "seen set": tuples are only emitted once, when they first become
/// positive in the input totals. This gives monotonic growth toward a fixpoint.
///
/// The input totals are the seen set; the output state is what downstream operators see.
/// During normal operation, tuples are added to the output when they first become positive in
/// the input totals. During a pop, the output state is manipulated directly.
pub struct Variable<T: Tuple> {
    input_totals: Counts<T>,
    output_state: Counts<T>,
    staged: Vec<(T, Diff)>,
    pending: Vec<(T, Diff)>,
    outputs_by_checkpoint: Vec<Vec<T>>,
}

impl<T: Tuple> View for Variable<T> {
    type V = VariableState<T::V>;

    closed spec fn view(&self) -> VariableState<T::V> {
        VariableState {
            totals: self.input_totals@,
            outputs: self.output_state@,
            staged: pair_views(self.staged@),
            pending: pair_views(self.pending@),
            levels: self.outputs_by_checkpoint@.map_values(|l: Vec<T>| tuple_views(l@)),
        }
    }
}

impl<T: Tuple> Variable<T> {
    /// Create a new empty variable.
    pub fn new() -> (r: Self)
        ensures
            r@.totals == Map::<T::V, int>::empty(),
            r@.outputs == Map::<T::V, int>::empty(),
            r@.staged.len() == 0,
            r@.pending.len() == 0,
            r@.levels.len() == 0,
    {
        Variable {
            input_totals: Counts::new(),
            output_state: Counts::new(),
            staged: Vec::new(),
            pending: Vec::new(),
            outputs_by_checkpoint: Vec::new(),
        }
    }

    /// Append `t` to the level at position `i`.
    fn record(&mut self, i: usize, t: T)
        requires
            i < old(self)@.levels.len(),
        ensures
            final(self)@ == (VariableState { levels: record_at(old(self)@.levels, i as int, t@), ..old(self)@ }),
    {
        let ghost before = self.outputs_by_checkpoint@;
        let mut levels: Vec<Vec<T>> = Vec::new();
        std::mem::swap(&mut levels, &mut self.outputs_by_checkpoint);
        let mut level: Vec<T> = Vec::new();
        std::mem::swap(&mut level, &mut levels[i]);
        let ghost tv = t@;
        level.push(t);
        let ghost nl = level@;
        levels.set(i, level);
        self.outputs_by_checkpoint = levels;
        proof {
            assert(tuple_views(nl) =~= tuple_views(before[i as int]@).push(tv));
            assert(self.outputs_by_checkpoint@.map_values(|l: Vec<T>| tuple_views(l@)) =~= record_at(
                before.map_values(|l: Vec<T>| tuple_views(l@)),
                i as int,
                tv,
            ));
        }
    }

    /// Insert an initial value.
    pub fn insert(&mut self, tuple: T)
        requires
            count_of(old(self)@.totals, tuple@) < i64::MAX,
        ensures
            final(self)@ == add_input_spec(old(self)@, tuple@, 1),
    {
        self.input_totals.fits();
        self.add_input(tuple, Diff(1));
    }

    /// Add input to this variable (used during normal fixpoint).
    /// Emits +1 only if the input total is now positive and the tuple is not already output.
    /// Once a tuple is seen, it stays in the output until explicitly removed by a pop.
    pub fn add_input(&mut self, tuple: T, diff: Diff)
        requires
            i64::MIN <= count_of(old(self)@.totals, tuple@) + diff.0 <= i64::MAX,
        ensures
            final(self)@ == add_input_spec(old(self)@, tuple@, diff.0 as int),
    {
        let ghost s0 = self@;
        let total = self.input_totals.get(&tuple) + diff.0;
        self.input_totals.set(tuple.tuple_clone(), total);
        if total > 0 {
            let output = self.output_state.get(&tuple);
            if output <= 0 {
                self.output_state.set(tuple.tuple_clone(), 1);
                let ghost tv = tuple@;
                let ghost staged0 = self.staged@;
                self.staged.push((tuple.tuple_clone(), Diff(1)));
                proof {
                    assert(pair_views(self.staged@) =~= pair_views(staged0).push((tv, 1int)));
                }
                let n = self.outputs_by_checkpoint.len();
                if n > 0 {
                    self.record(n - 1, tuple);
                }
                proof {
                    assert(self@.levels == add_input_spec(s0, tv, diff.0 as int).levels);
                    assert(self@ == add_input_spec(s0, tv, diff.0 as int));
                }
            }
        }
    }

    /// Another name for `add_input`.
    pub fn add_change(&mut self, tuple: T, diff: Diff)
        requires
            i64::MIN <= count_of(old(self)@.totals, tuple@) + diff.0 <= i64::MAX,
        ensures
            final(self)@ == add_input_spec(old(self)@, tuple@, diff.0 as int),
    {
        self.add_input(tuple, diff);
    }

    /// Take the pending changes, emptying the buffer.
    pub fn take_changes(&mut self) -> (r: Vec<(T, Diff)>)
        ensures
            pair_views(r@) == old(self)@.pending,
            final(self)@ == (VariableState { pending: Seq::empty(), ..old(self)@ }),
    {
        let mut r: Vec<(T, Diff)> = Vec::new();
        std::mem::swap(&mut r, &mut self.pending);
        assert(pair_views(self.pending@) =~= Seq::<(T::V, int)>::empty());
        r
    }

    /// Commit staged changes to pending.
    pub fn commit(&mut self)
        ensures
            final(self)@ == (VariableState {
                pending: old(self)@.pending + old(self)@.staged,
                staged: Seq::empty(),
                ..old(self)@
            }),
    {
        let ghost p0 = self.pending@;
        let ghost s0 = self.staged@;
        let mut staged: Vec<(T, Diff)> = Vec::new();
        std::mem::swap(&mut staged, &mut self.staged);
        self.pending.append(&mut staged);
        assert(pair_views(self.pending@) =~= pair_views(p0) + pair_views(s0));
        assert(pair_views(self.staged@) =~= Seq::<(T::V, int)>::empty());
    }

    /// Check if there are pending changes.
    pub fn has_changes(&self) -> (r: bool)
        ensures
            r == (self@.pending.len() > 0),
    {
        self.pending.len() > 0
    }

    /// Check if there are staged changes.
    pub fn has_staged(&self) -> (r: bool)
        ensures
            r == (self@.staged.len() > 0),
    {
        self.staged.len() > 0
    }

    /// The tuples with a positive output count, each once.
    pub fn iter(&self) -> (r: Vec<&T>)
        ensures
            forall|a: int, b: int| 0 <= a < b < r@.len() ==> r@[a]@ != r@[b]@,
            forall|k: T::V| (exists|a: int| 0 <= a < r@.len() && r@[a]@ == k) <==> count_of(self@.outputs, k) > 0,
    {
        self.output_state.positive()
    }

    /// Collect all positive tuples into a Vec.
    pub fn collect(&self) -> (r: Vec<T>)
        ensures
            forall|a: int, b: int| 0 <= a < b < r@.len() ==> r@[a]@ != r@[b]@,
            forall|k: T::V| (exists|a: int| 0 <= a < r@.len() && r@[a]@ == k) <==> count_of(self@.outputs, k) > 0,
    {
        let refs = self.iter();
        let mut r: Vec<T> = Vec::new();
        let mut i: usize = 0;
        while i < refs.len()
            invariant
                i <= refs@.len(),
                r@.len() == i,
                forall|a: int| 0 <= a < i ==> (#[trigger] r@[a])@ == refs@[a]@,
            decreases refs@.len() - i,
        {
            r.push(refs[i].tuple_clone());
            i = i + 1;
        }
        proof {
            assert forall|a: int, b: int| 0 <= a < b < r@.len() implies r@[a]@ != r@[b]@ by {
                assert(r@[a]@ == refs@[a]@ && r@[b]@ == refs@[b]@);
            }
            assert forall|k: T::V| (exists|a: int| 0 <= a < r@.len() && r@[a]@ == k) <==> count_of(self@.outputs, k) > 0 by {
                if exists|a: int| 0 <= a < r@.len() && r@[a]@ == k {
                    let a = choose|a: int| 0 <= a < r@.len() && r@[a]@ == k;
                    assert(refs@[a]@ == k);
                }
                if count_of(self@.outputs, k) > 0 {
                    let a = choose|a: int| 0 <= a < refs@.len() && refs@[a]@ == k;
                    assert(r@[a]@ == k);
                }
            }
        }
        r
    }

    /// Push a new checkpoint level.
    pub fn push_checkpoint(&mut self)
        ensures
            final(self)@ == push_spec(old(self)@),
    {
        let ghost before = self.outputs_by_checkpoint@;
        let fresh: Vec<T> = Vec::new();
        assert(tuple_views(fresh@) =~= Seq::<T::V>::empty());
        self.outputs_by_checkpoint.push(fresh);
        proof {
            assert(self.outputs_by_checkpoint@.map_values(|l: Vec<T>| tuple_views(l@)) =~= before.map_values(
                |l: Vec<T>| tuple_views(l@),
            ).push(Seq::empty()));
        }
    }

    /// Retract every output of the current level: one less in the output state for each
    /// occurrence, and a staged -1. The level itself stays.
    pub fn send_inverse(&mut self)
        requires
            old(self)@.levels.len() > 0 ==> forall|k: T::V|
                i64::MIN <= #[trigger] count_of(old(self)@.outputs, k) - occurrences(old(self)@.levels.last(), k),
        ensures
            final(self)@ == send_inverse_spec(old(self)@),
    {
        let ghost s0 = self@;
        let n = self.outputs_by_checkpoint.len();
        if n > 0 {
            let ghost l = s0.levels.last();
            let ghost lv = self.outputs_by_checkpoint@[n - 1]@;
            proof {
                assert(l == tuple_views(lv));
                assert(retract_all(s0.outputs, l.subrange(0, 0)) =~= s0.outputs) by {
                    assert(l.subrange(0, 0) =~= Seq::<T::V>::empty());
                }
                assert(pair_views(self.staged@) =~= s0.staged + l.subrange(0, 0).map_values(|t: T::V| (t, -1int)));
            }
            let mut i: usize = 0;
            while i < self.outputs_by_checkpoint[n - 1].len()
                invariant
                    n == self.outputs_by_checkpoint@.len(),
                    n > 0,
                    lv == self.outputs_by_checkpoint@[n - 1]@,
                    l == tuple_views(lv),
                    i <= lv.len(),
                    forall|k: T::V| i64::MIN <= #[trigger] count_of(s0.outputs, k) - occurrences(l, k),
                    self@ == (VariableState {
                        outputs: retract_all(s0.outputs, l.subrange(0, i as int)),
                        staged: s0.staged + l.subrange(0, i as int).map_values(|t: T::V| (t, -1int)),
                        ..s0
                    }),
                decreases lv.len() - i,
            {
                let t = &self.outputs_by_checkpoint[n - 1][i];
                let ghost tv = t@;
                let ghost m0 = self@.outputs;
                proof {
                    assert(l.subrange(0, i + 1) =~= l.subrange(0, i as int).push(tv));
                    lemma_occurrences_prefix(l, i as int, tv);
                }
                if self.output_state.has(t) {
                    let c = self.output_state.get(t);
                    proof {
                        assert(c == s0.outputs[tv] - occurrences(l.subrange(0, i as int), tv));
                        assert(i64::MIN <= count_of(s0.outputs, tv) - occurrences(l, tv));
                    }
                    let t2 = t.tuple_clone();
                    self.output_state.set(t2, c - 1);
                }
                let t3 = self.outputs_by_checkpoint[n - 1][i].tuple_clone();
                let ghost staged0 = self.staged@;
                self.staged.push((t3, Diff(-1)));
                proof {
                    let pre = l.subrange(0, i as int);
                    let post = l.subrange(0, i + 1);
                    assert(pair_views(self.staged@) =~= pair_views(staged0).push((tv, -1int)));
                    assert(s0.staged + post.map_values(|t: T::V| (t, -1int)) =~= (s0.staged + pre.map_values(
                        |t: T::V| (t, -1int),
                    )).push((tv, -1int)));
                    assert(self@.outputs =~= retract_all(s0.outputs, post)) by {
                        assert forall|k: T::V| #[trigger] self@.outputs.contains_key(k) == retract_all(s0.outputs, post).contains_key(k) by {}
                        assert forall|k: T::V| self@.outputs.contains_key(k) implies #[trigger] self@.outputs[k] == retract_all(s0.outputs, post)[k] by {
                            lemma_occurrences_prefix(l, i as int, k);
                        }
                    }
                }
                i = i + 1;
            }
            proof {
                assert(l.subrange(0, i as int) =~= l);
            }
        }
    }

    /// Add `diff` to the input total of `tuple` (used during a pop).
    pub fn update_input_total(&mut self, tuple: T, diff: Diff)
        requires
            i64::MIN <= count_of(old(self)@.totals, tuple@) + diff.0 <= i64::MAX,
        ensures
            final(self)@ == (VariableState {
                totals: old(self)@.totals.insert(tuple@, count_of(old(self)@.totals, tuple@) + diff.0),
                ..old(self)@
            }),
    {
        self.input_totals.add(tuple, diff.0);
    }

    /// Whether the current level recorded `tuple`.
    fn in_last_level(&self, tuple: &T) -> (r: bool)
        ensures
            r == (self@.levels.len() > 0 && self@.levels.last().contains(tuple@)),
    {
        let n = self.outputs_by_checkpoint.len();
        if n == 0 {
            return false;
        }
        let ghost l = self@.levels.last();
        let level = &self.outputs_by_checkpoint[n - 1];
        proof {
            assert(l == tuple_views(level@));
        }
        let mut i: usize = 0;
        while i < level.len()
            invariant
                i <= level@.len(),
                l == tuple_views(level@),
                l == self@.levels.last(),
                self@.levels.len() > 0,
                forall|j: int| 0 <= j < i ==> l[j] != tuple@,
            decreases level@.len() - i,
        {
            if level[i].tuple_eq(tuple) {
                proof {
                    assert(l[i as int] == tuple@);
                    assert(l.contains(tuple@));
                }
                return true;
            }
            i = i + 1;
        }
        false
    }

    /// Forward `tuple` once more, unless the current level recorded it, when it is seen but
    /// not output; it is then recorded in the level below the current one.
    fn forward(&mut self, tuple: &T, parent: usize)
        requires
            parent < old(self)@.levels.len() || parent == usize::MAX,
        ensures
            final(self)@ == forward_one(old(self)@, tuple@, if parent == usize::MAX { -1 } else { parent as int }),
    {
        let ghost s0 = self@;
        let input_total = self.input_totals.get(tuple);
        if input_total > 0 {
            let output = self.output_state.get(tuple);
            if output <= 0 {
                self.output_state.set(tuple.tuple_clone(), output + 1);
                let ghost staged0 = self.staged@;
                self.staged.push((tuple.tuple_clone(), Diff(1)));
                proof {
                    assert(pair_views(self.staged@) =~= pair_views(staged0).push((tuple@, 1int)));
                }
                if parent != usize::MAX {
                    self.record(parent, tuple.tuple_clone());
                }
            }
        }
    }

    /// Forward +1 for a tuple if the current level did not record it and its input total is
    /// positive.
    pub fn forward_if_not_in_checkpoint(&mut self, tuple: &T)
        ensures
            final(self)@ == forward_if_not_in_checkpoint_spec(old(self)@, tuple@),
    {
        let in_checkpoint = self.in_last_level(tuple);
        if !in_checkpoint {
            let n = self.outputs_by_checkpoint.len();
            let parent = if n >= 2 {
                n - 2
            } else {
                usize::MAX
            };
            self.forward(tuple, parent);
        }
    }

    /// Pop the checkpoint and forward +1 for the items whose input total is still positive.
    pub fn pop_and_forward_reachable(&mut self)
        ensures
            final(self)@ == pop_and_forward_spec(old(self)@),
    {
        let ghost s0 = self@;
        match self.outputs_by_checkpoint.pop() {
            None => {},
            Some(outputs) => {
                let ghost l = tuple_views(outputs@);
                let ghost popped = self@;
                proof {
                    assert(l == s0.levels.last());
                    assert(popped.levels =~= s0.levels.drop_last());
                    assert(l.subrange(0, 0) =~= Seq::<T::V>::empty());
                }
                let mut i: usize = 0;
                while i < outputs.len()
                    invariant
                        i <= outputs@.len(),
                        l == tuple_views(outputs@),
                        self@ == forward_each(popped, l.subrange(0, i as int)),
                        self@.levels.len() == popped.levels.len(),
                    decreases outputs@.len() - i,
                {
                    proof {
                        assert(l.subrange(0, i as int) =~= l.subrange(0, i + 1).drop_last());
                    }
                    let n = self.outputs_by_checkpoint.len();
                    let parent = if n >= 1 {
                        n - 1
                    } else {
                        usize::MAX
                    };
                    self.forward(&outputs[i], parent);
                    i = i + 1;
                }
                proof {
                    assert(l.subrange(0, i as int) =~= l);
                }
            },
        }
    }

    /// The input total of `tuple`.
    pub fn debug_input_total(&self, tuple: &T) -> (r: i64)
        ensures
            r == count_of(self@.totals, tuple@),
    {
        self.input_totals.get(tuple)
    }

    /// The output count of `tuple`.
    pub fn debug_output(&self, tuple: &T) -> (r: i64)
        ensures
            r == count_of(self@.outputs, tuple@),
    {
        self.output_state.get(tuple)
    }

    /// The number of checkpoint levels.
    pub fn debug_checkpoint_depth(&self) -> (r: usize)
        ensures
            r == self@.levels.len(),
    {
        self.outputs_by_checkpoint.len()
    }
}

/// Occurrences in a prefix one longer add the new element's.
pub proof fn lemma_occurrences_prefix<K>(l: Seq<K>, i: int, k: K)
    requires
        0 <= i < l.len(),
    ensures
        occurrences(l.subrange(0, i + 1), k) == occurrences(l.subrange(0, i), k) + if l[i] == k {
            1int
        } else {
            0int
        },
        occurrences(l.subrange(0, i), k) <= occurrences(l, k),
        occurrences(l.subrange(0, i + 1), k) <= occurrences(l, k),
    decreases l.len() - i,
{
    assert(l.subrange(0, i + 1).drop_last() =~= l.subrange(0, i));
    if i + 1 < l.len() {
        lemma_occurrences_prefix(l, i + 1, k);
    } else {
        assert(l.subrange(0, i + 1) =~= l);
    }
}

impl<T: Tuple> Default for Variable<T> {
    fn default() -> (r: Self)
        ensures
            r@.totals == Map::<T::V, int>::empty(),
            r@.outputs == Map::<T::V, int>::empty(),
            r@.staged.len() == 0,
            r@.pending.len() == 0,
            r@.levels.len() == 0,
    {
        Self::new()
    }
}

/// An element of a sequence without duplicates occurs once; any other, never.
pub proof fn lemma_occurrences_distinct<K>(l: Seq<K>, k: K)
    requires
        l.no_duplicates(),
    ensures
        occurrences(l, k) == if l.contains(k) {
            1nat
        } else {
            0nat
        },
    decreases l.len(),
{
    if l.len() > 0 {
        let p = l.drop_last();
        assert(p.no_duplicates()) by {
            assert forall|i: int, j: int| 0 <= i < p.len() && 0 <= j < p.len() && i != j implies p[i] != p[j] by {
                assert(p[i] == l[i] && p[j] == l[j]);
            }
        }
        lemma_occurrences_distinct(p, k);
        if p.contains(k) {
            let i = choose|i: int| 0 <= i < p.len() && p[i] == k;
            assert(l[i] == k);
            if l.last() == k {
                assert(l[l.len() - 1] == l[i]);
            }
        }
        if l.contains(k) && !p.contains(k) {
            let i = choose|i: int| 0 <= i < l.len() && l[i] == k;
            if i < l.len() - 1 {
                assert(p[i] == k);
            }
        }
        if p.contains(k) {
            let i = choose|i: int| 0 <= i < p.len() && p[i] == k;
            assert(l[i] == k);
        }
    }
}

/// Forwarding keeps every output count at most one.
pub proof fn lemma_forward_each_at_most_once<K>(s: VariableState<K>, l: Seq<K>)
    requires
        outputs_at_most_once(s),
    ensures
        outputs_at_most_once(forward_each(s, l)),
        forward_each(s, l).levels.len() == s.levels.len(),
    decreases l.len(),
{
    if l.len() > 0 {
        lemma_forward_each_at_most_once(s, l.drop_last());
        let p = forward_each(s, l.drop_last());
        let r = forward_each(s, l);
        assert forall|k: K| #[trigger] count_of(r.outputs, k) <= 1 by {
            assert(count_of(p.outputs, k) <= 1);
        }
    }
}

/// A tuple is never output more than once at a time: from a state where every output count is
/// at most one, each operation of a variable leads to such a state.
pub proof fn lemma_outputs_at_most_once<K>(s: VariableState<K>, t: K, d: int)
    requires
        outputs_at_most_once(s),
    ensures
        outputs_at_most_once(add_input_spec(s, t, d)),
        outputs_at_most_once(send_inverse_spec(s)),
        outputs_at_most_once(forward_if_not_in_checkpoint_spec(s, t)),
        outputs_at_most_once(pop_and_forward_spec(s)),
        outputs_at_most_once(push_spec(s)),
{
    let a = add_input_spec(s, t, d);
    assert forall|k: K| #[trigger] count_of(a.outputs, k) <= 1 by {
        assert(count_of(s.outputs, k) <= 1);
    }
    let b = send_inverse_spec(s);
    assert forall|k: K| #[trigger] count_of(b.outputs, k) <= 1 by {
        assert(count_of(s.outputs, k) <= 1);
    }
    let c = forward_if_not_in_checkpoint_spec(s, t);
    assert forall|k: K| #[trigger] count_of(c.outputs, k) <= 1 by {
        assert(count_of(s.outputs, k) <= 1);
    }
    if s.levels.len() > 0 {
        let popped = VariableState {
            totals: s.totals,
            outputs: s.outputs,
            staged: s.staged,
            pending: s.pending,
            levels: s.levels.drop_last(),
        };
        lemma_forward_each_at_most_once(popped, s.levels.last());
    }
    let e = push_spec(s);
    assert forall|k: K| #[trigger] count_of(e.outputs, k) <= 1 by {
        assert(count_of(s.outputs, k) <= 1);
    }
}

/// After a push and a sequence of inputs, the new level holds, once each, exactly the tuples
/// whose output count went from zero to one; every other output count is unchanged.
pub proof fn lemma_level_records_new_outputs<K>(s: VariableState<K>, adds: Seq<(K, int)>)
    requires
        forall|k: K| 0 <= #[trigger] count_of(s.outputs, k) <= 1,
    ensures
        ({
            let r = add_all_spec(push_spec(s), adds);
            &&& r.levels.len() == s.levels.len() + 1
            &&& r.levels.last().no_duplicates()
            &&& forall|k: K| #[trigger] r.levels.last().contains(k) ==> count_of(s.outputs, k) == 0
                && r.outputs.contains_key(k) && r.outputs[k] == 1
            &&& forall|k: K| !r.levels.last().contains(k) ==> #[trigger] count_of(r.outputs, k) == count_of(s.outputs, k)
        }),
    decreases adds.len(),
{
    if adds.len() == 0 {
        let r = push_spec(s);
        assert(r.levels.last() =~= Seq::<K>::empty());
    } else {
        lemma_level_records_new_outputs(s, adds.drop_last());
        let p = add_all_spec(push_spec(s), adds.drop_last());
        let r = add_all_spec(push_spec(s), adds);
        let t = adds.last().0;
        let d = adds.last().1;
        let lp = p.levels.last();
        assert(r == add_input_spec(p, t, d));
        if count_of(p.totals, t) + d > 0 && count_of(p.outputs, t) <= 0 {
            assert(!lp.contains(t));
            assert(count_of(s.outputs, t) == count_of(p.outputs, t));
            let lr = r.levels.last();
            assert(lr == lp.push(t));
            assert(lr.no_duplicates()) by {
                assert forall|i: int, j: int| 0 <= i < lr.len() && 0 <= j < lr.len() && i != j implies lr[i] != lr[j] by {
                    if i == lr.len() - 1 && lr[i] == lr[j] {
                        assert(lp[j] == t);
                    }
                    if j == lr.len() - 1 && lr[i] == lr[j] {
                        assert(lp[i] == t);
                    }
                }
            }
            assert forall|k: K| #[trigger] lr.contains(k) implies count_of(s.outputs, k) == 0 && r.outputs.contains_key(k) && r.outputs[k] == 1 by {
                if k != t {
                    let i = choose|i: int| 0 <= i < lr.len() && lr[i] == k;
                    assert(lp[i] == k);
                    assert(lp.contains(k));
                }
            }
            assert forall|k: K| !lr.contains(k) implies #[trigger] count_of(r.outputs, k) == count_of(s.outputs, k) by {
                assert(lr[lr.len() - 1] == t);
                if lp.contains(k) {
                    let i = choose|i: int| 0 <= i < lp.len() && lp[i] == k;
                    assert(lr[i] == k);
                }
                assert(k != t);
                assert(count_of(p.outputs, k) == count_of(s.outputs, k));
            }
        }
    }
}

/// Retracting a checkpoint level undoes it: from a state where every output count is zero or
/// one, a push, any sequence of inputs, and the retraction of the new level leave every output
/// count as it was before the push.
pub proof fn lemma_retract_undoes_level<K>(s: VariableState<K>, adds: Seq<(K, int)>)
    requires
        forall|k: K| 0 <= #[trigger] count_of(s.outputs, k) <= 1,
    ensures
        forall|k: K| #[trigger] count_of(send_inverse_spec(add_all_spec(push_spec(s), adds)).outputs, k) == count_of(s.outputs, k),
{
    lemma_level_records_new_outputs(s, adds);
    let r = add_all_spec(push_spec(s), adds);
    let l = r.levels.last();
    assert forall|k: K| #[trigger] count_of(send_inverse_spec(r).outputs, k) == count_of(s.outputs, k) by {
        lemma_occurrences_distinct(l, k);
        if l.contains(k) {
            assert(r.outputs.contains_key(k));
        } else {
            assert(count_of(r.outputs, k) == count_of(s.outputs, k));
        }
    }
}

/// The occurrences of `k` in the levels at positions `from` up to, not including, `to`.
pub open spec fn occurrences_in_levels<K>(levels: Seq<Seq<K>>, from: int, to: int, k: K) -> int
    decreases to - from,
{
    if to <= from {
        0
    } else {
        occurrences_in_levels(levels, from, to - 1, k) + occurrences(levels[to - 1], k)
    }
}

/// The levels from `from` up to `to` account for every output of `s` raised since the output
/// counts `base`: each output count is its count in `base` plus the times those levels record
/// the tuple. Retracting those levels then gives back the counts of `base`.
pub open spec fn levels_account<K>(base: Map<K, int>, s: VariableState<K>, from: int, to: int) -> bool {
    forall|k: K| #[trigger] count_of(s.outputs, k) == count_of(base, k) + occurrences_in_levels(s.levels, from, to, k)
}

/// Levels that agree between `from` and `to` hold the same occurrences there.
proof fn lemma_levels_same<K>(a: Seq<Seq<K>>, b: Seq<Seq<K>>, from: int, to: int, k: K)
    requires
        forall|i: int| from <= i < to ==> #[trigger] a[i] == b[i],
    ensures
        occurrences_in_levels(a, from, to, k) == occurrences_in_levels(b, from, to, k),
    decreases to - from,
{
    if to > from {
        lemma_levels_same(a, b, from, to - 1, k);
        assert(a[to - 1] == b[to - 1]);
    }
}

/// Recording `t` in the level at `p` adds one occurrence of `t` to the levels between `from`
/// and `to` where `p` lies among them.
proof fn lemma_levels_record<K>(levels: Seq<Seq<K>>, p: int, t: K, from: int, to: int, k: K)
    requires
        0 <= p < levels.len(),
        0 <= from,
        to <= levels.len(),
    ensures
        occurrences_in_levels(record_at(levels, p, t), from, to, k) == occurrences_in_levels(levels, from, to, k)
            + if from <= p < to && t == k { 1int } else { 0int },
    decreases to - from,
{
    if to > from {
        lemma_levels_record(levels, p, t, from, to - 1, k);
        let r = record_at(levels, p, t);
        if to - 1 == p {
            assert(r[p] == levels[p].push(t));
            lemma_occurrences_push(levels[p], t, k);
        } else {
            assert(r[to - 1] == levels[to - 1]);
        }
    }
}

/// Occurrences are never negative.
proof fn lemma_levels_nonneg<K>(levels: Seq<Seq<K>>, from: int, to: int, k: K)
    ensures
        occurrences_in_levels(levels, from, to, k) >= 0,
    decreases to - from,
{
    if to > from {
        lemma_levels_nonneg(levels, from, to - 1, k);
    }
}

/// Pushing a level keeps the account of the levels below it, and the new level, empty, may
/// join it.
pub proof fn lemma_push_keeps_account<K>(base: Map<K, int>, s: VariableState<K>, from: int, to: int)
    requires
        levels_account(base, s, from, to),
        0 <= from,
        to <= s.levels.len(),
    ensures
        levels_account(base, push_spec(s), from, to),
        to == s.levels.len() ==> levels_account(base, push_spec(s), from, to + 1),
{
    let r = push_spec(s);
    assert forall|i: int| from <= i < to implies #[trigger] s.levels[i] == r.levels[i] by {}
    assert forall|k: K| #[trigger] count_of(r.outputs, k) == count_of(base, k) + occurrences_in_levels(r.levels, from, to, k) by {
        lemma_levels_same(s.levels, r.levels, from, to, k);
    }
    if to == s.levels.len() {
        assert forall|k: K| #[trigger] count_of(r.outputs, k) == count_of(base, k) + occurrences_in_levels(r.levels, from, to + 1, k) by {
            lemma_levels_same(s.levels, r.levels, from, to, k);
            if to + 1 > from {
                assert(r.levels[to] =~= Seq::<K>::empty());
                assert(occurrences(r.levels[to], k) == 0);
            }
        }
    }
}

/// An input that raises an output records it in the current level: the account of the levels
/// from `from` up to the current one is kept.
pub proof fn lemma_add_input_keeps_account<K>(base: Map<K, int>, s: VariableState<K>, t: K, d: int, from: int)
    requires
        levels_account(base, s, from, s.levels.len() as int),
        0 <= from < s.levels.len(),
        forall|k: K| 0 <= #[trigger] count_of(base, k),
    ensures
        levels_account(base, add_input_spec(s, t, d), from, s.levels.len() as int),
{
    let r = add_input_spec(s, t, d);
    let n = s.levels.len() as int;
    assert forall|k: K| #[trigger] count_of(r.outputs, k) == count_of(base, k) + occurrences_in_levels(r.levels, from, n, k) by {
        assert(count_of(s.outputs, k) == count_of(base, k) + occurrences_in_levels(s.levels, from, n, k));
        assert(count_of(s.outputs, t) == count_of(base, t) + occurrences_in_levels(s.levels, from, n, t));
        lemma_levels_nonneg(s.levels, from, n, t);
        assert(count_of(base, t) >= 0);
        if count_of(s.totals, t) + d > 0 && count_of(s.outputs, t) <= 0 {
            lemma_levels_record(s.levels, n - 1, t, from, n, k);
            assert(count_of(s.outputs, t) == 0);
        }
    }
}

/// Forwarding a tuple during a pop records it in the level below the current one: the account
/// of levels from `from` up to `to` that include that level is kept. Once the current level is
/// dropped, retracting the levels from `from` on takes the forwarded tuple back.
pub proof fn lemma_forward_keeps_account<K>(base: Map<K, int>, s: VariableState<K>, t: K, from: int, to: int)
    requires
        levels_account(base, s, from, to),
        0 <= from <= s.levels.len() - 2,
        s.levels.len() - 2 < to <= s.levels.len(),
    ensures
        levels_account(base, forward_if_not_in_checkpoint_spec(s, t), from, to),
{
    let r = forward_if_not_in_checkpoint_spec(s, t);
    let p = s.levels.len() - 2;
    if !(s.levels.len() > 0 && s.levels.last().contains(t)) && count_of(s.totals, t) > 0 && count_of(s.outputs, t) <= 0 {
        assert(r.levels == record_at(s.levels, p, t));
        assert(r.outputs == s.outputs.insert(t, count_of(s.outputs, t) + 1));
    } else {
        assert(r.levels == s.levels && r.outputs == s.outputs);
    }
    assert forall|k: K| #[trigger] count_of(r.outputs, k) == count_of(base, k) + occurrences_in_levels(r.levels, from, to, k) by {
        assert(count_of(s.outputs, k) == count_of(base, k) + occurrences_in_levels(s.levels, from, to, k));
        if !(s.levels.len() > 0 && s.levels.last().contains(t)) && count_of(s.totals, t) > 0 && count_of(s.outputs, t) <= 0 {
            lemma_levels_record(s.levels, p, t, from, to, k);
        }
    }
}

/// Forwarding each tuple of `l` into the current level keeps the account of levels that
/// include it.
proof fn lemma_forward_each_keeps_account<K>(base: Map<K, int>, s: VariableState<K>, l: Seq<K>, from: int, to: int)
    requires
        levels_account(base, s, from, to),
        0 <= from <= s.levels.len() - 1,
        s.levels.len() - 1 < to <= s.levels.len(),
    ensures
        levels_account(base, forward_each(s, l), from, to),
        forward_each(s, l).levels.len() == s.levels.len(),
    decreases l.len(),
{
    if l.len() > 0 {
        lemma_forward_each_keeps_account(base, s, l.drop_last(), from, to);
        let p = forward_each(s, l.drop_last());
        let r = forward_each(s, l);
        let t = l.last();
        if count_of(p.totals, t) > 0 && count_of(p.outputs, t) <= 0 {
            assert(r.levels == record_at(p.levels, p.levels.len() - 1, t));
        } else {
            assert(r == p);
        }
        assert forall|k: K| #[trigger] count_of(r.outputs, k) == count_of(base, k) + occurrences_in_levels(r.levels, from, to, k) by {
            assert(count_of(p.outputs, k) == count_of(base, k) + occurrences_in_levels(p.levels, from, to, k));
            if count_of(p.totals, t) > 0 && count_of(p.outputs, t) <= 0 {
                lemma_levels_record(p.levels, p.levels.len() - 1, t, from, to, k);
            }
        }
    }
}

/// Dropping the current level, once retracted, and forwarding its tuples that are still seen
/// records them in the new current level: the account of the levels from `from` below the
/// dropped one is kept.
pub proof fn lemma_pop_and_forward_keeps_account<K>(base: Map<K, int>, s: VariableState<K>, from: int)
    requires
        levels_account(base, s, from, s.levels.len() - 1),
        0 <= from <= s.levels.len() - 2,
    ensures
        levels_account(base, pop_and_forward_spec(s), from, s.levels.len() - 1),
        pop_and_forward_spec(s).levels.len() == s.levels.len() - 1,
{
    let n = s.levels.len() as int;
    let popped = VariableState {
        totals: s.totals,
        outputs: s.outputs,
        staged: s.staged,
        pending: s.pending,
        levels: s.levels.drop_last(),
    };
    assert forall|i: int| from <= i < n - 1 implies #[trigger] s.levels[i] == popped.levels[i] by {}
    assert forall|k: K| #[trigger] count_of(popped.outputs, k) == count_of(base, k) + occurrences_in_levels(popped.levels, from, n - 1, k) by {
        lemma_levels_same(s.levels, popped.levels, from, n - 1, k);
    }
    lemma_forward_each_keeps_account(base, popped, s.levels.last(), from, n - 1);
}

/// An empty current level may leave the account.
pub proof fn lemma_empty_level_leaves_account<K>(base: Map<K, int>, s: VariableState<K>, from: int)
    requires
        levels_account(base, s, from, s.levels.len() as int),
        from < s.levels.len(),
        s.levels.last().len() == 0,
    ensures
        levels_account(base, s, from, s.levels.len() - 1),
{
    assert forall|k: K| #[trigger] count_of(s.outputs, k) == count_of(base, k) + occurrences_in_levels(s.levels, from, s.levels.len() - 1, k) by {
        assert(s.levels[s.levels.len() - 1] =~= Seq::<K>::empty());
    }
}

/// Retracting the current level takes back what it records: with output counts never
/// negative in `base`, the account of the levels below it is kept; where the current level is
/// the only one in the account, the output counts of `base` come back.
pub proof fn lemma_send_inverse_undoes_level<K>(base: Map<K, int>, s: VariableState<K>, from: int)
    requires
        levels_account(base, s, from, s.levels.len() as int),
        0 <= from < s.levels.len(),
        forall|k: K| 0 <= #[trigger] count_of(base, k),
    ensures
        levels_account(base, send_inverse_spec(s), from, s.levels.len() - 1),
        from == s.levels.len() - 1 ==> forall|k: K| #[trigger] count_of(send_inverse_spec(s).outputs, k) == count_of(base, k),
{
    let r = send_inverse_spec(s);
    let n = s.levels.len() as int;
    assert forall|k: K| #[trigger] count_of(r.outputs, k) == count_of(base, k) + occurrences_in_levels(r.levels, from, n - 1, k) by {
        assert(count_of(s.outputs, k) == count_of(base, k) + occurrences_in_levels(s.levels, from, n, k));
        lemma_levels_nonneg(s.levels, from, n - 1, k);
        assert(count_of(base, k) >= 0);
    }
}

/// Forwarding during a pop is undone with the level below: from any state whose output counts
/// are never negative, pushing two levels, forwarding a tuple, dropping the top level and
/// retracting the one below gives back every output count.
pub proof fn lemma_forward_then_pop_undoes<K>(s: VariableState<K>, t: K)
    requires
        forall|k: K| 0 <= #[trigger] count_of(s.outputs, k),
    ensures
        forall|k: K| #[trigger] count_of(send_inverse_spec(pop_and_forward_spec(forward_if_not_in_checkpoint_spec(push_spec(push_spec(s)), t))).outputs, k)
            == count_of(s.outputs, k),
{
    let n = s.levels.len() as int;
    let base = s.outputs;
    assert(levels_account(base, s, n, n));
    lemma_push_keeps_account(base, s, n, n);
    let s1 = push_spec(s);
    lemma_push_keeps_account(base, s1, n, n + 1);
    let s2 = push_spec(s1);
    lemma_forward_keeps_account(base, s2, t, n, n + 2);
    let s3 = forward_if_not_in_checkpoint_spec(s2, t);
    assert(s3.levels.last() == s2.levels.last());
    assert(s2.levels.last() =~= Seq::<K>::empty());
    lemma_empty_level_leaves_account(base, s3, n);
    lemma_pop_and_forward_keeps_account(base, s3, n);
    let s4 = pop_and_forward_spec(s3);
    lemma_send_inverse_undoes_level(base, s4, n);
}

} // verus!
