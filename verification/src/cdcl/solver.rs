//! CDCL SAT solver built on the relational query engine.

use vstd::prelude::*;

use crate::cdcl::types::{ClauseId, Conflict, Level, Lit, Var, lemma_var_eq, neg, var};
use crate::collection::{count_of, occurrences};
use crate::database::db::typed_view;
use crate::database::{CommitId, Database, Relation};
use crate::operators::implements;
use crate::tuple::Tuple;

verus! {

/// CDCL SAT solver.
pub struct Solver {
    db: Database,
    // Input relations.
    /// Original clauses: one tuple `(clause_id, literal)` per literal of each clause.
    clauses: Relation<(ClauseId, Lit)>,
    /// Learned clauses (persistent: they survive backtracking).
    learned: Relation<(ClauseId, Lit)>,
    /// The decision levels opened so far.
    levels: Relation<Level>,
    /// Decision assignments `(literal, level, ClauseId::DECISION)`.
    decision_assignments: Relation<(Lit, Level, ClauseId)>,
    // Derived relations.
    /// The current level: the greatest of `levels`.
    current_level_rel: Relation<Level>,
    /// Every assignment found, with its level, its reason clause and the commit that found it.
    prep_assignments: Relation<((Lit, Level, ClauseId), CommitId)>,
    /// Final assignments `(literal, level)`: for each literal, the earliest found.
    assignments: Relation<(Lit, Level)>,
    /// Every way each literal was derived: `((literal, commit), (clause, level))`.
    causes: Relation<((Lit, CommitId), (ClauseId, Level))>,
    /// The literals assigned true.
    assigned: Relation<Lit>,
    /// Unit clauses to propagate: `(clause_id, implied_literal)`.
    units: Relation<(ClauseId, Lit)>,
    /// Conflicts found while propagating.
    conflicts: Relation<Conflict>,
    // Search state.
    /// The current decision level.
    current_level: Level,
    /// The identifier for the next learned clause.
    next_learned_id: ClauseId,
    /// The number of variables.
    num_vars: Var,
    /// The decisions made: `(level, literal, tried_both)`, where `tried_both` means the
    /// opposite polarity was already tried.
    decision_stack: Vec<(Level, Lit, bool)>,
    /// The search stopped because the decision level or a multiplicity reached its limit.
    exhausted: bool,
}

impl Solver {
    /// Every relation of the solver is a node of its database.
    pub closed spec fn relations_valid(&self) -> bool {
        let n = self.db.nodes().len();
        &&& self.clauses.id.0 < n
        &&& self.learned.id.0 < n
        &&& self.levels.id.0 < n
        &&& self.decision_assignments.id.0 < n
        &&& self.current_level_rel.id.0 < n
        &&& self.prep_assignments.id.0 < n
        &&& self.assignments.id.0 < n
        &&& self.causes.id.0 < n
        &&& self.assigned.id.0 < n
        &&& self.units.id.0 < n
        &&& self.conflicts.id.0 < n
    }

    /// The solver's invariant.
    pub closed spec fn wf(&self) -> bool {
        &&& self.db.wf()
        &&& self.relations_valid()
        &&& self.num_vars.value() <= i32::MAX
        &&& self.db.nodes()[self.clauses.id.0 as int].kind is Input
        &&& self.db.nodes()[self.learned.id.0 as int].kind is Input
        &&& self.db.nodes()[self.levels.id.0 as int].kind is Input
        &&& self.db.nodes()[self.decision_assignments.id.0 as int].kind is Input
        &&& self.clauses.id.0 < self.learned.id.0
        &&& self.learned.id.0 < self.levels.id.0
        &&& self.levels.id.0 < self.decision_assignments.id.0
        &&& self.decision_stack@.len() == self.current_level.value()
        &&& forall|i: int| 0 <= i < self.decision_stack@.len() ==> (#[trigger] self.decision_stack@[i]).1.value() != i32::MIN
    }

    /// Create a new solver for the given number of variables.
    pub fn new(num_vars: Var) -> (r: Self)
        requires
            num_vars.value() <= i32::MAX,
        ensures
            r.wf(),
            r.spec_level().value() == 0,
            r.decisions().len() == 0,
            r.spec_num_vars() == num_vars,
            r.next_learned().value() == 1_000_000,
            !r.spec_exhausted(),
            r.clause_lits() == Map::<(ClauseId, Lit), int>::empty(),
            r.learned_lits() == Map::<(ClauseId, Lit), int>::empty(),
    {
        let mut db = Database::new();

        // Input relations.
        let clauses = db.create_input::<(ClauseId, Lit)>("clauses");
        let ghost clauses_node = db.nodes()[clauses.id.0 as int];
        let learned = db.create_persistent_input::<(ClauseId, Lit)>("learned");
        let ghost learned_node = db.nodes()[learned.id.0 as int];
        let levels = db.create_input::<Level>("levels");
        let ghost levels_node = db.nodes()[levels.id.0 as int];
        let decision_assignments = db.create_input::<(Lit, Level, ClauseId)>("decision_assignments");

        // The current level is the greatest level opened.
        let current_level_rel = db.max(levels);

        assert(db.nodes()[levels.id.0 as int] == levels_node);
        // All clauses, original and learned.
        let all_clauses = db.union(clauses, learned);

        // Assignments found by the feedback loop, each stamped with the commit that found it.
        let (prep_var, prep_assignments) = db.variable::<((Lit, Level, ClauseId), CommitId)>("prep_assignments");

        // For each literal, the assignment found first.
        let key_lit = |t: &((Lit, Level, ClauseId), CommitId)| -> (r: Lit)
            ensures
                r == (t.0).0,
            { (t.0).0 };
        let level_and_id = |t: &((Lit, Level, ClauseId), CommitId)| -> (r: (Level, CommitId))
            ensures
                r == ((t.0).1, t.1),
            { ((t.0).1, t.1) };
        proof {
            assert(implements(key_lit, |v: ((Lit, Level, ClauseId), u64)| (v.0).0));
            assert(implements(level_and_id, |v: ((Lit, Level, ClauseId), u64)| ((v.0).1, v.1)));
        }
        let assignments_with_id = db.group_min(prep_assignments, key_lit, level_and_id);
        let drop_id = |t: &(Lit, (Level, CommitId))| -> (r: (Lit, Level))
            ensures
                r == (t.0, (t.1).0),
            { (t.0, (t.1).0) };
        proof {
            assert(implements(drop_id, |v: (Lit, (Level, u64))| (v.0, (v.1).0)));
        }
        let assignments = db.map(assignments_with_id, drop_id);

        // Every way each literal was derived.
        let reshape = |t: &((Lit, Level, ClauseId), CommitId)| -> (r: ((Lit, CommitId), (ClauseId, Level)))
            ensures
                r == (((t.0).0, t.1), ((t.0).2, (t.0).1)),
            { (((t.0).0, t.1), ((t.0).2, (t.0).1)) };
        proof {
            assert(implements(reshape, |v: ((Lit, Level, ClauseId), u64)| (((v.0).0, v.1), ((v.0).2, (v.0).1))));
        }
        let causes = db.map(prep_assignments, reshape);

        assert(db.nodes()[levels.id.0 as int] == levels_node);
        // The literals assigned true.
        let lit_of = |t: &(Lit, Level)| -> (r: Lit)
            ensures
                r == t.0,
            { t.0 };
        proof {
            assert(implements(lit_of, |v: (Lit, Level)| v.0));
        }
        let assigned = db.map(assignments, lit_of);

        // Units. A clause literal that is true satisfies its clause.
        let clause_lit = |t: &(ClauseId, Lit)| -> (r: Lit)
            ensures
                r == t.1,
            { t.1 };
        let same_lit = |t: &Lit| -> (r: Lit)
            ensures
                r == *t,
            { *t };
        proof {
            assert(implements(clause_lit, |v: (ClauseId, Lit)| v.1));
            assert(implements(same_lit, |v: Lit| v));
        }
        let clause_lit_true = db.join(all_clauses, assigned, clause_lit, same_lit);
        let cid_of_match = |t: &((ClauseId, Lit), Lit)| -> (r: ClauseId)
            ensures
                r == (t.0).0,
            { (t.0).0 };
        proof {
            assert(implements(cid_of_match, |v: ((ClauseId, Lit), Lit)| (v.0).0));
        }
        let satisfied_clauses = db.map(clause_lit_true, cid_of_match);

        // The variables assigned.
        let var_of = |t: &Lit| -> (r: Var)
            ensures
                r == t.spec_var(),
            { var(*t) };
        proof {
            assert(implements(var_of, |v: Lit| v.spec_var()));
        }
        let assigned_vars = db.map(assigned, var_of);

        assert(db.nodes()[levels.id.0 as int] == levels_node);
        // Clause literals whose variable is assigned.
        let with_var = |t: &(ClauseId, Lit)| -> (r: (ClauseId, Lit, Var))
            ensures
                r == (t.0, t.1, t.1.spec_var()),
            { (t.0, t.1, var(t.1)) };
        proof {
            assert(implements(with_var, |v: (ClauseId, Lit)| (v.0, v.1, v.1.spec_var())));
        }
        let clause_lit_with_var = db.map(all_clauses, with_var);
        let third = |t: &(ClauseId, Lit, Var)| -> (r: Var)
            ensures
                r == t.2,
            { t.2 };
        let same_var = |t: &Var| -> (r: Var)
            ensures
                r == *t,
            { *t };
        proof {
            assert(implements(third, |v: (ClauseId, Lit, Var)| v.2));
            assert(implements(same_var, |v: Var| v));
        }
        let clause_assigned_lits = db.join(clause_lit_with_var, assigned_vars, third, same_var);
        let first_two = |t: &((ClauseId, Lit, Var), Var)| -> (r: (ClauseId, Lit))
            ensures
                r == ((t.0).0, (t.0).1),
            { ((t.0).0, (t.0).1) };
        proof {
            assert(implements(first_two, |v: ((ClauseId, Lit, Var), Var)| ((v.0).0, (v.0).1)));
        }
        let clause_assigned_lit_ids = db.map(clause_assigned_lits, first_two);

        // Unassigned literals in clauses, and their number per clause.
        let clause_unassigned_lits = db.difference(all_clauses, clause_assigned_lit_ids);
        let clause_of = |t: &(ClauseId, Lit)| -> (r: ClauseId)
            ensures
                r == t.0,
            { t.0 };
        proof {
            assert(implements(clause_of, |v: (ClauseId, Lit)| v.0));
        }
        let unassigned_count = db.group_count(clause_unassigned_lits, clause_of);

        assert(db.nodes()[levels.id.0 as int] == levels_node);
        // Clauses with exactly one unassigned literal.
        let count_is_one = |t: &(ClauseId, i64)| -> (r: bool)
            ensures
                r == (t.1 == 1),
            { t.1 == 1 };
        proof {
            assert(implements(count_is_one, |v: (ClauseId, i64)| v.1 == 1));
        }
        let unit_candidate_clauses = db.filter(unassigned_count, count_is_one);
        let count_clause = |t: &(ClauseId, i64)| -> (r: ClauseId)
            ensures
                r == t.0,
            { t.0 };
        proof {
            assert(implements(count_clause, |v: (ClauseId, i64)| v.0));
        }
        let unit_clause_ids = db.map(unit_candidate_clauses, count_clause);

        // The unassigned literal of each such clause.
        let same_clause = |t: &ClauseId| -> (r: ClauseId)
            ensures
                r == *t,
            { *t };
        proof {
            assert(implements(same_clause, |v: ClauseId| v));
        }
        let units_with_lit = db.join(unit_clause_ids, clause_unassigned_lits, same_clause, clause_of);
        let unit_pair = |t: &(ClauseId, (ClauseId, Lit))| -> (r: (ClauseId, Lit))
            ensures
                r == (t.0, (t.1).1),
            { (t.0, (t.1).1) };
        proof {
            assert(implements(unit_pair, |v: (ClauseId, (ClauseId, Lit))| (v.0, (v.1).1)));
        }
        let potential_units = db.map(units_with_lit, unit_pair);

        assert(db.nodes()[levels.id.0 as int] == levels_node);
        // Only unsatisfied clauses propagate.
        let satisfied_set = db.map(satisfied_clauses, same_clause);
        let unit_clause_sat_check = db.join(potential_units, satisfied_set, clause_of, same_clause);
        let matched_unit = |t: &((ClauseId, Lit), ClauseId)| -> (r: (ClauseId, Lit))
            ensures
                r == t.0,
            { t.0 };
        proof {
            assert(implements(matched_unit, |v: ((ClauseId, Lit), ClauseId)| v.0));
        }
        let units_from_sat = db.map(unit_clause_sat_check, matched_unit);
        let units = db.difference(potential_units, units_from_sat);

        // Conflicts of the first kind: clauses whose literals are all false.
        let all_clause_ids = db.map(all_clauses, clause_of);
        let all_clause_ids_distinct = db.distinct(all_clause_ids);
        let clauses_with_unassigned = db.map(unassigned_count, count_clause);
        let fully_assigned_clauses = db.difference(all_clause_ids_distinct, clauses_with_unassigned);
        let satisfied_distinct = db.distinct(satisfied_set);
        let clause_conflicts = db.difference(fully_assigned_clauses, satisfied_distinct);

        assert(db.nodes()[levels.id.0 as int] == levels_node);
        // Conflicts of the second kind: both polarities of a variable assigned.
        let lit_with_var = |t: &Lit| -> (r: (Lit, Var))
            ensures
                r == (*t, t.spec_var()),
            { (*t, var(*t)) };
        let var_of_pair = |t: &(Lit, Var)| -> (r: Var)
            ensures
                r == t.1,
            { t.1 };
        proof {
            assert(implements(lit_with_var, |v: Lit| (v, v.spec_var())));
            assert(implements(var_of_pair, |v: (Lit, Var)| v.1));
        }
        let assigned_with_var = db.map(assigned, lit_with_var);
        let both_polarities = db.join(assigned_with_var, assigned_with_var, var_of_pair, var_of_pair);
        let differ = |t: &((Lit, Var), (Lit, Var))| -> (r: bool)
            ensures
                r == ((t.0).0 != (t.1).0),
            { (t.0).0 != (t.1).0 };
        proof {
            assert(implements(differ, |v: ((Lit, Var), (Lit, Var))| (v.0).0 != (v.1).0));
        }
        let conflicting_pairs = db.filter(both_polarities, differ);
        let conflict_var = |t: &((Lit, Var), (Lit, Var))| -> (r: Var)
            ensures
                r == (t.0).1,
            { (t.0).1 };
        proof {
            assert(implements(conflict_var, |v: ((Lit, Var), (Lit, Var))| (v.0).1));
        }
        let direct_conflict_vars = db.map(conflicting_pairs, conflict_var);
        let direct_conflict_vars_distinct = db.distinct(direct_conflict_vars);

        // Both kinds, as conflicts.
        let empty_clause = |t: &ClauseId| -> (r: Conflict)
            ensures
                r == Conflict::EmptyClause(*t),
            { Conflict::EmptyClause(*t) };
        let direct = |t: &Var| -> (r: Conflict)
            ensures
                r == Conflict::DirectConflict(*t),
            { Conflict::DirectConflict(*t) };
        proof {
            assert(implements(empty_clause, |v: ClauseId| Conflict::EmptyClause(v)));
            assert(implements(direct, |v: Var| Conflict::DirectConflict(v)));
        }
        let clause_conflict_enums = db.map(clause_conflicts, empty_clause);
        let direct_conflict_enums = db.map(direct_conflict_vars_distinct, direct);
        let conflicts = db.union(clause_conflict_enums, direct_conflict_enums);

        assert(db.nodes()[levels.id.0 as int] == levels_node);
        // Stop the fixpoint as soon as a conflict of either kind appears.
        db.interrupt(clause_conflict_enums);
        db.interrupt(direct_conflict_enums);

        // The feedback loop: each unit's literal, at the current level, with its clause.
        let to_unit = |t: &(ClauseId, Lit)| -> (r: ())
            ensures
                r == (),
            { () };
        let to_unit_level = |t: &Level| -> (r: ())
            ensures
                r == (),
            { () };
        proof {
            assert(implements(to_unit, |v: (ClauseId, Lit)| ()));
            assert(implements(to_unit_level, |v: Level| ()));
        }
        let unit_with_level = db.join(units, current_level_rel, to_unit, to_unit_level);
        let implied = |t: &((ClauseId, Lit), Level)| -> (r: (Lit, Level, ClauseId))
            ensures
                r == ((t.0).1, t.1, (t.0).0),
            { ((t.0).1, t.1, (t.0).0) };
        proof {
            assert(implements(implied, |v: ((ClauseId, Lit), Level)| ((v.0).1, v.1, (v.0).0)));
        }
        let unit_lit_level_cid = db.map(unit_with_level, implied);
        let all_new_assignments = db.union(decision_assignments, unit_lit_level_cid);
        assert(db.nodes()[levels.id.0 as int] == levels_node);
        assert(db.nodes()[clauses.id.0 as int] == clauses_node);
        assert(db.nodes()[learned.id.0 as int] == learned_node);
        db.feedback_with_id(prep_var, decision_assignments, all_new_assignments);

        assert(db.state(levels.id.0 as int) == levels_node.state@);
        // Open the top level, so that unit propagation works at level 0.
        db.insert(levels, Level::top());
        db.commit();
        proof {
            assert(typed_view::<(ClauseId, Lit)>(db.state(clauses.id.0 as int)) =~= Map::empty());
            assert(typed_view::<(ClauseId, Lit)>(db.state(learned.id.0 as int)) =~= Map::empty());
        }

        Solver {
            db,
            clauses,
            learned,
            levels,
            decision_assignments,
            current_level_rel,
            prep_assignments,
            assignments,
            causes,
            assigned,
            units,
            conflicts,
            current_level: Level::top(),
            next_learned_id: ClauseId::new(1_000_000),
            num_vars,
            decision_stack: Vec::new(),
            exhausted: false,
        }
    }
}

impl Solver {
    /// The original clauses, as `(clause, literal)` tuples with multiplicities.
    pub closed spec fn clause_lits(&self) -> Map<(ClauseId, Lit), int> {
        typed_view::<(ClauseId, Lit)>(self.db.state(self.clauses.id.0 as int))
    }

    /// The learned clauses, as `(clause, literal)` tuples with multiplicities.
    pub closed spec fn learned_lits(&self) -> Map<(ClauseId, Lit), int> {
        typed_view::<(ClauseId, Lit)>(self.db.state(self.learned.id.0 as int))
    }

    /// The decision levels opened, with multiplicities.
    pub closed spec fn level_counts(&self) -> Map<Level, int> {
        typed_view::<Level>(self.db.state(self.levels.id.0 as int))
    }

    /// The decision assignments, with multiplicities.
    pub closed spec fn decision_counts(&self) -> Map<(Lit, Level, ClauseId), int> {
        typed_view::<(Lit, Level, ClauseId)>(self.db.state(self.decision_assignments.id.0 as int))
    }

    /// The literals assigned true, with multiplicities.
    pub closed spec fn assigned_lits(&self) -> Map<Lit, int> {
        typed_view::<Lit>(self.db.state(self.assigned.id.0 as int))
    }

    /// The assignments `(literal, level)`, with multiplicities.
    pub closed spec fn assignment_counts(&self) -> Map<(Lit, Level), int> {
        typed_view::<(Lit, Level)>(self.db.state(self.assignments.id.0 as int))
    }

    /// The conflicts found, with multiplicities.
    pub closed spec fn conflict_counts(&self) -> Map<Conflict, int> {
        typed_view::<Conflict>(self.db.state(self.conflicts.id.0 as int))
    }

    /// The unit clauses with their implied literals, with multiplicities.
    pub closed spec fn unit_counts(&self) -> Map<(ClauseId, Lit), int> {
        typed_view::<(ClauseId, Lit)>(self.db.state(self.units.id.0 as int))
    }

    pub closed spec fn spec_level(&self) -> Level {
        self.current_level
    }

    /// The decisions made, oldest first: `(level, literal, tried_both)`.
    pub closed spec fn decisions(&self) -> Seq<(Level, Lit, bool)> {
        self.decision_stack@
    }

    pub closed spec fn spec_num_vars(&self) -> Var {
        self.num_vars
    }

    /// The identifier the next learned clause gets.
    pub closed spec fn next_learned(&self) -> ClauseId {
        self.next_learned_id
    }

    /// The search stopped because the decision level or a multiplicity reached its limit.
    pub closed spec fn spec_exhausted(&self) -> bool {
        self.exhausted
    }

    /// Variable `v` has a literal assigned true.
    pub open spec fn assigned_var(&self, v: Var) -> bool {
        count_of(self.assigned_lits(), Lit::spec_pos(v)) > 0 || count_of(self.assigned_lits(), Lit::spec_neg(v)) > 0
    }

    /// Add an original clause to the solver.
    pub fn add_clause(&mut self, clause_id: ClauseId, literals: &[Lit])
        requires
            old(self).wf(),
            forall|l: Lit| #[trigger] count_of(old(self).clause_lits(), (clause_id, l)) + literals@.len() < i64::MAX,
        ensures
            final(self).wf(),
            forall|x: (ClauseId, Lit)| #[trigger] count_of(final(self).clause_lits(), x) == count_of(old(self).clause_lits(), x)
                + if x.0 == clause_id {
                occurrences(literals@, x.1) as int
            } else {
                0
            },
            final(self).spec_level() == old(self).spec_level(),
            final(self).decisions() == old(self).decisions(),
            final(self).spec_num_vars() == old(self).spec_num_vars(),
            final(self).next_learned() == old(self).next_learned(),
            final(self).spec_exhausted() == old(self).spec_exhausted(),
    {
        let ghost s0 = *self;
        let mut i: usize = 0;
        while i < literals.len()
            invariant
                self.wf(),
                i <= literals@.len(),
                forall|l: Lit| #[trigger] count_of(s0.clause_lits(), (clause_id, l)) + literals@.len() < i64::MAX,
                forall|x: (ClauseId, Lit)| #[trigger] count_of(self.clause_lits(), x) == count_of(s0.clause_lits(), x)
                    + if x.0 == clause_id {
                    occurrences(literals@.subrange(0, i as int), x.1) as int
                } else {
                    0
                },
                self.current_level == s0.current_level,
                self.decision_stack == s0.decision_stack,
                self.num_vars == s0.num_vars,
                self.next_learned_id == s0.next_learned_id,
                self.exhausted == s0.exhausted,
                self.clauses == s0.clauses,
                self.learned == s0.learned,
                self.levels == s0.levels,
                self.decision_assignments == s0.decision_assignments,
                self.current_level_rel == s0.current_level_rel,
                self.prep_assignments == s0.prep_assignments,
                self.assignments == s0.assignments,
                self.causes == s0.causes,
                self.assigned == s0.assigned,
                self.units == s0.units,
                self.conflicts == s0.conflicts,
            decreases literals@.len() - i,
        {
            let lit = literals[i];
            let ghost before = self.clause_lits();
            proof {
                lemma_occurrences_bound(literals@.subrange(0, i as int), lit);
                assert(literals@.subrange(0, i as int) =~= literals@.subrange(0, i + 1).drop_last());
                assert(count_of(before, (clause_id, lit)) == count_of(s0.clause_lits(), (clause_id, lit)) + occurrences(literals@.subrange(0, i as int), lit));
            }
            self.db.insert(self.clauses, (clause_id, lit));
            proof {
                assert forall|x: (ClauseId, Lit)| #[trigger] count_of(self.clause_lits(), x) == count_of(before, x) + if x == (clause_id, lit) {
                    1int
                } else {
                    0
                } by {
                    <(ClauseId, Lit) as Tuple>::lemma_encode_injective(x, (clause_id, lit));
                }
            }
            i = i + 1;
        }
        proof {
            assert(literals@.subrange(0, i as int) =~= literals@);
        }
        let ghost before = self.clause_lits();
        self.db.commit();
        proof {
            assert(self.clause_lits() == before);
        }
    }

    /// Make a decision: assign a literal at a new decision level. `tried_opposite` says
    /// whether the opposite polarity was already tried.
    fn decide_internal(&mut self, lit: Lit, tried_opposite: bool)
        requires
            old(self).can_decide(lit),
        ensures
            final(self).wf(),
            final(self).spec_level() == old(self).spec_level().spec_next(),
            final(self).decisions() == old(self).decisions().push((final(self).spec_level(), lit, tried_opposite)),
            final(self).spec_num_vars() == old(self).spec_num_vars(),
            final(self).next_learned() == old(self).next_learned(),
            final(self).spec_exhausted() == old(self).spec_exhausted(),
    {
        self.db.push(None);
        self.current_level.inc();
        self.decision_stack.push((self.current_level, lit, tried_opposite));
        self.db.insert(self.levels, self.current_level);
        self.db.insert(self.decision_assignments, (lit, self.current_level, ClauseId::decision()));
        self.db.commit();
    }

    /// A decision of `lit` can be made: the level and the multiplicities it raises have room.
    pub open spec fn can_decide(&self, lit: Lit) -> bool {
        &&& self.wf()
        &&& self.spec_level().value() < u32::MAX
        &&& lit.value() != i32::MIN
        &&& count_of(self.level_counts(), self.spec_level().spec_next()) < i64::MAX
        &&& count_of(self.decision_counts(), (lit, self.spec_level().spec_next(), ClauseId::spec_decision())) < i64::MAX
    }

    /// A limit stops the next decision: the level is at its greatest, or the count of the next
    /// level, or of some decision at it, would pass `i64::MAX`.
    pub open spec fn at_limit(&self) -> bool {
        ||| self.spec_level().value() == u32::MAX
        ||| count_of(self.level_counts(), self.spec_level().spec_next()) >= i64::MAX
        ||| exists|l: Lit| l.value() != i32::MIN
            && #[trigger] count_of(self.decision_counts(), (l, self.spec_level().spec_next(), ClauseId::spec_decision())) >= i64::MAX
    }

    /// Whether a decision of `lit` can be made.
    fn decision_room(&self, lit: Lit) -> (r: bool)
        requires
            self.wf(),
        ensures
            r == self.can_decide(lit),
    {
        if self.current_level.raw() == u32::MAX || lit.raw() == i32::MIN {
            return false;
        }
        let mut next = self.current_level;
        next.inc();
        let a = self.db.multiplicity(self.levels, &next);
        let b = self.db.multiplicity(self.decision_assignments, &(lit, next, ClauseId::decision()));
        a.0 < i64::MAX && b.0 < i64::MAX
    }

    /// Make a decision: assign a literal at a new decision level.
    pub fn decide(&mut self, lit: Lit)
        requires
            old(self).can_decide(lit),
        ensures
            final(self).wf(),
            final(self).spec_level() == old(self).spec_level().spec_next(),
            final(self).decisions() == old(self).decisions().push((final(self).spec_level(), lit, false)),
            final(self).spec_num_vars() == old(self).spec_num_vars(),
            final(self).next_learned() == old(self).next_learned(),
            final(self).spec_exhausted() == old(self).spec_exhausted(),
    {
        self.decide_internal(lit, false);
    }

    /// Check for conflicts: propagation runs to its fixpoint when a commit happens, so this
    /// returns a conflict if there is one.
    pub fn propagate(&mut self) -> (r: Result<(), Conflict>)
        requires
            old(self).wf(),
        ensures
            *final(self) == *old(self),
            match r {
                Ok(()) => forall|c: Conflict| #[trigger] count_of(old(self).conflict_counts(), c) <= 0,
                Err(c) => count_of(old(self).conflict_counts(), c) > 0,
            },
    {
        let conflicts = self.db.collect(self.conflicts);
        if conflicts.len() > 0 {
            proof {
                assert(count_of(self.db.state(self.conflicts.id.0 as int), Conflict::encode(conflicts@[0]@)) > 0);
            }
            return Err(conflicts[0]);
        }
        proof {
            assert forall|c: Conflict| #[trigger] count_of(self.conflict_counts(), c) <= 0 by {
                if count_of(self.db.state(self.conflicts.id.0 as int), Conflict::encode(c)) > 0 {
                    let i = choose|i: int| 0 <= i < conflicts@.len() && conflicts@[i]@ == c;
                }
            }
        }
        Ok(())
    }

    /// Backtrack to the given level, popping decision stack entries.
    pub fn backtrack_to(&mut self, level: Level)
        requires
            old(self).wf(),
        ensures
            final(self).wf(),
            final(self).spec_level().value() == if old(self).spec_level().value() > level.value() {
                level.value()
            } else {
                old(self).spec_level().value()
            },
            final(self).decisions() == old(self).decisions().subrange(0, final(self).spec_level().value() as int),
            final(self).spec_num_vars() == old(self).spec_num_vars(),
            final(self).next_learned() == old(self).next_learned(),
            final(self).spec_exhausted() == old(self).spec_exhausted(),
    {
        let ghost s0 = *self;
        while self.current_level.raw() > level.raw()
            invariant
                self.wf(),
                self.current_level.value() <= s0.current_level.value(),
                self.current_level.value() < s0.current_level.value() ==> self.current_level.value() >= level.value(),
                self.decision_stack@ == s0.decision_stack@.subrange(0, self.current_level.value() as int),
                s0.decision_stack@.len() == s0.current_level.value(),
                self.num_vars == s0.num_vars,
                self.next_learned_id == s0.next_learned_id,
                self.exhausted == s0.exhausted,
            decreases self.current_level.value(),
        {
            self.db.pop();
            let ghost st = self.decision_stack@;
            self.decision_stack.pop();
            self.current_level.dec();
            proof {
                assert(self.decision_stack@ =~= s0.decision_stack@.subrange(0, self.current_level.value() as int));
            }
        }
    }

    /// Learn a clause: add it to the persistent learned relation.
    pub fn learn_clause(&mut self, literals: &[Lit]) -> (r: ClauseId)
        requires
            old(self).wf(),
            old(self).next_learned().value() < u32::MAX,
            forall|l: Lit| #[trigger] count_of(old(self).learned_lits(), (old(self).next_learned(), l)) + literals@.len() < i64::MAX,
        ensures
            final(self).wf(),
            r == old(self).next_learned(),
            final(self).next_learned().value() == r.value() + 1,
            forall|x: (ClauseId, Lit)| #[trigger] count_of(final(self).learned_lits(), x) == count_of(old(self).learned_lits(), x)
                + if x.0 == r {
                occurrences(literals@, x.1) as int
            } else {
                0
            },
            final(self).spec_level() == old(self).spec_level(),
            final(self).decisions() == old(self).decisions(),
            final(self).spec_num_vars() == old(self).spec_num_vars(),
            final(self).spec_exhausted() == old(self).spec_exhausted(),
    {
        let cid = self.next_learned_id;
        self.next_learned_id = ClauseId::new(self.next_learned_id.raw() + 1);
        let ghost s0 = *self;
        assert(s0.learned_lits() == old(self).learned_lits());
        let mut i: usize = 0;
        while i < literals.len()
            invariant
                self.wf(),
                i <= literals@.len(),
                forall|l: Lit| #[trigger] count_of(s0.learned_lits(), (cid, l)) + literals@.len() < i64::MAX,
                forall|x: (ClauseId, Lit)| #[trigger] count_of(self.learned_lits(), x) == count_of(s0.learned_lits(), x)
                    + if x.0 == cid {
                    occurrences(literals@.subrange(0, i as int), x.1) as int
                } else {
                    0
                },
                self.current_level == s0.current_level,
                self.decision_stack == s0.decision_stack,
                self.num_vars == s0.num_vars,
                self.next_learned_id == s0.next_learned_id,
                self.exhausted == s0.exhausted,
                self.clauses == s0.clauses,
                self.learned == s0.learned,
                self.levels == s0.levels,
                self.decision_assignments == s0.decision_assignments,
                self.current_level_rel == s0.current_level_rel,
                self.prep_assignments == s0.prep_assignments,
                self.assignments == s0.assignments,
                self.causes == s0.causes,
                self.assigned == s0.assigned,
                self.units == s0.units,
                self.conflicts == s0.conflicts,
            decreases literals@.len() - i,
        {
            let lit = literals[i];
            let ghost before = self.learned_lits();
            proof {
                lemma_occurrences_bound(literals@.subrange(0, i as int), lit);
                assert(literals@.subrange(0, i as int) =~= literals@.subrange(0, i + 1).drop_last());
                assert(count_of(before, (cid, lit)) == count_of(s0.learned_lits(), (cid, lit)) + occurrences(literals@.subrange(0, i as int), lit));
            }
            self.db.insert(self.learned, (cid, lit));
            proof {
                assert forall|x: (ClauseId, Lit)| #[trigger] count_of(self.learned_lits(), x) == count_of(before, x) + if x == (cid, lit) {
                    1int
                } else {
                    0
                } by {
                    <(ClauseId, Lit) as Tuple>::lemma_encode_injective(x, (cid, lit));
                }
            }
            i = i + 1;
        }
        proof {
            assert(literals@.subrange(0, i as int) =~= literals@);
        }
        let ghost before = self.learned_lits();
        self.db.commit();
        proof {
            assert(self.learned_lits() == before);
        }
        cid
    }

    /// Get all currently assigned literals with their levels.
    pub fn get_assignments(&self) -> (r: Vec<(Lit, Level)>)
        requires
            self.wf(),
        ensures
            forall|i: int| 0 <= i < r@.len() ==> count_of(self.assignment_counts(), #[trigger] r@[i]) > 0,
            forall|x: (Lit, Level)| #[trigger] count_of(self.assignment_counts(), x) > 0 ==> exists|i: int| 0 <= i < r@.len() && r@[i] == x,
            forall|i: int, j: int| 0 <= i < j < r@.len() ==> r@[i] != r@[j],
    {
        let r = self.db.collect(self.assignments);
        proof {
            assert forall|i: int| 0 <= i < r@.len() implies count_of(self.assignment_counts(), #[trigger] r@[i]) > 0 by {
                assert(r@[i]@ == r@[i]);
            }
            assert forall|x: (Lit, Level)| #[trigger] count_of(self.assignment_counts(), x) > 0 implies exists|i: int| 0 <= i < r@.len() && r@[i] == x by {
                assert(x@ == x);
                let i = choose|i: int| 0 <= i < r@.len() && r@[i]@ == x;
                assert(r@[i]@ == r@[i]);
            }
            assert forall|i: int, j: int| 0 <= i < j < r@.len() implies r@[i] != r@[j] by {
                assert(r@[i]@ == r@[i] && r@[j]@ == r@[j]);
            }
        }
        r
    }

    /// Get the current decision level.
    pub fn level(&self) -> (r: Level)
        ensures
            r == self.spec_level(),
    {
        self.current_level
    }

    /// Whether `l` occurs in `lits`.
    fn contains_lit(lits: &Vec<Lit>, l: Lit) -> (r: bool)
        ensures
            r == exists|i: int| 0 <= i < lits@.len() && lits@[i] == l,
    {
        let mut i: usize = 0;
        while i < lits.len()
            invariant
                i <= lits@.len(),
                forall|j: int| 0 <= j < i ==> lits@[j] != l,
            decreases lits@.len() - i,
        {
            if lits[i] == l {
                return true;
            }
            i = i + 1;
        }
        false
    }

    /// The literals assigned true, each once.
    fn assigned_list(&self) -> (r: Vec<Lit>)
        requires
            self.wf(),
        ensures
            forall|l: Lit| (exists|i: int| 0 <= i < r@.len() && r@[i] == l) <==> #[trigger] count_of(self.assigned_lits(), l) > 0,
    {
        let r = self.db.collect(self.assigned);
        proof {
            assert forall|l: Lit| (exists|i: int| 0 <= i < r@.len() && r@[i] == l) <==> #[trigger] count_of(self.assigned_lits(), l) > 0 by {
                if exists|i: int| 0 <= i < r@.len() && r@[i] == l {
                    let i = choose|i: int| 0 <= i < r@.len() && r@[i] == l;
                    assert(count_of(self.db.state(self.assigned.id.0 as int), Lit::encode(r@[i]@)) > 0);
                }
                if count_of(self.assigned_lits(), l) > 0 {
                    assert(count_of(self.db.state(self.assigned.id.0 as int), Lit::encode(l)) > 0);
                    let i = choose|i: int| 0 <= i < r@.len() && r@[i]@ == l;
                }
            }
        }
        r
    }

    /// Check if a variable is assigned.
    pub fn is_assigned(&self, v: Var) -> (r: bool)
        requires
            self.wf(),
            v.value() as i32 != i32::MIN,
        ensures
            r == self.assigned_var(v),
    {
        let assigned = self.assigned_list();
        let p = Self::contains_lit(&assigned, Lit::pos(v));
        let n = Self::contains_lit(&assigned, Lit::neg(v));
        proof {
            assert(p == (count_of(self.assigned_lits(), Lit::spec_pos(v)) > 0));
            assert(n == (count_of(self.assigned_lits(), Lit::spec_neg(v)) > 0));
        }
        p || n
    }

    /// Get the truth value of a variable, if assigned.
    pub fn value(&self, v: Var) -> (r: Option<bool>)
        requires
            self.wf(),
            v.value() as i32 != i32::MIN,
        ensures
            r == if count_of(self.assigned_lits(), Lit::spec_pos(v)) > 0 {
                Some(true)
            } else if count_of(self.assigned_lits(), Lit::spec_neg(v)) > 0 {
                Some(false)
            } else {
                None::<bool>
            },
    {
        let assigned = self.assigned_list();
        if Self::contains_lit(&assigned, Lit::pos(v)) {
            Some(true)
        } else if Self::contains_lit(&assigned, Lit::neg(v)) {
            Some(false)
        } else {
            None
        }
    }

    /// Get the next unassigned variable: the lowest numbered.
    pub fn pick_branching_variable(&self) -> (r: Option<Var>)
        requires
            self.wf(),
        ensures
            match r {
                Some(v) => 1 <= v.value() <= self.spec_num_vars().value() && !self.assigned_var(v) && forall|w: Var|
                    1 <= w.value() < v.value() ==> #[trigger] self.assigned_var(w),
                None => forall|w: Var| 1 <= w.value() <= self.spec_num_vars().value() ==> #[trigger] self.assigned_var(w),
            },
    {
        let n = self.num_vars.raw();
        let mut v: u32 = 1;
        while v <= n
            invariant
                self.wf(),
                n == self.spec_num_vars().value(),
                n <= i32::MAX,
                1 <= v <= n + 1,
                forall|w: Var| 1 <= w.value() < v ==> #[trigger] self.assigned_var(w),
            decreases n + 1 - v,
        {
            let x = Var::new(v);
            if !self.is_assigned(x) {
                return Some(x);
            }
            proof {
                assert forall|w: Var| 1 <= w.value() < v + 1 implies #[trigger] self.assigned_var(w) by {
                    if w.value() == v {
                        lemma_var_eq(w, x);
                    }
                }
            }
            v = v + 1;
        }
        None
    }

    /// Get the current conflicts.
    pub fn get_conflicts(&self) -> (r: Vec<Conflict>)
        requires
            self.wf(),
        ensures
            forall|i: int| 0 <= i < r@.len() ==> count_of(self.conflict_counts(), #[trigger] r@[i]) > 0,
            forall|x: Conflict| #[trigger] count_of(self.conflict_counts(), x) > 0 ==> exists|i: int| 0 <= i < r@.len() && r@[i] == x,
            forall|i: int, j: int| 0 <= i < j < r@.len() ==> r@[i] != r@[j],
    {
        self.db.collect(self.conflicts)
    }

    /// Get the current units.
    pub fn get_units(&self) -> (r: Vec<(ClauseId, Lit)>)
        requires
            self.wf(),
        ensures
            forall|i: int| 0 <= i < r@.len() ==> count_of(self.unit_counts(), #[trigger] r@[i]) > 0,
            forall|x: (ClauseId, Lit)| #[trigger] count_of(self.unit_counts(), x) > 0 ==> exists|i: int| 0 <= i < r@.len() && r@[i] == x,
            forall|i: int, j: int| 0 <= i < j < r@.len() ==> r@[i] != r@[j],
    {
        let r = self.db.collect(self.units);
        proof {
            assert forall|i: int| 0 <= i < r@.len() implies count_of(self.unit_counts(), #[trigger] r@[i]) > 0 by {
                assert(r@[i]@ == r@[i]);
            }
            assert forall|x: (ClauseId, Lit)| #[trigger] count_of(self.unit_counts(), x) > 0 implies exists|i: int| 0 <= i < r@.len() && r@[i] == x by {
                assert(x@ == x);
                let i = choose|i: int| 0 <= i < r@.len() && r@[i]@ == x;
                assert(r@[i]@ == r@[i]);
            }
            assert forall|i: int, j: int| 0 <= i < j < r@.len() implies r@[i] != r@[j] by {
                assert(r@[i]@ == r@[i] && r@[j]@ == r@[j]);
            }
        }
        r
    }

    /// Whether the last search stopped because the decision level or a multiplicity reached
    /// its limit.
    pub fn was_exhausted(&self) -> (r: bool)
        ensures
            r == self.spec_exhausted(),
    {
        self.exhausted
    }
}

/// The number of occurrences of an element is at most the length.
pub proof fn lemma_occurrences_bound<K>(s: Seq<K>, k: K)
    ensures
        occurrences(s, k) <= s.len(),
    decreases s.len(),
{
    if s.len() > 0 {
        lemma_occurrences_bound(s.drop_last(), k);
    }
}

/// Three to the power `n`.
pub open spec fn pow3(n: nat) -> nat
    decreases n,
{
    if n == 0 {
        1
    } else {
        3 * pow3((n - 1) as nat)
    }
}

/// The greatest number of decisions: the greatest level.
pub open spec fn max_depth() -> nat {
    u32::MAX as nat
}

/// The digit of a decision in the search order: an untried decision comes before its
/// opposite.
pub open spec fn digit(e: (Level, Lit, bool)) -> nat {
    if e.2 {
        2
    } else {
        1
    }
}

/// How far the search has come: the decision stack read as a number in base three, the first
/// decision the most significant digit. Each decision and each flip to the opposite polarity
/// increases it.
pub open spec fn progress(s: Seq<(Level, Lit, bool)>) -> nat
    decreases s.len(),
{
    if s.len() == 0 {
        0
    } else {
        progress(s.drop_last()) + digit(s.last()) * pow3((max_depth() - (s.len() - 1)) as nat)
    }
}

/// A power of three is positive.
pub proof fn lemma_pow3_positive(n: nat)
    ensures
        pow3(n) >= 1,
    decreases n,
{
    if n > 0 {
        lemma_pow3_positive((n - 1) as nat);
    }
}

/// The digits after position `m` add up to less than one unit of position `m - 1`.
pub proof fn lemma_progress_tail(s: Seq<(Level, Lit, bool)>, m: int)
    requires
        0 <= m <= s.len() <= max_depth(),
    ensures
        progress(s) + pow3((max_depth() + 1 - s.len()) as nat) <= progress(s.subrange(0, m)) + pow3((max_depth() + 1 - m) as nat),
    decreases s.len(),
{
    if s.len() == m {
        assert(s.subrange(0, m) =~= s);
    } else {
        let p = s.drop_last();
        assert(p.subrange(0, m) =~= s.subrange(0, m));
        lemma_progress_tail(p, m);
        let k = (max_depth() + 1 - s.len()) as nat;
        assert(pow3(k + 1) == 3 * pow3(k));
        assert((max_depth() + 1 - p.len()) as nat == k + 1);
        assert((max_depth() - (s.len() - 1)) as nat == k);
    }
}

/// The progress of a stack of at most `max_depth` decisions is below `pow3(max_depth + 1)`.
pub proof fn lemma_progress_bound(s: Seq<(Level, Lit, bool)>)
    requires
        s.len() <= max_depth(),
    ensures
        progress(s) < pow3(max_depth() + 1),
{
    lemma_progress_tail(s, 0);
    assert(s.subrange(0, 0) =~= Seq::<(Level, Lit, bool)>::empty());
    lemma_pow3_positive((max_depth() + 1 - s.len()) as nat);
}

/// A new decision increases the progress.
pub proof fn lemma_progress_push(s: Seq<(Level, Lit, bool)>, e: (Level, Lit, bool))
    requires
        s.len() < max_depth(),
    ensures
        progress(s.push(e)) > progress(s),
{
    assert(s.push(e).drop_last() =~= s);
    lemma_pow3_positive((max_depth() - s.len()) as nat);
}

/// Flipping the decision at position `k` to its opposite, and dropping the decisions after it,
/// increases the progress.
pub proof fn lemma_progress_flip(s: Seq<(Level, Lit, bool)>, k: int, e: (Level, Lit, bool))
    requires
        0 <= k < s.len() <= max_depth(),
        !s[k].2,
        e.2,
    ensures
        progress(s.subrange(0, k).push(e)) > progress(s),
{
    lemma_progress_tail(s, k + 1);
    assert(s.subrange(0, k + 1).drop_last() =~= s.subrange(0, k));
    assert(s.subrange(0, k).push(e).drop_last() =~= s.subrange(0, k));
    lemma_pow3_positive((max_depth() + 1 - s.len()) as nat);
}

impl Solver {
    /// The main search loop: propagate, then decide on the lowest unassigned variable, or,
    /// after a conflict, backtrack to the latest decision whose opposite was not tried and try
    /// it. Returns true once every variable is assigned without conflict, and false when a
    /// conflict remains with no decision left to flip. Where the decision level or a
    /// multiplicity would pass its limit, the search stops, returns false and records that
    /// it was exhausted.
    pub fn solve(&mut self) -> (r: bool)
        requires
            old(self).wf(),
        ensures
            final(self).wf(),
            r ==> forall|c: Conflict| #[trigger] count_of(final(self).conflict_counts(), c) <= 0,
            r ==> forall|w: Var| 1 <= w.value() <= final(self).spec_num_vars().value() ==> #[trigger] final(self).assigned_var(w),
            !r ==> final(self).spec_exhausted() || (final(self).spec_level().value() == 0 && final(self).decisions().len() == 0),
            final(self).spec_num_vars() == old(self).spec_num_vars(),
            final(self).spec_exhausted() ==> old(self).spec_exhausted() || final(self).at_limit(),
    {
        let ghost nv = self.num_vars;
        loop
            invariant
                self.wf(),
                self.num_vars == nv,
                old(self).num_vars == nv,
                self.exhausted == old(self).exhausted,
            decreases pow3(max_depth() + 1) - progress(self.decision_stack@),
        {
            let ghost start = self.decision_stack@;
            proof {
                lemma_progress_bound(start);
            }
            match self.propagate() {
                Ok(()) => {
                    match self.pick_branching_variable() {
                        Some(v) => {
                            let lit = Lit::pos(v);
                            if !self.decision_room(lit) {
                                let ghost pre = *self;
                                self.exhausted = true;
                                proof {
                                    assert(!pre.can_decide(lit));
                                    assert(lit.value() != i32::MIN);
                                    assert(self.level_counts() == pre.level_counts());
                                    assert(self.decision_counts() == pre.decision_counts());
                                    assert(self.spec_level() == pre.spec_level());
                                    let nx = self.spec_level().spec_next();
                                    if count_of(self.decision_counts(), (lit, nx, ClauseId::spec_decision())) >= i64::MAX {
                                        assert(exists|l: Lit| l.value() != i32::MIN
                                            && #[trigger] count_of(self.decision_counts(), (l, nx, ClauseId::spec_decision())) >= i64::MAX);
                                    }
                                    assert(self.at_limit());
                                }
                                return false;
                            }
                            self.decide(lit);
                            proof {
                                lemma_progress_push(start, self.decision_stack@.last());
                                lemma_progress_bound(self.decision_stack@);
                            }
                        },
                        None => {
                            return true;
                        },
                    }
                },
                Err(_conflict_clause) => {
                    // Find a decision level where both polarities were not tried.
                    loop
                        invariant_except_break
                            self.wf(),
                            self.num_vars == nv,
                            old(self).num_vars == nv,
                            start.len() <= max_depth(),
                            self.decision_stack@.len() <= start.len(),
                            self.decision_stack@ == start.subrange(0, self.decision_stack@.len() as int),
                            forall|i: int| self.decision_stack@.len() <= i < start.len() ==> (#[trigger] start[i]).2,
                            self.exhausted == old(self).exhausted,
                        ensures
                            self.wf(),
                            self.num_vars == nv,
                            old(self).num_vars == nv,
                            self.exhausted == old(self).exhausted,
                            progress(self.decision_stack@) > progress(start),
                        decreases self.current_level.value(),
                    {
                        if self.current_level.raw() == 0 {
                            // A conflict at level 0: unsatisfiable.
                            return false;
                        }
                        let top = self.decision_stack.len() - 1;
                        let (_, decision_lit, tried_both) = self.decision_stack[top];
                        let prev_level = Level::new(self.current_level.raw() - 1);
                        let ghost k = top as int;
                        proof {
                            assert(self.decision_stack@[k] == start[k]);
                        }
                        if tried_both {
                            // Both polarities were tried at this level: backtrack further.
                            self.backtrack_to(prev_level);
                            proof {
                                assert(self.decision_stack@ =~= start.subrange(0, self.decision_stack@.len() as int));
                            }
                        } else {
                            // Backtrack this level and try the opposite polarity.
                            self.backtrack_to(prev_level);
                            let flipped = neg(decision_lit);
                            if !self.decision_room(flipped) {
                                let ghost pre = *self;
                                self.exhausted = true;
                                proof {
                                    assert(!pre.can_decide(flipped));
                                    assert(flipped.value() != i32::MIN);
                                    assert(self.level_counts() == pre.level_counts());
                                    assert(self.decision_counts() == pre.decision_counts());
                                    assert(self.spec_level() == pre.spec_level());
                                    let nx = self.spec_level().spec_next();
                                    if count_of(self.decision_counts(), (flipped, nx, ClauseId::spec_decision())) >= i64::MAX {
                                        assert(exists|l: Lit| l.value() != i32::MIN
                                            && #[trigger] count_of(self.decision_counts(), (l, nx, ClauseId::spec_decision())) >= i64::MAX);
                                    }
                                    assert(self.at_limit());
                                }
                                return false;
                            }
                            self.decide_internal(flipped, true);
                            proof {
                                assert(start[k] == (start[k].0, decision_lit, false));
                                assert(self.decision_stack@ =~= start.subrange(0, k).push(self.decision_stack@.last()));
                                lemma_progress_flip(start, k, self.decision_stack@.last());
                            }
                            break;
                        }
                    }
                    proof {
                        lemma_progress_bound(self.decision_stack@);
                    }
                },
            }
        }
    }
}

} // verus!
