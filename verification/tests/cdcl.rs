use relational::cdcl::{ClauseId, Lit, Solver, Var};

// Helper to create literals from raw i32
fn lit(raw: i32) -> Lit {
    Lit::from_raw(raw)
}

// Helper to create clause IDs
fn cid(n: u32) -> ClauseId {
    ClauseId::new(n)
}

fn simple_sat() {
    // (x1 OR x2) AND (x1 OR NOT x2)
    // SAT: x1 = true
    let mut solver = Solver::new(Var::new(2));
    solver.add_clause(cid(1), &[lit(1), lit(2)]); // x1 OR x2
    solver.add_clause(cid(2), &[lit(1), lit(-2)]); // x1 OR NOT x2

    assert!(solver.solve());
    assert_eq!(solver.value(Var::new(1)), Some(true));
}

fn simple_unsat() {
    // (x1) AND (NOT x1)
    // UNSAT
    let mut solver = Solver::new(Var::new(1));
    solver.add_clause(cid(1), &[lit(1)]); // x1
    solver.add_clause(cid(2), &[lit(-1)]); // NOT x1

    assert!(!solver.solve());
}

fn unit_propagation() {
    // (x1) AND (NOT x1 OR x2) AND (NOT x2 OR x3)
    // Unit prop: x1=T -> x2=T -> x3=T
    let mut solver = Solver::new(Var::new(3));
    solver.add_clause(cid(1), &[lit(1)]); // x1
    solver.add_clause(cid(2), &[lit(-1), lit(2)]); // NOT x1 OR x2
    solver.add_clause(cid(3), &[lit(-2), lit(3)]); // NOT x2 OR x3

    assert!(solver.solve());
    assert_eq!(solver.value(Var::new(1)), Some(true));
    assert_eq!(solver.value(Var::new(2)), Some(true));
    assert_eq!(solver.value(Var::new(3)), Some(true));
}

fn backtracking() {
    // (x1 OR x2) AND (NOT x1 OR x2) AND (x1 OR NOT x2) AND (NOT x1 OR NOT x2)
    // This is UNSAT (pigeon hole for 2 pigeons, 1 hole)
    let mut solver = Solver::new(Var::new(2));
    solver.add_clause(cid(1), &[lit(1), lit(2)]); // x1 OR x2
    solver.add_clause(cid(2), &[lit(-1), lit(2)]); // NOT x1 OR x2
    solver.add_clause(cid(3), &[lit(1), lit(-2)]); // x1 OR NOT x2
    solver.add_clause(cid(4), &[lit(-1), lit(-2)]); // NOT x1 OR NOT x2

    assert!(!solver.solve());
}

#[test]
fn cdcl_test_simple_sat() {
    simple_sat();
}

#[test]
fn cdcl_test_simple_unsat() {
    simple_unsat();
}

#[test]
fn cdcl_test_unit_propagation() {
    unit_propagation();
}

#[test]
fn cdcl_test_backtracking() {
    backtracking();
}

#[test]
fn tests_test_simple_sat() {
    simple_sat();
}

#[test]
fn tests_test_simple_unsat() {
    simple_unsat();
}

#[test]
fn tests_test_unit_propagation() {
    unit_propagation();
}

#[test]
fn tests_test_backtracking() {
    backtracking();
}

#[test]
fn solver_decide_and_backtrack() {
    let mut solver = Solver::new(Var::new(2));
    solver.add_clause(cid(1), &[lit(1), lit(2)]);
    assert_eq!(solver.level().raw(), 0);
    solver.decide(lit(-1));
    assert_eq!(solver.level().raw(), 1);
    // Deciding NOT x1 makes x2 a unit of clause 1.
    assert_eq!(solver.propagate(), Ok(()));
    assert_eq!(solver.value(Var::new(1)), Some(false));
    assert_eq!(solver.value(Var::new(2)), Some(true));
    solver.backtrack_to(relational::cdcl::Level::new(0));
    assert_eq!(solver.level().raw(), 0);
    assert_eq!(solver.value(Var::new(1)), None);
    assert_eq!(solver.value(Var::new(2)), None);
    assert_eq!(solver.pick_branching_variable(), Some(Var::new(1)));
}

#[test]
fn solver_learned_clause_ids_count_up() {
    let mut solver = Solver::new(Var::new(2));
    let a = solver.learn_clause(&[lit(1)]);
    let b = solver.learn_clause(&[lit(2)]);
    assert_eq!(a.raw(), 1_000_000);
    assert_eq!(b.raw(), 1_000_001);
    assert!(!solver.was_exhausted());
}
