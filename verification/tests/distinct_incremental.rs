use relational::database::Database;

#[test]
fn test_distinct_after_map() {
    let mut db = Database::new();
    let clauses = db.create_input::<(i32, i32)>("clauses");
    let clause_ids = db.map(clauses, |(cid, _): &(i32, i32)| *cid);
    let clause_ids_distinct = db.distinct(clause_ids);

    db.insert(clauses, (1, 1));
    db.insert(clauses, (1, 2)); // Same clause ID, different literal
    db.insert(clauses, (2, -1));
    db.commit();

    let mut result = db.collect(clause_ids_distinct);
    result.sort();
    assert_eq!(result, vec![1, 2], "distinct should return unique clause IDs");
}

#[test]
fn test_distinct_incremental_insert() {
    let mut db = Database::new();
    let input = db.create_input::<i32>("input");
    let distinct_rel = db.distinct(input);

    db.insert(input, 1);
    db.commit();
    assert_eq!(db.collect(distinct_rel), vec![1]);

    db.insert(input, 1);
    db.insert(input, 2);
    db.commit();

    let mut result = db.collect(distinct_rel);
    result.sort();
    assert_eq!(result, vec![1, 2]);
}

#[test]
fn distinct_incremental_test_distinct_incremental_with_pop() {
    let mut db = Database::new();
    let input = db.create_input::<i32>("input");
    let distinct_rel = db.distinct(input);

    db.insert(input, 1);
    db.commit();

    let mut result = db.collect(distinct_rel);
    result.sort();
    assert_eq!(result, vec![1]);

    db.push(None);
    db.insert(input, 2);
    db.commit();

    let mut result = db.collect(distinct_rel);
    result.sort();
    assert_eq!(result, vec![1, 2]);

    let popped = db.pop();
    assert!(popped, "Tried to pop past level 0");
    assert_eq!(db.collect(distinct_rel), vec![1]);
}

#[test]
fn test_distinct_with_push_pop() {
    let mut db = Database::new();
    let input = db.create_input::<i32>("input");
    let distinct_rel = db.distinct(input);

    db.insert(input, 1);
    db.insert(input, 2);
    db.commit();

    let initial = db.collect(distinct_rel);
    assert_eq!(initial.len(), 2);

    db.push(None);
    db.insert(input, 3);
    db.commit();

    let during = db.collect(distinct_rel);
    assert_eq!(during.len(), 3);

    let popped = db.pop();
    assert!(popped, "Tried to pop past level 0");

    let mut after = db.collect(distinct_rel);
    after.sort();
    assert_eq!(after, vec![1, 2], "distinct should be restored after pop");
}

#[test]
fn test_cdcl_pattern() {
    let mut db = Database::new();
    let clauses = db.create_input::<(i32, i32)>("clauses");
    let assigned = db.create_input::<i32>("assigned");

    // Clauses (cid, lit) whose literal is assigned, as clause IDs.
    let satisfied_pairs = db.join(clauses, assigned, |(_, lit): &(i32, i32)| *lit, |lit: &i32| *lit);
    let satisfied_clauses = db.map(satisfied_pairs, |((cid, _), _): &((i32, i32), i32)| *cid);
    let satisfied_distinct = db.distinct(satisfied_clauses);

    let all_clause_ids = db.map(clauses, |(cid, _): &(i32, i32)| *cid);
    let all_clause_ids_distinct = db.distinct(all_clause_ids);

    let unsatisfied = db.difference(all_clause_ids_distinct, satisfied_distinct);

    db.insert(clauses, (1, 1)); // clause 1 contains x1
    db.insert(clauses, (2, -1)); // clause 2 contains NOT x1
    db.commit();

    let mut unsat = db.collect(unsatisfied);
    unsat.sort();
    assert_eq!(unsat, vec![1, 2], "Both clauses should be unsatisfied initially");

    db.push(None);
    db.insert(assigned, 1);
    db.commit();

    let unsat_after_assign = db.collect(unsatisfied);
    assert_eq!(unsat_after_assign, vec![2], "Only clause 2 should be unsatisfied");

    let popped = db.pop();
    assert!(popped, "Tried to pop past level 0");

    let mut unsat_after_pop = db.collect(unsatisfied);
    unsat_after_pop.sort();
    assert_eq!(unsat_after_pop, vec![1, 2], "Both clauses should be unsatisfied after pop");
}

#[test]
fn test_distinct_multiplicity() {
    let mut db = Database::new();
    let input = db.create_input::<i32>("input");
    let distinct_rel = db.distinct(input);

    db.insert(input, 1);
    db.insert(input, 1);
    db.insert(input, 1);
    db.commit();

    let result = db.collect(distinct_rel);
    assert_eq!(result.len(), 1, "Should have exactly one distinct tuple");
    assert_eq!(result[0], 1);

    db.insert(input, 1);
    db.insert(input, 1);
    db.commit();

    let result_after = db.collect(distinct_rel);
    assert_eq!(result_after.len(), 1);
    assert_eq!(result_after[0], 1);
}
