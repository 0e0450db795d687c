use relational::database::{CommitId, Database, Relation, Variable};

/// path(a, c) :- path(a, b), edges(b, c), as pairs (a, c).
fn extend(db: &mut Database, path: Relation<(i32, i32)>, edges: Relation<(i32, i32)>) -> Relation<(i32, i32)> {
    let joined = db.join(path, edges, |(_, b): &(i32, i32)| *b, |(b, _): &(i32, i32)| *b);
    db.map(joined, |((a, _), (_, c)): &((i32, i32), (i32, i32))| (*a, *c))
}

/// A transitive closure of `edges`: the variable is fed `edges ∪ extend(path, edges)`.
fn closure(db: &mut Database, edges: Relation<(i32, i32)>, name: &str) -> (Variable<(i32, i32)>, Relation<(i32, i32)>, Relation<(i32, i32)>) {
    let (var, path) = db.variable::<(i32, i32)>(name);
    let new_paths = extend(db, path, edges);
    let all_paths = db.union(edges, new_paths);
    (var, path, all_paths)
}

#[test]
fn test_stratified_two_feedbacks() {
    let mut db = Database::new();
    let edges = db.create_input::<(i32, i32)>("edges");

    let (reach_var, reach, all_reach) = closure(&mut db, edges, "reach");

    let (extended_var, extended) = db.variable::<(i32, i32, i32)>("extended");
    let reach_join = db.join(reach, reach, |(_, b): &(i32, i32)| *b, |(b, _): &(i32, i32)| *b);
    let triples = db.map(reach_join, |((a, b), (_, c)): &((i32, i32), (i32, i32))| (*a, *b, *c));

    let reach_input = db.union(edges, all_reach);
    db.feedback(reach_var, reach_input, reach_input);

    db.insert(edges, (1, 2));
    db.insert(edges, (2, 3));
    db.commit();

    let reach_result = db.collect(reach);
    assert!(reach_result.contains(&(1, 2)), "reach should contain (1,2)");
    assert!(reach_result.contains(&(2, 3)), "reach should contain (2,3)");
    assert!(reach_result.contains(&(1, 3)), "reach should contain (1,3)");
    assert_eq!(reach_result.len(), 3, "reach should have exactly 3 pairs");

    db.feedback(extended_var, triples, triples);

    let extended_result = db.collect(extended);
    assert!(extended_result.contains(&(1, 2, 3)), "extended should contain (1,2,3)");
    assert_eq!(extended_result.len(), 1, "extended should have exactly 1 triple");
}

#[test]
fn test_incremental_after_feedback() {
    let mut db = Database::new();
    let edges = db.create_input::<(i32, i32)>("edges");

    let (path_var, path, all_paths) = closure(&mut db, edges, "path");
    let path_input = db.union(edges, all_paths);
    db.feedback(path_var, path_input, path_input);

    db.insert(edges, (1, 2));
    db.insert(edges, (2, 3));
    db.commit();

    let paths = db.collect(path);
    assert_eq!(paths.len(), 3);
    assert!(paths.contains(&(1, 3)));

    db.insert(edges, (3, 4));
    db.commit();

    let paths = db.collect(path);
    assert!(paths.contains(&(3, 4)), "should have new direct edge");
    assert!(paths.contains(&(2, 4)), "should have (2,4) via (2,3,4)");
    assert!(paths.contains(&(1, 4)), "should have (1,4) via (1,2,3,4)");
    assert_eq!(paths.len(), 6);
}

#[test]
fn test_feedback_order_independence() {
    let mut db = Database::new();
    let edges = db.create_input::<(i32, i32)>("edges");

    let (path_var, path, all_paths) = closure(&mut db, edges, "path");
    db.feedback(path_var, all_paths, all_paths);

    db.insert(edges, (1, 2));
    db.insert(edges, (2, 3));
    db.commit();

    let paths = db.collect(path);
    assert_eq!(paths.len(), 3);
    assert!(paths.contains(&(1, 2)));
    assert!(paths.contains(&(2, 3)));
    assert!(paths.contains(&(1, 3)));
}

#[test]
fn test_three_feedbacks_chain() {
    let mut db = Database::new();

    let facts = db.create_input::<i32>("facts");
    db.insert(facts, 1);
    db.commit();

    let (doubled_var, doubled) = db.variable::<i32>("doubled");
    let double_op = db.map(facts, |x: &i32| x * 2);

    let (tripled_var, tripled) = db.variable::<i32>("tripled");
    let triple_op = db.map(doubled, |x: &i32| x * 3);

    let (plus_one_var, plus_one) = db.variable::<i32>("plus_one");
    let plus_one_op = db.map(tripled, |x: &i32| x + 1);

    db.feedback(doubled_var, double_op, double_op);
    let doubled_result = db.collect(doubled);
    assert!(doubled_result.contains(&2), "doubled should contain 2");

    db.feedback(tripled_var, triple_op, triple_op);
    let tripled_result = db.collect(tripled);
    assert!(tripled_result.contains(&6), "tripled should contain 6");

    db.feedback(plus_one_var, plus_one_op, plus_one_op);
    let plus_one_result = db.collect(plus_one);
    assert!(plus_one_result.contains(&7), "plus_one should contain 7");
}

#[test]
fn test_feedback_immediate_fixpoint() {
    let mut db = Database::new();

    let items = db.create_input::<i32>("items");
    db.insert(items, 1);
    db.insert(items, 2);
    db.commit();

    let (var, var_rel) = db.variable::<i32>("var");
    db.feedback(var, items, items);

    let result = db.collect(var_rel);
    assert_eq!(result.len(), 2);
    assert!(result.contains(&1));
    assert!(result.contains(&2));
}

#[test]
fn test_a_reaches_fixpoint_between_b_applications() {
    let mut db = Database::new();

    let seeds = db.create_input::<i32>("seeds");

    let (v_var, v) = db.variable::<i32>("v");

    let v_max = db.max(v);
    let a = db.map(v_max, |x: &i32| if x % 100 < 50 { x + 7 } else { *x });

    let v_max_for_b = db.max(v);
    let b = db.map(v_max_for_b, |x: &i32| if *x < 200 { x + 31 } else { *x });

    let a_new = db.difference(a, v);
    let b_new = db.difference(b, v);

    let v_with_a = db.union(v, a_new);
    let v_with_b = db.union(v, b_new);

    let a_input = db.union(seeds, v_with_a);
    db.feedback(v_var, a_input, a_input);

    db.feedback(v_var, v_with_b, v_with_b);

    db.insert(seeds, 0);
    db.commit();

    let v_result: Vec<i32> = db.collect(v);
    let v_max_val = v_result.iter().max().copied().unwrap_or(-1);

    assert_eq!(v_max_val, 250, "max(V) should be 250. Got V = {:?}", v_result);
}

#[test]
fn test_interleaved_mutual_fixpoint() {
    let mut db = Database::new();

    let input = db.create_input::<i32>("input");

    let (a_var, a) = db.variable::<i32>("a");
    let a_plus_2 = db.map(a, |x: &i32| x + 2);
    let a_filtered = db.filter(a_plus_2, |x: &i32| *x <= 10);

    let (b_var, b) = db.variable::<i32>("b");
    let b_from_a = db.map(a, |x: &i32| x + 1);
    let b_filtered = db.filter(b_from_a, |x: &i32| *x <= 10);

    let a_combined = db.union(input, b);
    let a_recursive = db.union(a_combined, a_filtered);

    db.feedback(a_var, a_recursive, a_recursive);
    db.feedback(b_var, b_filtered, b_filtered);

    db.insert(input, 1);
    db.commit();

    let a_result = db.collect(a);
    assert!(a_result.contains(&1), "A should contain 1");
    assert!(a_result.contains(&3), "A should contain 3");
    assert!(a_result.contains(&5), "A should contain 5");

    let b_result = db.collect(b);
    assert!(b_result.contains(&2), "B should contain 2");
    assert!(b_result.contains(&4), "B should contain 4");

    let a_result_after = db.collect(a);
    assert!(a_result_after.contains(&2), "A should contain 2 after B feedback");
    assert!(a_result_after.contains(&4), "A should contain 4 after B feedback");

    assert!(a_result_after.len() >= 5, "A should have grown from B's feedback");
}

#[test]
fn test_diamond_dependency() {
    let mut db = Database::new();

    let input = db.create_input::<i32>("input");

    let b = db.map(input, |x: &i32| x * 2);
    let c = db.map(input, |x: &i32| x + 5);
    let d = db.union(b, c);

    let (d_var, d_rel) = db.variable::<i32>("d");
    db.feedback(d_var, d, d);

    db.insert(input, 10);
    db.commit();

    let result = db.collect(d_rel);
    assert!(result.contains(&20), "should have 10*2=20 from B");
    assert!(result.contains(&15), "should have 10+5=15 from C");
    assert_eq!(result.len(), 2);
}

#[test]
fn stratified_fixpoint_test_push_pop_simple() {
    let mut db = Database::new();

    let items = db.create_input::<i32>("items");
    let doubled = db.map(items, |x: &i32| x * 2);

    db.insert(items, 1);
    db.insert(items, 2);
    db.commit();

    assert_eq!(db.collect(items).len(), 2);
    assert_eq!(db.collect(doubled).len(), 2);

    db.push(None);
    assert_eq!(db.stack_depth(), 1);

    db.insert(items, 3);
    db.commit();

    let items_result = db.collect(items);
    assert_eq!(items_result.len(), 3);

    let doubled_result = db.collect(doubled);
    assert!(doubled_result.contains(&2));
    assert!(doubled_result.contains(&4));
    assert!(doubled_result.contains(&6));

    assert!(db.pop());
    assert_eq!(db.stack_depth(), 0);

    let items_result = db.collect(items);
    assert_eq!(items_result.len(), 2);
    assert!(items_result.contains(&1));
    assert!(items_result.contains(&2));

    let doubled_result = db.collect(doubled);
    assert!(doubled_result.contains(&2));
    assert!(doubled_result.contains(&4));
}

#[test]
fn test_push_pop_nested() {
    let mut db = Database::new();

    let items = db.create_input::<i32>("items");

    db.insert(items, 1);
    db.commit();

    db.push(None);
    db.insert(items, 2);
    db.commit();

    db.push(None);
    db.insert(items, 3);
    db.commit();

    assert_eq!(db.collect(items).len(), 3);
    assert_eq!(db.stack_depth(), 2);

    let popped = db.pop();
    assert!(popped, "Tried to pop past level 0");
    assert_eq!(db.stack_depth(), 1);
    let items_result = db.collect(items);
    assert_eq!(items_result.len(), 2);
    assert!(items_result.contains(&1));
    assert!(items_result.contains(&2));
    assert!(!items_result.contains(&3));

    let popped = db.pop();
    assert!(popped, "Tried to pop past level 0");
    assert_eq!(db.stack_depth(), 0);
    let items_result = db.collect(items);
    assert_eq!(items_result.len(), 1);
    assert!(items_result.contains(&1));
}

#[test]
fn test_push_pop_with_feedback() {
    let mut db = Database::new();
    let edges = db.create_input::<(i32, i32)>("edges");

    let (path_var, path, all_paths) = closure(&mut db, edges, "path");
    db.feedback(path_var, all_paths, all_paths);

    db.insert(edges, (1, 2));
    db.insert(edges, (2, 3));
    db.commit();

    let paths = db.collect(path);
    assert_eq!(paths.len(), 3);
    assert!(paths.contains(&(1, 3)));

    db.push(None);

    db.insert(edges, (3, 4));
    db.commit();

    let paths = db.collect(path);
    assert_eq!(paths.len(), 6);
    assert!(paths.contains(&(1, 4)));

    let popped = db.pop();
    assert!(popped, "Tried to pop past level 0");

    let paths = db.collect(path);
    assert_eq!(paths.len(), 3, "Should have 3 paths after pop: {:?}", paths);
    assert!(paths.contains(&(1, 2)));
    assert!(paths.contains(&(2, 3)));
    assert!(paths.contains(&(1, 3)));
    assert!(!paths.contains(&(1, 4)), "Should not have (1,4) after pop");
}

#[test]
fn test_pop_empty_stack() {
    let mut db = Database::new();

    assert!(!db.pop());
    assert_eq!(db.stack_depth(), 0);
}

#[test]
fn test_push_pop_no_changes() {
    let mut db = Database::new();

    let items = db.create_input::<i32>("items");
    db.insert(items, 1);
    db.insert(items, 2);
    db.commit();

    db.push(None);

    assert!(db.pop());

    let items_result = db.collect(items);
    assert_eq!(items_result.len(), 2);
    assert!(items_result.contains(&1));
    assert!(items_result.contains(&2));
}

#[test]
fn test_persistent_vs_regular_inputs() {
    let mut db = Database::new();

    let decisions = db.create_input::<i32>("decisions");
    let learned = db.create_persistent_input::<i32>("learned");

    db.insert(decisions, 1);
    db.insert(learned, 100);
    db.commit();

    db.push(None);

    db.insert(decisions, 2);
    db.insert(learned, 200);
    db.commit();

    let decisions_result = db.collect(decisions);
    assert!(decisions_result.contains(&1));
    assert!(decisions_result.contains(&2));

    let learned_result = db.collect(learned);
    assert!(learned_result.contains(&100));
    assert!(learned_result.contains(&200));

    let popped = db.pop();
    assert!(popped, "Tried to pop past level 0");

    let decisions_result = db.collect(decisions);
    assert!(decisions_result.contains(&1));
    assert!(!decisions_result.contains(&2), "Decision 2 should be undone");
    assert_eq!(decisions_result.len(), 1);

    let learned_result = db.collect(learned);
    assert!(learned_result.contains(&100));
    assert!(learned_result.contains(&200), "Learned clause 200 should survive pop");
    assert_eq!(learned_result.len(), 2);
}

#[test]
fn test_persistent_nested_checkpoints() {
    let mut db = Database::new();

    let regular = db.create_input::<i32>("regular");
    let persistent = db.create_persistent_input::<i32>("persistent");

    db.insert(regular, 1);
    db.insert(persistent, 100);
    db.commit();

    db.push(None);
    db.insert(regular, 2);
    db.insert(persistent, 200);
    db.commit();

    db.push(None);
    db.insert(regular, 3);
    db.insert(persistent, 300);
    db.commit();

    assert_eq!(db.collect(regular).len(), 3);
    assert_eq!(db.collect(persistent).len(), 3);

    let popped = db.pop();
    assert!(popped, "Tried to pop past level 0");
    let regular_result = db.collect(regular);
    assert_eq!(regular_result.len(), 2);
    assert!(!regular_result.contains(&3));
    let persistent_result = db.collect(persistent);
    assert_eq!(persistent_result.len(), 3);
    assert!(persistent_result.contains(&300));

    let popped = db.pop();
    assert!(popped, "Tried to pop past level 0");
    let regular_result = db.collect(regular);
    assert_eq!(regular_result.len(), 1);
    assert!(regular_result.contains(&1));
    let persistent_result = db.collect(persistent);
    assert_eq!(persistent_result.len(), 3);
    assert!(persistent_result.contains(&100));
    assert!(persistent_result.contains(&200));
    assert!(persistent_result.contains(&300));
}

#[test]
fn test_persistent_with_derived() {
    let mut db = Database::new();

    let regular = db.create_input::<i32>("regular");
    let persistent = db.create_persistent_input::<i32>("persistent");

    let combined = db.union(regular, persistent);

    db.insert(regular, 1);
    db.insert(persistent, 100);
    db.commit();

    db.push(None);
    db.insert(regular, 2);
    db.insert(persistent, 200);
    db.commit();

    let combined_result = db.collect(combined);
    assert_eq!(combined_result.len(), 4);

    let popped = db.pop();
    assert!(popped, "Tried to pop past level 0");

    let combined_result = db.collect(combined);
    assert_eq!(combined_result.len(), 3);
    assert!(combined_result.contains(&1));
    assert!(combined_result.contains(&100));
    assert!(combined_result.contains(&200));
    assert!(!combined_result.contains(&2));
}

#[test]
fn test_persistent_delete() {
    let mut db = Database::new();

    let persistent = db.create_persistent_input::<i32>("persistent");
    db.insert(persistent, 100);
    db.insert(persistent, 200);
    db.commit();

    db.push(None);
    db.delete(persistent, 100);
    db.commit();

    let result = db.collect(persistent);
    assert_eq!(result.len(), 1);
    assert!(result.contains(&200));

    let popped = db.pop();
    assert!(popped, "Tried to pop past level 0");

    let result = db.collect(persistent);
    assert_eq!(result.len(), 1);
    assert!(result.contains(&200));
    assert!(!result.contains(&100), "Delete on persistent should survive pop");
}

fn find_commit(paths: &[((i32, i32), CommitId)], from: i32, to: i32) -> CommitId {
    paths
        .iter()
        .find(|((a, b), _)| *a == from && *b == to)
        .map(|(_, id)| *id)
        .unwrap_or_else(|| panic!("Should have path {}->{}", from, to))
}

#[test]
fn test_feedback_with_id_with_persistent_input_and_pop() {
    let mut db = Database::new();

    let edges = db.create_persistent_input::<(i32, i32)>("edges");

    let (path_var, path) = db.variable::<((i32, i32), CommitId)>("path");
    let path_tuples = db.map(path, |((a, b), _): &((i32, i32), CommitId)| (*a, *b));
    let new_paths = extend(&mut db, path_tuples, edges);
    let all_paths = db.union(edges, new_paths);

    db.feedback_with_id(path_var, all_paths, all_paths);

    db.insert(edges, (1, 2));
    db.commit();

    let paths_before: Vec<_> = db.collect(path);
    assert_eq!(paths_before.len(), 1);
    let initial_commit_id = find_commit(&paths_before, 1, 2);

    db.push(None);
    db.insert(edges, (2, 3));
    db.commit();

    let paths_during: Vec<_> = db.collect(path);
    assert_eq!(paths_during.len(), 3);

    let commit_1_2_during = find_commit(&paths_during, 1, 2);
    let commit_2_3_during = find_commit(&paths_during, 2, 3);
    let commit_1_3_during = find_commit(&paths_during, 1, 3);

    assert_eq!(commit_1_2_during, initial_commit_id, "(1,2) should retain original commit ID");
    assert!(commit_2_3_during > initial_commit_id, "(2,3) should have higher commit ID than (1,2)");
    assert!(commit_1_3_during >= commit_2_3_during, "(1,3) should have commit ID >= (2,3)");

    let popped = db.pop();
    assert!(popped, "Tried to pop past level 0");

    let paths_after: Vec<_> = db.collect(path);
    assert_eq!(paths_after.len(), 3, "All paths should survive because edge is persistent");

    let has_path = |paths: &[((i32, i32), CommitId)], from: i32, to: i32| -> bool {
        paths.iter().any(|((a, b), _)| *a == from && *b == to)
    };
    assert!(has_path(&paths_after, 1, 2), "Should have path 1->2 after pop");
    assert!(has_path(&paths_after, 2, 3), "Should have path 2->3 after pop");
    assert!(has_path(&paths_after, 1, 3), "Should have path 1->3 after pop");

    let commit_1_2_after = find_commit(&paths_after, 1, 2);
    assert_eq!(
        commit_1_2_after, commit_1_2_during,
        "(1,2) commit ID should be retained after pop (it wasn't in the popped frame)"
    );
}

#[test]
fn test_push_insert_pop_minimal() {
    let mut db = Database::new();
    let edges = db.create_input::<(i32, i32)>("edges");

    let (path_var, path, all_paths) = closure(&mut db, edges, "path");
    db.feedback(path_var, all_paths, all_paths);

    assert_eq!(db.collect(path).len(), 0, "Should be empty before any inserts");

    db.push(None);
    db.insert(edges, (0, 0));
    db.commit();

    let paths = db.collect(path);
    assert_eq!(paths.len(), 1, "Should have 1 path after insert");
    assert!(paths.contains(&(0, 0)));

    let popped = db.pop();
    assert!(popped, "Tried to pop past level 0");

    let paths = db.collect(path);
    assert_eq!(paths.len(), 0, "Should be empty after pop: {:?}", paths);
}

#[test]
fn test_push_insert_pop() {
    let mut db = Database::new();
    let edges = db.create_input::<(i32, i32)>("edges");

    let (path_var, path, all_paths) = closure(&mut db, edges, "path");
    db.feedback(path_var, all_paths, all_paths);

    db.push(None);
    db.insert(edges, (0, 4));
    db.commit();

    let paths = db.collect(path);
    assert_eq!(paths.len(), 1, "Should have 1 path: {:?}", paths);
    assert!(paths.contains(&(0, 4)));

    let popped = db.pop();
    assert!(popped, "Tried to pop past level 0");

    let paths = db.collect(path);
    assert_eq!(paths.len(), 0, "Should be empty after pop: {:?}", paths);
}

#[test]
fn test_push_no_changes_pop() {
    let mut db = Database::new();
    let edges = db.create_input::<(i32, i32)>("edges");

    let (path_var, path, all_paths) = closure(&mut db, edges, "path");
    db.feedback(path_var, all_paths, all_paths);

    assert_eq!(db.collect(path).len(), 0, "Should be empty before any changes");

    db.push(None);
    db.commit();

    let paths = db.collect(path);
    assert_eq!(paths.len(), 0, "Should still be empty with no inserts");

    let popped = db.pop();
    assert!(popped, "Tried to pop past level 0");

    let paths = db.collect(path);
    assert_eq!(paths.len(), 0, "Should be empty after pop: {:?}", paths);
}

#[test]
fn test_regular_feedback_with_persistent_input_and_pop() {
    let mut db = Database::new();
    let edges = db.create_persistent_input::<(i32, i32)>("edges");

    let (path_var, path, all_paths) = closure(&mut db, edges, "path");
    db.feedback(path_var, all_paths, all_paths);

    db.insert(edges, (1, 2));
    db.commit();

    let paths_before: Vec<_> = db.collect(path);
    assert_eq!(paths_before.len(), 1);
    assert!(paths_before.contains(&(1, 2)));

    db.push(None);
    db.insert(edges, (2, 3));
    db.commit();

    let paths_during: Vec<_> = db.collect(path);
    assert_eq!(paths_during.len(), 3);
    assert!(paths_during.contains(&(1, 2)));
    assert!(paths_during.contains(&(2, 3)));
    assert!(paths_during.contains(&(1, 3)));

    let popped = db.pop();
    assert!(popped, "Tried to pop past level 0");

    let paths_after: Vec<_> = db.collect(path);
    assert_eq!(paths_after.len(), 3, "All paths should survive because edge is persistent: {:?}", paths_after);
    assert!(paths_after.contains(&(1, 2)));
    assert!(paths_after.contains(&(2, 3)));
    assert!(paths_after.contains(&(1, 3)));
}
