use relational::change::Diff;
use relational::database::{CommitId, Database};

#[test]
fn tests_test_create_and_insert() {
    let mut db = Database::new();
    let edges = db.create_input::<(i32, i32)>("edges");

    db.insert(edges, (1, 2));
    db.insert(edges, (2, 3));

    let result: Vec<_> = db.collect(edges);
    assert_eq!(result.len(), 2);
    assert!(result.contains(&(1, 2)));
    assert!(result.contains(&(2, 3)));
}

#[test]
fn tests_test_map() {
    let mut db = Database::new();
    let nums = db.create_input::<i32>("nums");

    db.insert(nums, 1);
    db.insert(nums, 2);
    db.insert(nums, 3);
    db.commit();

    let doubled = db.map(nums, |x: &i32| x * 2);
    db.commit();

    let result: Vec<_> = db.collect(doubled);
    assert!(result.contains(&2));
    assert!(result.contains(&4));
    assert!(result.contains(&6));
}

#[test]
fn tests_test_join() {
    let mut db = Database::new();
    let edges = db.create_input::<(i32, i32)>("edges");
    let labels = db.create_input::<(i32, &str)>("labels");

    db.insert(edges, (1, 2));
    db.insert(edges, (2, 3));
    db.insert(labels, (1, "one"));
    db.insert(labels, (2, "two"));
    db.commit();

    let joined = db.join(edges, labels, |(src, _): &(i32, i32)| *src, |(id, _): &(i32, &str)| *id);
    db.commit();

    let result: Vec<_> = db.collect(joined);
    assert_eq!(result.len(), 2);
}

#[test]
fn tests_test_transitive_closure() {
    let mut db = Database::new();
    let edges = db.create_input::<(i32, i32)>("edges");

    db.insert(edges, (1, 2));
    db.insert(edges, (2, 3));
    db.insert(edges, (3, 4));
    db.commit();

    let (path_var, path) = db.variable::<(i32, i32)>("path");

    let extended = db.join(path, edges, |(_, b): &(i32, i32)| *b, |(b, _): &(i32, i32)| *b);
    let new_paths = db.map(extended, |((a, _), (_, c)): &((i32, i32), (i32, i32))| (*a, *c));

    let all_paths = db.union(edges, new_paths);

    db.feedback(path_var, edges, all_paths);

    let result: Vec<_> = db.collect(path);
    assert!(result.contains(&(1, 2)));
    assert!(result.contains(&(2, 3)));
    assert!(result.contains(&(3, 4)));
    assert!(result.contains(&(1, 3)));
    assert!(result.contains(&(2, 4)));
    assert!(result.contains(&(1, 4)));
}

#[test]
fn tests_test_multiplicities() {
    let mut db = Database::new();
    let items = db.create_input::<i32>("items");

    db.insert(items, 10);
    db.insert(items, 10);
    db.insert(items, 20);

    assert_eq!(db.multiplicity(items, &10), Diff(2));
    assert_eq!(db.multiplicity(items, &20), Diff(1));
    assert_eq!(db.multiplicity(items, &30), Diff(0));

    db.delete(items, 10);
    assert_eq!(db.multiplicity(items, &10), Diff(1));

    let mults: Vec<_> = db.iter_with_multiplicity(items);
    assert_eq!(mults.len(), 2);
}

#[test]
fn tests_test_checkpoint_and_restore() {
    let mut db = Database::new();
    let numbers = db.create_input::<i32>("numbers");
    db.insert(numbers, 1);
    db.insert(numbers, 2);
    db.commit();

    let doubled = db.map(numbers, |n: &i32| n * 2);
    db.commit();

    let cp = db.checkpoint(Some("initial"));

    let checkpoints = db.list_checkpoints();
    assert_eq!(checkpoints.len(), 1);
    assert_eq!(checkpoints[0].1, Some("initial"));

    db.insert(numbers, 3);
    db.delete(numbers, 1);
    db.commit();

    assert_eq!(db.collect(numbers).len(), 2); // {2, 3}
    let doubled_result: Vec<_> = db.collect(doubled);
    assert!(doubled_result.contains(&4));
    assert!(doubled_result.contains(&6));

    let info = db.restore(cp).unwrap();

    // Derived relations are restored
    assert!(!info.restored_nodes.is_empty());

    // Manual inputs are not restored (numbers is a manual input)
    assert!(!info.manual_input_nodes.is_empty());
}

#[test]
fn test_commit_id_advances_with_feedback() {
    let mut db = Database::new();

    assert_eq!(db.commit_id(), CommitId(0));

    let edges = db.create_input::<(i32, i32)>("edges");
    let (path_var, path) = db.variable::<(i32, i32)>("path");

    let extended = db.join(path, edges, |(_, b): &(i32, i32)| *b, |(b, _): &(i32, i32)| *b);
    let new_paths = db.map(extended, |((a, _), (_, c)): &((i32, i32), (i32, i32))| (*a, *c));
    let all_paths = db.union(edges, new_paths);

    db.feedback(path_var, edges, all_paths);

    db.insert(edges, (1, 2));
    db.insert(edges, (2, 3));
    db.commit();

    let commit_after_insert = db.commit_id();
    assert!(commit_after_insert > CommitId(0), "Commit ID should advance during feedback");

    let paths: Vec<_> = db.collect(path);
    assert!(paths.contains(&(1, 2)));
    assert!(paths.contains(&(2, 3)));
    assert!(paths.contains(&(1, 3)));

    db.push(None);
    db.insert(edges, (3, 4));
    db.commit();
    let commit_before_pop = db.commit_id();

    db.pop();
    let commit_after_pop = db.commit_id();

    assert!(
        commit_after_pop > commit_before_pop,
        "Commit ID should advance on pop: {} vs {}",
        commit_after_pop.raw(),
        commit_before_pop.raw()
    );
}

#[test]
fn test_commit_id_monotonic_through_backtracking() {
    let mut db = Database::new();
    let items = db.create_input::<i32>("items");

    let mut seen_ids = vec![db.commit_id()];

    db.push(None);
    db.insert(items, 1);
    db.commit();
    seen_ids.push(db.commit_id());

    db.push(None);
    db.insert(items, 2);
    db.commit();
    seen_ids.push(db.commit_id());

    db.pop();
    seen_ids.push(db.commit_id());

    db.pop();
    seen_ids.push(db.commit_id());

    for i in 1..seen_ids.len() {
        assert!(seen_ids[i] >= seen_ids[i - 1], "Commit IDs should be monotonic: {:?}", seen_ids);
    }

    assert!(
        seen_ids.last().unwrap() > seen_ids.first().unwrap(),
        "Final commit ID should be greater than initial"
    );
}

#[test]
fn test_commit_id_advances_per_feedback_iteration() {
    let mut db = Database::new();
    let edges = db.create_input::<(i32, i32)>("edges");

    let initial_commit = db.commit_id();

    let (path_var, path) = db.variable::<(i32, i32)>("path");

    let extended = db.join(path, edges, |(_, b): &(i32, i32)| *b, |(b, _): &(i32, i32)| *b);
    let new_paths = db.map(extended, |((a, _), (_, c)): &((i32, i32), (i32, i32))| (*a, *c));
    let all_paths = db.union(edges, new_paths);

    db.feedback(path_var, edges, all_paths);

    let after_feedback_setup = db.commit_id();

    assert_eq!(initial_commit, after_feedback_setup, "No commit ID change without data");

    db.insert(edges, (1, 2));
    db.insert(edges, (2, 3));
    db.insert(edges, (3, 4));
    db.insert(edges, (4, 5));
    db.commit();

    let after_inserts = db.commit_id();

    let expected_advances = 4u64;
    let actual_advances = after_inserts.raw() - after_feedback_setup.raw();

    assert_eq!(
        actual_advances, expected_advances,
        "Expected {} commit ID advances for chain of length 4, got {}",
        expected_advances, actual_advances
    );

    let paths: Vec<_> = db.collect(path);
    assert_eq!(paths.len(), 10);

    assert!(paths.contains(&(1, 5)), "Should have path 1->5");
    assert!(paths.contains(&(1, 4)), "Should have path 1->4");
    assert!(paths.contains(&(2, 5)), "Should have path 2->5");
}

#[test]
fn test_feedback_with_id_discovery_order() {
    let mut db = Database::new();
    let edges = db.create_input::<(i32, i32)>("edges");

    db.insert(edges, (1, 2));
    db.insert(edges, (2, 3));
    db.insert(edges, (3, 4));
    db.commit();

    let (path_var, path) = db.variable::<((i32, i32), CommitId)>("path");

    let path_tuples = db.map(path, |((a, b), _): &((i32, i32), CommitId)| (*a, *b));

    let extended = db.join(path_tuples, edges, |(_, b): &(i32, i32)| *b, |(b, _): &(i32, i32)| *b);
    let new_paths = db.map(extended, |((a, _), (_, c)): &((i32, i32), (i32, i32))| (*a, *c));
    let all_paths = db.union(edges, new_paths);

    db.feedback_with_id(path_var, edges, all_paths);

    let paths_with_times: Vec<_> = db.collect(path);

    let get_commit_id = |from: i32, to: i32| -> Option<CommitId> {
        paths_with_times.iter().find(|((a, b), _)| *a == from && *b == to).map(|(_, id)| *id)
    };

    let id_1_2 = get_commit_id(1, 2).expect("Should have path 1->2");
    let id_2_3 = get_commit_id(2, 3).expect("Should have path 2->3");
    let id_3_4 = get_commit_id(3, 4).expect("Should have path 3->4");

    let id_1_3 = get_commit_id(1, 3).expect("Should have path 1->3");
    let id_2_4 = get_commit_id(2, 4).expect("Should have path 2->4");

    let id_1_4 = get_commit_id(1, 4).expect("Should have path 1->4");

    assert_eq!(id_1_2, id_2_3, "Length-1 paths should have same commit ID");
    assert_eq!(id_2_3, id_3_4, "Length-1 paths should have same commit ID");

    assert!(id_1_3 > id_1_2, "Length-2 path should be discovered after length-1: {:?} vs {:?}", id_1_3, id_1_2);
    assert_eq!(id_1_3, id_2_4, "Length-2 paths should have same commit ID");

    assert!(id_1_4 > id_1_3, "Length-3 path should be discovered after length-2: {:?} vs {:?}", id_1_4, id_1_3);
}

#[test]
fn difference_keeps_tuples_in_left_but_not_in_right() {
    let mut db = Database::new();
    let a = db.create_input::<i32>("a");
    let b = db.create_input::<i32>("b");
    db.insert(a, 1);
    db.insert(a, 1);
    db.insert(a, 2);
    db.insert(b, 1);
    db.commit();
    let d = db.difference(a, b);
    db.commit();
    assert_eq!(db.collect(d), vec![2]);
    assert_eq!(db.multiplicity(d, &2), Diff(1));
    assert_eq!(db.multiplicity(d, &1), Diff(0));
}

#[test]
fn union_adds_multiplicities() {
    let mut db = Database::new();
    let a = db.create_input::<i32>("a");
    let b = db.create_input::<i32>("b");
    db.insert(a, 1);
    db.insert(a, 1);
    db.insert(b, 1);
    db.insert(b, 2);
    let u = db.union(a, b);
    assert_eq!(db.multiplicity(u, &1), Diff(3));
    assert_eq!(db.multiplicity(u, &2), Diff(1));
}

#[test]
fn pop_advances_commit_id_only_when_the_frame_recorded_changes() {
    let mut db = Database::new();
    let items = db.create_input::<i32>("items");
    db.push(None);
    let c0 = db.commit_id();
    assert!(db.pop());
    assert_eq!(db.commit_id(), c0);
    db.push(None);
    db.insert(items, 1);
    db.commit();
    let c1 = db.commit_id();
    assert!(db.pop());
    assert!(db.commit_id() > c1);
    assert_eq!(db.multiplicity(items, &1), Diff(0));
    assert!(!db.pop());
}

#[test]
fn restore_of_unknown_checkpoint_changes_nothing() {
    let mut db = Database::new();
    let items = db.create_input::<i32>("items");
    db.insert(items, 4);
    assert!(db.restore(relational::checkpoint::CheckpointId(7)).is_none());
    assert_eq!(db.multiplicity(items, &4), Diff(1));
}

#[test]
fn join_multiplies_multiplicities_of_matching_tuples() {
    let mut db = Database::new();
    let e = db.create_input::<(i32, i32)>("edges");
    let lb = db.create_input::<(i32, &'static str)>("labels");
    db.insert(e, (1, 2));
    db.insert(e, (1, 2));
    db.insert(e, (2, 3));
    db.insert(lb, (1, "one"));
    db.insert(lb, (2, "two"));
    db.insert(lb, (5, "five"));
    db.commit();
    let j = db.join(e, lb, |(s, _): &(i32, i32)| *s, |(id, _): &(i32, &'static str)| *id);
    assert_eq!(db.collect(j).len(), 2);
    assert_eq!(db.multiplicity(j, &((1, 2), (1, "one"))), Diff(2));
    assert_eq!(db.multiplicity(j, &((2, 3), (2, "two"))), Diff(1));
    assert_eq!(db.multiplicity(j, &((2, 3), (5, "five"))), Diff(0));
}

/// Build the chain 1 -> 2 -> 3 -> 4 -> 5 with its transitive closure under `max` iterations.
fn chain_closure(max: usize) -> (Database, relational::database::Relation<(i32, i32)>) {
    let mut db = Database::new();
    db.set_max_iterations(max);
    let edges = db.create_input::<(i32, i32)>("edges");
    let (path_var, path) = db.variable::<(i32, i32)>("path");
    let extended = db.join(path, edges, |(_, b): &(i32, i32)| *b, |(b, _): &(i32, i32)| *b);
    let new_paths = db.map(extended, |((a, _), (_, c)): &((i32, i32), (i32, i32))| (*a, *c));
    let all_paths = db.union(edges, new_paths);
    db.feedback(path_var, edges, all_paths);
    db.insert(edges, (1, 2));
    db.insert(edges, (2, 3));
    db.insert(edges, (3, 4));
    db.insert(edges, (4, 5));
    db.commit();
    (db, path)
}

#[test]
fn fixpoint_needing_as_many_rounds_as_the_limit_is_incomplete() {
    let (db, _path) = chain_closure(4);
    assert!(db.was_incomplete());
    assert_eq!(db.commit_id().raw(), 4);
}

#[test]
fn fixpoint_within_the_limit_completes() {
    let (db, path) = chain_closure(5);
    assert!(!db.was_incomplete());
    assert!(!db.was_interrupted());
    assert_eq!(db.commit_id().raw(), 4);
    let paths: Vec<_> = db.collect(path);
    assert_eq!(paths.len(), 10);
}

#[test]
fn fixpoint_stopped_at_the_limit_keeps_the_rounds_it_ran() {
    let (db, path) = chain_closure(2);
    assert!(db.was_incomplete());
    assert_eq!(db.commit_id().raw(), 2);
    let paths: Vec<_> = db.collect(path);
    assert_eq!(paths.len(), 7);
}
