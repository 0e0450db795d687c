use relational::change::Diff;
use relational::database::Database;

#[test]
fn database_test_create_and_insert() {
    let mut db = Database::new();
    let edges = db.create_input::<(i32, i32)>("edges");

    db.insert(edges, (1, 2));
    db.insert(edges, (2, 3));

    let result: Vec<_> = db.collect(edges);
    assert_eq!(result.len(), 2);
    assert!(result.contains(&(1, 2)));
    assert!(result.contains(&(2, 3)));
}

#[test]
fn database_test_map() {
    let mut db = Database::new();
    let nums = db.create_input::<i32>("nums");

    db.insert(nums, 1);
    db.insert(nums, 2);
    db.insert(nums, 3);

    let doubled = db.map(nums, |x: &i32| x * 2);

    let result: Vec<_> = db.collect(doubled);
    assert!(result.contains(&2));
    assert!(result.contains(&4));
    assert!(result.contains(&6));
}

#[test]
fn database_test_join() {
    let mut db = Database::new();
    let edges = db.create_input::<(i32, i32)>("edges");
    let labels = db.create_input::<(i32, &str)>("labels");

    db.insert(edges, (1, 2));
    db.insert(edges, (2, 3));
    db.insert(labels, (1, "one"));
    db.insert(labels, (2, "two"));

    // Join edges with labels on the source node
    let joined = db.join(edges, labels, |(src, _): &(i32, i32)| *src, |(id, _): &(i32, &str)| *id);

    let result: Vec<_> = db.collect(joined);
    assert_eq!(result.len(), 2);
}

#[test]
fn database_test_transitive_closure() {
    let mut db = Database::new();
    let edges = db.create_input::<(i32, i32)>("edges");

    // Create graph: 1->2->3->4
    db.insert(edges, (1, 2));
    db.insert(edges, (2, 3));
    db.insert(edges, (3, 4));

    let (path_var, path) = db.variable::<(i32, i32)>("path");

    // path(a, c) :- path(a, b), edge(b, c)
    let extended = db.join(path, edges, |(_, b): &(i32, i32)| *b, |(b, _): &(i32, i32)| *b);
    let new_paths = db.map(extended, |((a, _), (_, c)): &((i32, i32), (i32, i32))| (*a, *c));

    let all_paths = db.union(edges, new_paths);

    db.feedback(path_var, edges, all_paths);

    let result: Vec<_> = db.collect(path);
    assert!(result.contains(&(1, 2)));
    assert!(result.contains(&(2, 3)));
    assert!(result.contains(&(3, 4)));
    assert!(result.contains(&(1, 3)));
    assert!(result.contains(&(2, 4)));
    assert!(result.contains(&(1, 4)));
}

#[test]
fn database_test_multiplicities() {
    let mut db = Database::new();
    let items = db.create_input::<i32>("items");

    db.insert(items, 10);
    db.insert(items, 10);
    db.insert(items, 20);

    assert_eq!(db.multiplicity(items, &10), Diff(2));
    assert_eq!(db.multiplicity(items, &20), Diff(1));
    assert_eq!(db.multiplicity(items, &30), Diff(0));

    db.delete(items, 10);
    assert_eq!(db.multiplicity(items, &10), Diff(1));

    let mults: Vec<_> = db.iter_with_multiplicity(items);
    assert_eq!(mults.len(), 2); // 10 and 20
}

#[test]
fn database_test_checkpoint_and_restore() {
    let mut db = Database::new();
    let numbers = db.create_input::<i32>("numbers");
    let doubled = db.map(numbers, |n: &i32| n * 2);

    // Initial state
    db.insert(numbers, 1);
    db.insert(numbers, 2);
    db.commit();

    // Create checkpoint
    let cp = db.checkpoint(Some("initial"));

    // Verify checkpoint is listed
    let checkpoints = db.list_checkpoints();
    assert_eq!(checkpoints.len(), 1);
    assert_eq!(checkpoints[0].1, Some("initial"));

    // Make changes
    db.insert(numbers, 3);
    db.delete(numbers, 1);
    db.commit();

    // Verify current state
    assert_eq!(db.collect(numbers).len(), 2); // {2, 3}
    let doubled_result: Vec<_> = db.collect(doubled);
    assert!(doubled_result.contains(&4));
    assert!(doubled_result.contains(&6));

    // Restore checkpoint
    let info = db.restore(cp).unwrap();

    // Derived relations are restored
    assert!(!info.restored_nodes.is_empty());

    // Manual inputs are NOT auto-restored (numbers is manual input)
    assert!(!info.manual_input_nodes.is_empty());

    // The 'doubled' relation is back to its checkpoint state (2, 4)
    let mut restored: Vec<i32> = db.collect(doubled);
    restored.sort();
    assert_eq!(restored, vec![2, 4]);
}

#[test]
fn database_max_and_min_hold_the_extreme_tuple() {
    let mut db = Database::new();
    let r = db.create_input::<i32>("r");
    db.insert(r, 10);
    db.insert(r, 20);
    db.insert(r, 15);
    db.commit();
    let hi = db.max(r);
    let lo = db.min(r);
    assert_eq!(db.collect(hi), vec![20]);
    assert_eq!(db.collect(lo), vec![10]);
    db.delete(r, 20);
    db.commit();
    assert_eq!(db.collect(hi), vec![15]);
    let empty = db.create_input::<i32>("empty");
    let none = db.max(empty);
    assert!(db.collect(none).is_empty());
}
