use relational::change::Diff;
use relational::collection::Collection;

#[test]
fn test_collection_basic() {
    let mut coll = Collection::new();
    coll.insert(1);
    coll.insert(2);
    coll.insert(1);

    assert_eq!(coll.get(&1), Diff(2));
    assert_eq!(coll.get(&2), Diff(1));
    assert_eq!(coll.get(&3), Diff(0));
    assert!(coll.contains(&1));
    assert!(!coll.contains(&3));
}

#[test]
fn test_collection_delete() {
    let mut coll = Collection::new();
    coll.insert(1);
    coll.insert(1);
    coll.delete(1);

    assert_eq!(coll.get(&1), Diff(1));
    coll.delete(1);
    coll.compact();
    assert!(!coll.contains(&1));
}

#[test]
fn test_collection_diff() {
    let coll1: Collection<i32> = Collection::from_tuples(vec![1, 2, 3]);
    let coll2: Collection<i32> = Collection::from_tuples(vec![2, 3, 4]);

    let changes = coll1.diff(&coll2);
    let mut result = coll1.snapshot();
    result.apply_changes(changes);

    assert_eq!(result.to_vec().len(), coll2.to_vec().len());
}

#[test]
fn insert_then_delete_leaves_collection_empty() {
    let mut coll = Collection::new();
    coll.insert(1);
    coll.delete(1);
    assert_eq!(coll.get(&1), Diff(0));
    assert!(coll.is_empty());
    assert_eq!(coll.len(), 0);
}

#[test]
fn diff_changes_name_each_tuple_once() {
    let mut a = Collection::new();
    a.insert(1);
    a.insert(1);
    a.insert(2);
    let mut b = Collection::new();
    b.insert(2);
    b.insert(3);
    let changes = a.diff(&b);
    assert_eq!(changes.len(), 2);
    let mut tuples: Vec<i32> = changes.iter().map(|c| c.tuple).collect();
    tuples.sort();
    assert_eq!(tuples, vec![1, 3]);
    a.apply_changes(changes);
    assert_eq!(a.get(&1), Diff(0));
    assert_eq!(a.get(&2), Diff(1));
    assert_eq!(a.get(&3), Diff(1));
}
