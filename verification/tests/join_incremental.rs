use relational::database::{Database, Relation};
use relational::change::Diff;

/// Join two relations of (key, value) pairs on the key, as (key, (left, right)).
fn join_values<A: relational::tuple::Tuple + Copy + 'static, B: relational::tuple::Tuple + Copy + 'static>(
    db: &mut Database,
    left: Relation<(i32, A)>,
    right: Relation<(i32, B)>,
) -> Relation<(i32, (A, B))> {
    let joined = db.join(left, right, |(k, _): &(i32, A)| *k, |(k, _): &(i32, B)| *k);
    db.map(joined, |((k, a), (_, b)): &((i32, A), (i32, B))| (*k, (*a, *b)))
}

#[test]
fn test_join_simultaneous_inserts() {
    let mut db = Database::new();
    let left = db.create_input::<(i32, i32)>("left"); // (key, left_val)
    let right = db.create_input::<(i32, i32)>("right"); // (key, right_val)
    let joined = join_values(&mut db, left, right);

    db.insert(left, (1, 10));
    db.insert(right, (1, 100));
    db.commit();

    let result = db.collect(joined);
    assert_eq!(result, vec![(1, (10, 100))], "Initial join should have one result");

    db.insert(left, (1, 20));
    db.insert(right, (1, 200));
    db.commit();

    let mut result = db.collect(joined);
    result.sort();
    let mut expected = vec![(1, (10, 100)), (1, (10, 200)), (1, (20, 100)), (1, (20, 200))];
    expected.sort();
    assert_eq!(result, expected, "Join should include new_left × new_right pair");
}

#[test]
fn test_join_both_sides_from_empty() {
    let mut db = Database::new();
    let left = db.create_input::<(i32, ())>("left");
    let right = db.create_input::<(i32, ())>("right");
    let joined = join_values(&mut db, left, right);

    db.insert(left, (1, ()));
    db.insert(right, (1, ()));
    db.commit();

    let result = db.collect(joined);
    assert_eq!(
        result,
        vec![(1, ((), ()))],
        "Join of matching values inserted simultaneously should produce a result"
    );
}

#[test]
fn test_join_multiplicity_not_doubled() {
    let mut db = Database::new();
    let left = db.create_input::<(i32, ())>("left");
    let right = db.create_input::<(i32, ())>("right");
    let joined = join_values(&mut db, left, right);

    db.insert(left, (1, ()));
    db.insert(right, (1, ()));
    db.commit();

    let result = db.collect(joined);
    assert_eq!(result.len(), 1, "Should have exactly one result tuple");
    assert_eq!(result[0], (1, ((), ())), "Tuple should be (1, ((), ()))");
    assert_eq!(db.iter_with_multiplicity(joined)[0].1 .0, 1);
}

#[test]
fn test_join_incremental() {
    let mut db = Database::new();
    let rel_a = db.create_input::<(i32, i32)>("a");
    let rel_b = db.create_input::<(i32, i32)>("b");

    db.insert(rel_a, (1, 10));
    db.commit();

    let joined = db.join(rel_a, rel_b, |a: &(i32, i32)| a.0, |b: &(i32, i32)| b.0);
    db.commit();

    // No matches yet
    assert!(db.collect(joined).is_empty());

    // Add matching tuple to b
    db.insert(rel_b, (1, 20));
    db.commit();

    // Now we have a match
    assert_eq!(db.multiplicity(joined, &((1, 10), (1, 20))), Diff(1));
    assert_eq!(db.collect(joined).len(), 1);
}
