use std::collections::HashMap;
use std::hash::Hash;

use relational::change::Diff;
use relational::database2::feedback::Variable;
use relational::database2::relational::{max, min, Relation, VariableRelation};
use relational::tuple::Tuple;

fn collect_to_map<T: Tuple + Hash + Eq, R: Relation<T>>(rel: &mut R) -> HashMap<T, i64> {
    let mut result = HashMap::new();
    for (t, d) in rel.foreach() {
        *result.entry(t).or_insert(0) += d.0;
    }
    result.retain(|_, c| *c != 0);
    result
}

fn source<T: Tuple>(tuples: Vec<T>) -> VariableRelation<T> {
    let mut v: Variable<T> = Variable::new();
    for t in tuples {
        v.add_input(t, Diff(1));
    }
    v.commit();
    VariableRelation::new(v)
}

#[test]
fn test_max() {
    let rel = source(vec![
        ("a".to_string(), 10),
        ("a".to_string(), 20),
        ("a".to_string(), 15),
        ("b".to_string(), 5),
    ]);
    let mut maxed = max(rel, |t: &(String, i32)| t.0.clone(), |t: &(String, i32)| t.1);

    let changes = collect_to_map(&mut maxed);
    // Max of "a" is 20, max of "b" is 5
    assert_eq!(changes.get(&("a".to_string(), 20)), Some(&1));
    assert_eq!(changes.get(&("b".to_string(), 5)), Some(&1));
}

#[test]
fn test_max_incremental_with_pop() {
    let rel = source(vec![("a".to_string(), 10)]);
    let mut maxed = max(rel, |t: &(String, i32)| t.0.clone(), |t: &(String, i32)| t.1);

    let changes1 = collect_to_map(&mut maxed);
    assert_eq!(changes1.get(&("a".to_string(), 10)), Some(&1));

    // Push and add a higher value
    {
        let v = maxed.input_mut().variable_mut();
        v.push_checkpoint();
        v.add_input(("a".to_string(), 20), Diff(1));
        v.commit();
    }

    let changes2 = collect_to_map(&mut maxed);
    // Old max (10) removed, new max (20) inserted
    assert_eq!(changes2.get(&("a".to_string(), 10)), Some(&-1));
    assert_eq!(changes2.get(&("a".to_string(), 20)), Some(&1));

    // Pop - should restore max to 10
    {
        let v = maxed.input_mut().variable_mut();
        v.send_inverse();
        v.update_input_total(("a".to_string(), 20), Diff(-1));
        v.pop_and_forward_reachable();
        v.commit();
    }

    let changes3 = collect_to_map(&mut maxed);
    // Max (20) removed, old max (10) restored
    assert_eq!(changes3.get(&("a".to_string(), 20)), Some(&-1));
    assert_eq!(changes3.get(&("a".to_string(), 10)), Some(&1));
}

#[test]
fn test_min_via_max_reverse() {
    let rel = source(vec![
        ("a".to_string(), 10),
        ("a".to_string(), 20),
        ("a".to_string(), 5),
    ]);
    let mut minned = min(rel, |t: &(String, i32)| t.0.clone(), |t: &(String, i32)| t.1);

    let changes = collect_to_map(&mut minned);
    // The least value of "a"
    assert_eq!(changes.get(&("a".to_string(), 5)), Some(&1));
    assert_eq!(changes.len(), 1);
}

#[test]
fn map_doubles_each_tuple() {
    let rel = source(vec![1, 2, 3]);
    let mut mapped = relational::database2::relational::ops_map::map(rel, |x: i32| x * 2);
    let changes = collect_to_map(&mut mapped);
    assert_eq!(changes.get(&2), Some(&1));
    assert_eq!(changes.get(&4), Some(&1));
    assert_eq!(changes.get(&6), Some(&1));
    assert_eq!(changes.len(), 3);
    // Everything was taken.
    assert!(mapped.foreach().is_empty());
}

#[test]
fn max_output_follows_best_values() {
    // Changes applied to the old best pairs give the new ones.
    let rel = source(vec![(1, 3), (1, 7), (2, 4)]);
    let mut maxed = max(rel, |t: &(i32, i32)| t.0, |t: &(i32, i32)| t.1);
    let first = maxed.foreach();
    assert_eq!(first, vec![((1, 3), Diff(1)), ((1, 3), Diff(-1)), ((1, 7), Diff(1)), ((2, 4), Diff(1))]);
    {
        let v = maxed.input_mut().variable_mut();
        v.push_checkpoint();
        v.add_input((1, 9), Diff(1));
        v.add_input((2, 1), Diff(1));
        v.commit();
    }
    let second = maxed.foreach();
    assert_eq!(second, vec![((1, 7), Diff(-1)), ((1, 9), Diff(1))]);
    {
        let v = maxed.input_mut().variable_mut();
        v.send_inverse();
        v.commit();
    }
    let third = maxed.foreach();
    assert_eq!(third, vec![((1, 9), Diff(-1)), ((1, 7), Diff(1))]);
    assert!(!maxed.was_overflowed());
}

#[test]
fn min_follows_least_value() {
    let rel = source(vec![(1, 3)]);
    let mut minned = min(rel, |t: &(i32, i32)| t.0, |t: &(i32, i32)| t.1);
    assert_eq!(minned.foreach(), vec![((1, 3), Diff(1))]);
    {
        let v = minned.input_mut().variable_mut();
        v.add_input((1, 2), Diff(1));
        v.add_input((1, 5), Diff(1));
        v.commit();
    }
    assert_eq!(minned.foreach(), vec![((1, 3), Diff(-1)), ((1, 2), Diff(1))]);
    assert!(minned.foreach().is_empty());
}

#[test]
fn boxed_relation_streams_the_same_changes() {
    let rel: Box<VariableRelation<i32>> = Box::new(source(vec![4, 5]));
    let mut mapped = relational::database2::relational::ops_map::map(rel, |x: i32| x + 1);
    assert_eq!(mapped.foreach(), vec![(5, Diff(1)), (6, Diff(1))]);
    assert!(mapped.foreach().is_empty());
}
