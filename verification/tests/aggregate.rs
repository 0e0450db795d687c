use relational::change::{Change, Diff};
use relational::collection::Collection;
use relational::operators::{aggregate, count, group_sum_changes, group_sum_init, max, min, sum};

fn sales() -> Collection<(i32, i64)> {
    let mut c = Collection::new();
    c.insert((1, 10));
    c.insert((1, 5));
    c.insert((2, 7));
    c.insert((1, 10));
    c
}

#[test]
fn aggregate_counts_each_group() {
    let input = sales();
    let out = aggregate(
        &input,
        |t: &(i32, i64)| t.0,
        |_t: &(i32, i64)| (),
        |k: i32, vs: &[((), Diff)]| count(k, vs),
    );
    assert_eq!(out.get(&(1, 3)), Diff(1));
    assert_eq!(out.get(&(2, 1)), Diff(1));
    assert_eq!(out.len(), 2);
}

#[test]
fn aggregate_sums_each_group() {
    let input = sales();
    let out = aggregate(
        &input,
        |t: &(i32, i64)| t.0,
        |t: &(i32, i64)| t.1,
        |k: i32, vs: &[(i64, Diff)]| sum(k, vs),
    );
    assert_eq!(out.get(&(1, 25)), Diff(1));
    assert_eq!(out.get(&(2, 7)), Diff(1));
}

#[test]
fn aggregate_of_empty_input_is_empty() {
    let input: Collection<(i32, i64)> = Collection::new();
    let out = aggregate(
        &input,
        |t: &(i32, i64)| t.0,
        |t: &(i32, i64)| t.1,
        |k: i32, vs: &[(i64, Diff)]| sum(k, vs),
    );
    assert_eq!(out.len(), 0);
}

#[test]
fn count_adds_multiplicities() {
    assert_eq!(count(7, &[((), Diff(2)), ((), Diff(-1)), ((), Diff(3))]), (7, 4));
    assert_eq!(count(7, &[]), (7, 0));
}

#[test]
fn sum_weighs_values_by_multiplicity() {
    assert_eq!(sum("k", &[(3, Diff(2)), (5, Diff(-1))]), ("k", 1));
}

#[test]
fn min_and_max_ignore_non_positive() {
    let values = [(4i32, Diff(1)), (1, Diff(0)), (9, Diff(-2)), (6, Diff(3))];
    assert_eq!(min(0u32, &values), Some((0u32, 4)));
    assert_eq!(max(0u32, &values), Some((0u32, 6)));
    let none = [(1i32, Diff(0)), (2, Diff(-1))];
    assert_eq!(min(0u32, &none), None);
    assert_eq!(max(0u32, &none), None);
}

#[test]
fn group_sum_init_sums_per_key() {
    let input = sales();
    let (_state, out) = group_sum_init(&input, |t: &(i32, i64)| t.0, |t: &(i32, i64)| t.1);
    assert_eq!(out.get(&(1, 25)), Diff(1));
    assert_eq!(out.get(&(2, 7)), Diff(1));
    assert_eq!(out.len(), 2);
}

#[test]
fn group_sum_changes_retract_and_assert() {
    let input = sales();
    let (mut state, mut out) = group_sum_init(&input, |t: &(i32, i64)| t.0, |t: &(i32, i64)| t.1);
    let changes = vec![Change::insert((2, 3)), Change::delete((1, 5))];
    let delta = group_sum_changes(&mut state, &changes, |t: &(i32, i64)| t.0, |t: &(i32, i64)| t.1);
    assert_eq!(delta.len(), 4);
    assert_eq!((delta[0].tuple, delta[0].diff), ((2, 7), Diff(-1)));
    assert_eq!((delta[1].tuple, delta[1].diff), ((2, 10), Diff(1)));
    assert_eq!((delta[2].tuple, delta[2].diff), ((1, 25), Diff(-1)));
    assert_eq!((delta[3].tuple, delta[3].diff), ((1, 20), Diff(1)));
    // Applying the output changes to the old output gives the new output.
    out.apply_changes(delta);
    out.compact();
    let expected = state.to_multiset();
    assert_eq!(out.get(&(1, 20)), Diff(1));
    assert_eq!(out.get(&(2, 10)), Diff(1));
    assert_eq!(out.len(), expected.len());
    assert_eq!(expected.get(&(1, 20)), Diff(1));
}

#[test]
fn group_sum_key_dropped_when_sum_is_zero() {
    let input: Collection<(i32, i64)> = Collection::new();
    let (mut state, _out) = group_sum_init(&input, |t: &(i32, i64)| t.0, |t: &(i32, i64)| t.1);
    let delta = group_sum_changes(&mut state, &[Change::insert((1, 4))], |t: &(i32, i64)| t.0, |t: &(i32, i64)| t.1);
    assert_eq!(delta.len(), 1);
    let delta = group_sum_changes(&mut state, &[Change::delete((1, 4))], |t: &(i32, i64)| t.0, |t: &(i32, i64)| t.1);
    assert_eq!(delta.len(), 1);
    assert_eq!((delta[0].tuple, delta[0].diff), ((1, 4), Diff(-1)));
    assert_eq!(state.to_multiset().len(), 0);
    assert_eq!(state.apply_change(9, 0, Diff(5)), None);
}
