use relational::change::{Change, Diff};
use relational::collection::Collection;
use relational::operators::join::{antijoin, join, join_changes_left, semijoin};

fn left_side() -> Collection<(i32, i32)> {
    let mut c = Collection::new();
    c.insert((1, 10));
    c.insert((2, 20));
    c.insert((2, 20));
    c.insert((3, 30));
    c
}

fn right_side() -> Collection<(i32, &'static str)> {
    let mut c = Collection::new();
    c.insert((2, "b"));
    c.insert((3, "c"));
    c.insert((3, "c"));
    c.insert((4, "d"));
    c
}

#[test]
fn semijoin_and_antijoin_split_the_left_side() {
    let l = left_side();
    let r = right_side();
    let semi = semijoin(&l, &r, |x: &(i32, i32)| x.0, |y: &(i32, &'static str)| y.0);
    let anti = antijoin(&l, &r, |x: &(i32, i32)| x.0, |y: &(i32, &'static str)| y.0);
    for t in [(1, 10), (2, 20), (3, 30)] {
        assert_eq!(semi.get(&t).0 + anti.get(&t).0, l.get(&t).0);
    }
    assert_eq!(semi.get(&(2, 20)), Diff(2));
    assert_eq!(anti.get(&(2, 20)), Diff(0));
    assert_eq!(anti.get(&(1, 10)), Diff(1));
    assert_eq!(semi.get(&(1, 10)), Diff(0));
}

#[test]
fn join_multiplies_multiplicities_where_keys_agree() {
    let l = left_side();
    let r = right_side();
    let j = join(&l, &r, |x: &(i32, i32)| x.0, |y: &(i32, &'static str)| y.0);
    assert_eq!(j.get(&((2, 20), (2, "b"))), Diff(2));
    assert_eq!(j.get(&((3, 30), (3, "c"))), Diff(2));
    assert_eq!(j.get(&((1, 10), (2, "b"))), Diff(0));
    assert_eq!(j.len(), 2);
}

#[test]
fn incremental_join_carries_the_old_join_to_the_new() {
    let l = left_side();
    let r = right_side();
    let changes = || vec![Change::insert((4, 40)), Change::delete((2, 20)), Change::insert((3, 30))];
    let delta = join_changes_left(&changes(), &r, |x: &(i32, i32)| x.0, |y: &(i32, &'static str)| y.0);
    let mut l2 = left_side();
    l2.apply_changes(changes());
    let before = join(&l, &r, |x: &(i32, i32)| x.0, |y: &(i32, &'static str)| y.0);
    let after = join(&l2, &r, |x: &(i32, i32)| x.0, |y: &(i32, &'static str)| y.0);
    let mut carried = join(&l, &r, |x: &(i32, i32)| x.0, |y: &(i32, &'static str)| y.0);
    carried.apply_changes(delta);
    for p in [((4, 40), (4, "d")), ((2, 20), (2, "b")), ((3, 30), (3, "c")), ((1, 10), (2, "b"))] {
        assert_eq!(carried.get(&p), after.get(&p));
    }
    assert_eq!(before.get(&((3, 30), (3, "c"))), Diff(2));
    assert_eq!(after.get(&((3, 30), (3, "c"))), Diff(4));
    assert_eq!(after.get(&((4, 40), (4, "d"))), Diff(1));
    assert_eq!(after.get(&((2, 20), (2, "b"))), Diff(1));
}
