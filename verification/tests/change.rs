use relational::change::{Change, Diff};

#[test]
fn test_diff_arithmetic() {
    assert_eq!(Diff(3) + Diff(2), Diff(5));
    assert_eq!(Diff(3) - Diff(2), Diff(1));
    assert_eq!(-Diff(3), Diff(-3));
    assert_eq!(Diff(3) * 2, Diff(6));
}

#[test]
fn test_change_creation() {
    let insert = Change::insert(42);
    assert_eq!(insert.tuple, 42);
    assert_eq!(insert.diff, Diff(1));

    let delete = Change::delete(42);
    assert_eq!(delete.tuple, 42);
    assert_eq!(delete.diff, Diff(-1));
}
