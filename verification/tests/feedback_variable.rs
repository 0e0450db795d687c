use relational::change::Diff;
use relational::database2::feedback::Variable;

#[test]
fn variable_emits_each_tuple_once() {
    let mut v: Variable<i32> = Variable::new();
    v.insert(1);
    v.add_input(1, Diff(1));
    v.add_input(2, Diff(1));
    assert!(v.has_staged());
    assert!(!v.has_changes());
    v.commit();
    assert!(!v.has_staged());
    assert!(v.has_changes());
    let changes = v.take_changes();
    assert_eq!(changes, vec![(1, Diff(1)), (2, Diff(1))]);
    assert!(!v.has_changes());
    assert_eq!(v.debug_input_total(&1), 2);
    assert_eq!(v.debug_output(&1), 1);
    let mut all = v.collect();
    all.sort();
    assert_eq!(all, vec![1, 2]);
}

#[test]
fn variable_keeps_seen_tuple_when_total_drops() {
    let mut v: Variable<i32> = Variable::new();
    v.add_change(5, Diff(1));
    v.add_input(5, Diff(-1));
    assert_eq!(v.debug_input_total(&5), 0);
    assert_eq!(v.debug_output(&5), 1);
    assert_eq!(v.collect(), vec![5]);
    v.add_input(6, Diff(-1));
    assert_eq!(v.debug_output(&6), 0);
}

#[test]
fn variable_send_inverse_undoes_level() {
    let mut v: Variable<i32> = Variable::new();
    v.insert(1);
    v.push_checkpoint();
    assert_eq!(v.debug_checkpoint_depth(), 1);
    v.insert(2);
    v.insert(1);
    v.send_inverse();
    assert_eq!(v.debug_output(&1), 1);
    assert_eq!(v.debug_output(&2), 0);
    assert_eq!(v.collect(), vec![1]);
    v.commit();
    let changes = v.take_changes();
    assert_eq!(changes, vec![(1, Diff(1)), (2, Diff(1)), (2, Diff(-1))]);
}

#[test]
fn variable_pop_forwards_reachable() {
    let mut v: Variable<i32> = Variable::new();
    v.push_checkpoint();
    v.push_checkpoint();
    v.insert(3);
    v.insert(4);
    v.send_inverse();
    // 3 stays reachable, 4 does not.
    v.update_input_total(4, Diff(-1));
    v.pop_and_forward_reachable();
    assert_eq!(v.debug_checkpoint_depth(), 1);
    assert_eq!(v.debug_output(&3), 1);
    assert_eq!(v.debug_output(&4), 0);
    // 3 was recorded in the remaining level, so retracting it removes it again.
    v.send_inverse();
    assert_eq!(v.debug_output(&3), 0);
}

#[test]
fn variable_forward_if_not_in_checkpoint() {
    let mut v: Variable<i32> = Variable::new();
    v.push_checkpoint();
    v.push_checkpoint();
    v.insert(8);
    v.send_inverse();
    // 8 is in the current level: nothing is forwarded.
    v.forward_if_not_in_checkpoint(&8);
    assert_eq!(v.debug_output(&8), 0);
    v.update_input_total(9, Diff(1));
    v.forward_if_not_in_checkpoint(&9);
    assert_eq!(v.debug_output(&9), 1);
    v.forward_if_not_in_checkpoint(&9);
    assert_eq!(v.debug_output(&9), 1);
}

#[test]
fn variable_default_is_empty() {
    let v: Variable<i32> = Variable::default();
    assert_eq!(v.debug_checkpoint_depth(), 0);
    assert!(v.collect().is_empty());
    assert!(v.iter().is_empty());
}
