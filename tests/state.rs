use fancy_vm::error::Error;
use fancy_vm::state::State;
use fancy_vm::vm::MAX_STACK;

#[test]
fn state_push_pop() {
    let mut state = State::new(1, MAX_STACK, 0);

    state.push(0, 0).unwrap();
    state.push(1, 1).unwrap();
    assert_eq!(state.pop(), (1, 1));
    assert_eq!(state.pop(), (0, 0));
    assert!(state.backtrack_count() == 0);

    state.push(2, 2).unwrap();
    assert_eq!(state.pop(), (2, 2));
    assert!(state.backtrack_count() == 0);
}

#[test]
fn state_save_override() {
    let mut state = State::new(1, MAX_STACK, 0);
    state.save(0, 10);
    state.push(0, 0).unwrap();
    state.save(0, 20);
    assert_eq!(state.pop(), (0, 0));
    assert_eq!(state.get(0), 10);
}

#[test]
fn state_save_override_twice() {
    let mut state = State::new(1, MAX_STACK, 0);
    state.save(0, 10);
    state.push(0, 0).unwrap();
    state.save(0, 20);
    state.push(1, 1).unwrap();
    state.save(0, 30);

    assert_eq!(state.get(0), 30);
    assert_eq!(state.pop(), (1, 1));
    assert_eq!(state.get(0), 20);
    assert_eq!(state.pop(), (0, 0));
    assert_eq!(state.get(0), 10);
}

#[test]
fn new_state_slots_are_unset() {
    let state = State::new(3, MAX_STACK, 0);
    assert_eq!(state.get(0), usize::MAX);
    assert_eq!(state.get(2), usize::MAX);
    assert_eq!(state.backtrack_count(), 0);
    assert_eq!(state.explicit_depth(), 0);
}

#[test]
fn first_write_in_frame_is_restored() {
    let mut state = State::new(2, MAX_STACK, 0);
    state.save(1, 5);
    state.push(7, 3).unwrap();
    state.save(1, 6);
    state.save(1, 7);
    state.save(1, 8);
    state.save(0, 1);
    assert_eq!(state.get(1), 8);
    assert_eq!(state.pop(), (7, 3));
    assert_eq!(state.get(1), 5);
    assert_eq!(state.get(0), usize::MAX);
}

#[test]
fn balanced_push_pop_restores_slots() {
    let mut state = State::new(3, MAX_STACK, 0);
    state.save(0, 4);
    state.push(1, 0).unwrap();
    state.save(0, 9);
    state.save(2, 9);
    state.push(2, 1).unwrap();
    state.save(1, 3);
    state.save(0, 11);
    state.pop();
    state.push(3, 2).unwrap();
    state.save(2, 12);
    state.pop();
    state.pop();
    assert_eq!(state.get(0), 4);
    assert_eq!(state.get(1), usize::MAX);
    assert_eq!(state.get(2), usize::MAX);
}

#[test]
fn push_beyond_bound_overflows() {
    let mut state = State::new(1, 2, 0);
    assert_eq!(state.push(0, 0), Ok(()));
    assert_eq!(state.push(1, 0), Ok(()));
    assert_eq!(state.push(2, 0), Err(Error::StackOverflow));
    assert_eq!(state.backtrack_count(), 2);
}

#[test]
fn explicit_stack_push_pop() {
    let mut state = State::new(1, MAX_STACK, 0);
    state.stack_push(4).unwrap();
    state.stack_push(9).unwrap();
    assert_eq!(state.explicit_depth(), 2);
    assert_eq!(state.stack_pop(), 9);
    assert_eq!(state.stack_pop(), 4);
    assert_eq!(state.explicit_depth(), 0);
}

#[test]
fn explicit_stack_is_undone_by_pop() {
    let mut state = State::new(1, MAX_STACK, 0);
    state.stack_push(1).unwrap();
    state.push(0, 0).unwrap();
    state.stack_push(2).unwrap();
    assert_eq!(state.explicit_depth(), 2);
    state.pop();
    assert_eq!(state.explicit_depth(), 1);
    assert_eq!(state.stack_pop(), 1);
}

#[test]
fn explicit_stack_is_not_bounded_by_max_stack() {
    let mut state = State::new(1, 1, 0);
    assert_eq!(state.stack_push(5), Ok(()));
    assert_eq!(state.stack_push(6), Ok(()));
    assert_eq!(state.stack_push(7), Ok(()));
    assert_eq!(state.explicit_depth(), 3);
    assert_eq!(state.stack_pop(), 7);
    assert_eq!(state.stack_pop(), 6);
    assert_eq!(state.stack_pop(), 5);
}

#[test]
fn explicit_stack_restored_after_writes_in_frame() {
    let mut state = State::new(1, MAX_STACK, 0);
    state.stack_push(1).unwrap();
    state.push(0, 0).unwrap();
    state.save(0, 3);
    state.stack_push(2).unwrap();
    state.stack_pop();
    state.stack_pop();
    assert_eq!(state.explicit_depth(), 0);
    state.pop();
    assert_eq!(state.explicit_depth(), 1);
    assert_eq!(state.stack_pop(), 1);
}

#[test]
fn cut_keeps_writes_rewindable() {
    let mut state = State::new(2, MAX_STACK, 0);
    state.save(0, 1);
    state.push(10, 0).unwrap();
    let count = state.backtrack_count();
    state.save(0, 2);
    state.push(11, 1).unwrap();
    state.save(0, 3);
    state.save(1, 4);
    state.push(12, 2).unwrap();
    state.save(1, 5);
    state.backtrack_cut(count);
    assert_eq!(state.backtrack_count(), 1);
    assert_eq!(state.get(0), 3);
    assert_eq!(state.get(1), 5);
    assert_eq!(state.pop(), (10, 0));
    assert_eq!(state.get(0), 1);
    assert_eq!(state.get(1), usize::MAX);
}

#[test]
fn cut_to_current_depth_changes_nothing() {
    let mut state = State::new(1, MAX_STACK, 0);
    state.push(3, 0).unwrap();
    state.save(0, 7);
    state.backtrack_cut(1);
    assert_eq!(state.backtrack_count(), 1);
    assert_eq!(state.get(0), 7);
    assert_eq!(state.pop(), (3, 0));
    assert_eq!(state.get(0), usize::MAX);
}
