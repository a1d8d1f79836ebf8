use shoko::shadow::{SecureArena, ShadowStack};

#[test]
fn stack_pops_what_was_pushed_last() {
    let mut stack = ShadowStack::new(3);
    assert_eq!(stack.pop(), None);
    assert_eq!(stack.push(10), Ok(()));
    assert_eq!(stack.push(20), Ok(()));
    assert_eq!(stack.pop(), Some(20));
    assert_eq!(stack.push(30), Ok(()));
    assert_eq!(stack.pop(), Some(30));
    assert_eq!(stack.pop(), Some(10));
    assert_eq!(stack.pop(), None);
}

#[test]
fn stack_refuses_more_than_its_capacity() {
    let mut stack = ShadowStack::new(2);
    assert_eq!(stack.push(1), Ok(()));
    assert_eq!(stack.push(2), Ok(()));
    assert_eq!(stack.push(3), Err("Shadow stack overflow"));
    assert_eq!(stack.pop(), Some(2));
    assert_eq!(stack.push(4), Ok(()));
    let mut none = ShadowStack::new(0);
    assert_eq!(none.push(1), Err("Shadow stack overflow"));
}

#[test]
fn arena_hands_out_front_to_back() {
    let mut arena = SecureArena::with_capacity(10);
    assert_eq!(arena.allocate(4), Some(0));
    assert_eq!(arena.allocate(0), Some(4));
    assert_eq!(arena.allocate(6), Some(4));
    assert_eq!(arena.allocate(1), None);
    assert_eq!(arena.allocate(usize::MAX), None);
    arena.reset();
    assert_eq!(arena.allocate(10), Some(0));
    assert_eq!(arena.allocate(0), Some(10));
}
