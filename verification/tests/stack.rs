use lockfree_model::stack::{StackOp, StackPhase, TreiberStack};

#[test]
fn stack_pops_in_reverse_order_of_pushes() {
    let mut stack: TreiberStack<u32> = TreiberStack::new();
    stack.push(1);
    stack.push(2);
    stack.push(3);
    assert_eq!(stack.pop(), Some(3));
    assert_eq!(stack.pop(), Some(2));
    assert_eq!(stack.pop(), Some(1));
    assert_eq!(stack.pop(), None);
}

#[test]
fn stack_interleaved_pops_take_distinct_payloads() {
    let mut stack: TreiberStack<u32> = TreiberStack::new();
    stack.push(10);
    stack.push(20);
    let mut first = StackOp::pop(&stack);
    let mut second = StackOp::pop(&stack);
    while !first.is_done() || !second.is_done() {
        if !first.is_done() {
            first.step(&mut stack);
        }
        if !second.is_done() {
            second.step(&mut stack);
        }
    }
    let mut got = vec![first.into_outcome(), second.into_outcome()];
    got.sort();
    assert_eq!(got, vec![Some(10), Some(20)]);
    assert!(stack.is_empty());
    assert!(stack.is_vacant());
}

#[test]
fn stack_pop_on_empty_is_none_every_time() {
    let mut stack: TreiberStack<u32> = TreiberStack::new();
    assert!(stack.is_empty());
    assert_eq!(stack.pop(), None);
    assert_eq!(stack.pop(), None);
    stack.push(4);
    assert!(!stack.is_empty());
    assert_eq!(stack.pop(), Some(4));
    assert_eq!(stack.pop(), None);
    assert_eq!(stack.pop(), None);
}

#[test]
fn stack_drain_frees_every_node() {
    let mut stack: TreiberStack<u32> = TreiberStack::new();
    for value in 0..10 {
        stack.push(value);
    }
    assert!(!stack.is_vacant());
    stack.drain();
    assert!(stack.is_empty());
    assert!(stack.is_vacant());
}

#[test]
fn stack_node_that_a_slow_pop_protects_outlives_its_retirement() {
    let mut stack: TreiberStack<u32> = TreiberStack::new();
    stack.push(1);
    let mut slow = StackOp::pop(&stack);
    // The slow pop reserves a slot, loads the head, publishes it, finds the
    // head unchanged and reads the successor of the node.
    while slow.phase() != StackPhase::PopUnlink {
        slow.step(&mut stack);
    }
    // A fast pop takes the node and retires it.
    assert_eq!(stack.pop(), Some(1));
    assert!(stack.is_empty());
    assert!(!stack.is_vacant());
    // The slow pop fails to unlink, finds the stack empty and gives its slot
    // back: only now the node is destroyed.
    while !slow.is_done() {
        slow.step(&mut stack);
    }
    assert_eq!(slow.into_outcome(), None);
    assert!(stack.is_vacant());
}

#[test]
fn stack_push_after_a_lost_race_still_lands() {
    let mut stack: TreiberStack<u32> = TreiberStack::new();
    let mut slow = StackOp::push(&mut stack, 1);
    // The slow push loads the head.
    slow.step(&mut stack);
    stack.push(2);
    while !slow.is_done() {
        slow.step(&mut stack);
    }
    assert_eq!(stack.pop(), Some(1));
    assert_eq!(stack.pop(), Some(2));
    assert_eq!(stack.pop(), None);
}

#[test]
fn stack_pop_starts_over_when_the_head_moves_before_it_is_validated() {
    let mut stack: TreiberStack<u32> = TreiberStack::new();
    stack.push(1);
    stack.push(2);
    let mut slow = StackOp::pop(&stack);
    // The slow pop has published the head and not compared it again.
    while slow.phase() != StackPhase::PopValidate {
        slow.step(&mut stack);
    }
    assert_eq!(stack.pop(), Some(2));
    slow.step(&mut stack);
    assert_eq!(slow.phase(), StackPhase::PopLoad);
    while !slow.is_done() {
        slow.step(&mut stack);
    }
    assert_eq!(slow.into_outcome(), Some(1));
    assert!(stack.is_vacant());
}
