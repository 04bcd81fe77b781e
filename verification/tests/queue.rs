use lockfree_model::queue::{Queue, QueueOp, QueuePhase};

#[test]
fn queue_pops_in_order_of_pushes() {
    let mut queue: Queue<u32> = Queue::new();
    for value in 0..40 {
        queue.push(value);
    }
    for value in 0..40 {
        assert_eq!(queue.try_pop(), Some(value));
    }
    assert_eq!(queue.try_pop(), None);
    assert_eq!(queue.try_pop(), None);
}

#[test]
fn queue_conditional_pop_takes_only_an_accepted_front() {
    let mut queue: Queue<u32> = Queue::new();
    queue.push(3);
    queue.push(4);
    assert_eq!(queue.try_pop_if(|front: &u32| *front % 2 == 0), None);
    assert_eq!(queue.try_pop_if(|front: &u32| *front % 2 == 1), Some(3));
    assert_eq!(queue.try_pop_if(|front: &u32| *front % 2 == 0), Some(4));
    assert_eq!(queue.try_pop_if(|_front: &u32| true), None);
}

#[test]
fn queue_drain_leaves_the_sentinel_only() {
    let mut queue: Queue<u32> = Queue::new();
    queue.push(1);
    queue.push(2);
    assert_eq!(queue.try_pop(), Some(1));
    queue.push(3);
    assert!(!queue.is_bare());
    queue.drain();
    assert!(queue.is_bare());
    assert_eq!(queue.try_pop(), None);
}

fn run_round_robin(queue: &mut Queue<u32>, ops: &mut Vec<QueueOp<u32>>) {
    let mut busy = true;
    while busy {
        busy = false;
        for op in ops.iter_mut() {
            if !op.is_done() {
                op.step(queue);
                busy = true;
            }
        }
    }
}

#[test]
fn queue_interleaved_pushes_and_pops_conserve_payloads() {
    let mut queue: Queue<u32> = Queue::new();
    let mut pushes: Vec<QueueOp<u32>> = Vec::new();
    for value in 0..5 {
        pushes.push(QueueOp::push(&mut queue, value));
    }
    run_round_robin(&mut queue, &mut pushes);
    let mut pops: Vec<QueueOp<u32>> = Vec::new();
    for _ in 0..7 {
        pops.push(QueueOp::pop(&queue));
    }
    run_round_robin(&mut queue, &mut pops);
    let mut got: Vec<u32> = Vec::new();
    let mut empty = 0;
    for op in pops {
        match op.into_outcome() {
            Some(value) => got.push(value),
            None => empty += 1,
        }
    }
    got.sort();
    assert_eq!(got, vec![0, 1, 2, 3, 4]);
    assert_eq!(empty, 2);
    assert!(queue.is_bare());
}

#[test]
fn queue_conditional_pop_confirms_a_rejection_against_the_head() {
    let mut queue: Queue<u32> = Queue::new();
    queue.push(3);
    let even = |front: &u32| *front % 2 == 0;
    let mut picky = QueueOp::pop_if(&queue);
    while !picky.is_testing() {
        picky.step(&mut queue);
    }
    // The condition rejects 3; before the pop looks at the head again,
    // another pop takes 3 and a push adds 4.
    picky.test(&mut queue, &even);
    assert!(!picky.is_done());
    assert_eq!(queue.try_pop(), Some(3));
    queue.push(4);
    while !picky.is_done() {
        if picky.is_testing() {
            picky.test(&mut queue, &even);
        } else {
            picky.step(&mut queue);
        }
    }
    assert_eq!(picky.into_outcome(), Some(4));
    assert!(queue.is_bare());
}

#[test]
fn queue_payload_of_a_slow_pop_outlives_the_retirement_of_its_node() {
    let mut queue: Queue<u32> = Queue::new();
    queue.push(1);
    queue.push(2);
    let mut slow = QueueOp::pop(&queue);
    // The slow pop goes on until it has unlinked the sentinel.
    while slow.phase() != QueuePhase::PopLoadTail {
        slow.step(&mut queue);
    }
    // A fast pop takes the next payload and retires the node that still holds
    // the payload of the slow pop.
    assert_eq!(queue.try_pop(), Some(2));
    while !slow.is_done() {
        slow.step(&mut queue);
    }
    assert_eq!(slow.into_outcome(), Some(1));
    assert_eq!(queue.try_pop(), None);
    assert!(queue.is_bare());
}

#[test]
fn queue_push_helps_a_lagging_tail_forward() {
    let mut queue: Queue<u32> = Queue::new();
    let mut slow = QueueOp::push(&mut queue, 1);
    // The slow push goes on until it has linked its node, and stops before it
    // swings the tail.
    while slow.phase() != QueuePhase::PushSwing {
        slow.step(&mut queue);
    }
    queue.push(2);
    while !slow.is_done() {
        slow.step(&mut queue);
    }
    assert_eq!(queue.try_pop(), Some(1));
    assert_eq!(queue.try_pop(), Some(2));
    assert_eq!(queue.try_pop(), None);
}

#[test]
fn queue_pop_starts_over_when_the_head_moves_before_it_is_validated() {
    let mut queue: Queue<u32> = Queue::new();
    queue.push(1);
    queue.push(2);
    let mut slow = QueueOp::pop(&queue);
    // The slow pop has published the sentinel and not compared the head again.
    while slow.phase() != QueuePhase::PopValidateHead {
        slow.step(&mut queue);
    }
    assert_eq!(queue.try_pop(), Some(1));
    slow.step(&mut queue);
    assert_eq!(slow.phase(), QueuePhase::PopLoadHead);
    while !slow.is_done() {
        slow.step(&mut queue);
    }
    assert_eq!(slow.into_outcome(), Some(2));
    assert!(queue.is_bare());
}
