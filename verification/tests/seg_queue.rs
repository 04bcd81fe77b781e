use lockfree_model::seg_queue::{offset, SegOp, SegPhase, SegQueue, BLOCK_CAP, INDEX_LIMIT};

#[test]
fn seg_queue_hundred_pushes_then_hundred_pops() {
    let mut queue: SegQueue<u32> = SegQueue::new();
    for value in 0..100 {
        queue.push(value);
    }
    assert_eq!(queue.len(), 100);
    for value in 0..100 {
        assert_eq!(queue.pop(), Some(value));
    }
    assert_eq!(queue.pop(), None);
    assert!(queue.is_empty());
}

#[test]
fn seg_queue_len_counts_across_block_ends() {
    let mut queue: SegQueue<usize> = SegQueue::new();
    assert_eq!(queue.len(), 0);
    for value in 0..BLOCK_CAP {
        queue.push(value);
        assert_eq!(queue.len(), value + 1);
    }
    queue.push(BLOCK_CAP);
    assert_eq!(queue.len(), BLOCK_CAP + 1);
    for taken in 0..BLOCK_CAP {
        assert_eq!(queue.pop(), Some(taken));
        assert_eq!(queue.len(), BLOCK_CAP - taken);
    }
    assert_eq!(queue.pop(), Some(BLOCK_CAP));
    assert_eq!(queue.len(), 0);
    assert!(queue.is_empty());
}

#[test]
fn seg_queue_pop_on_empty_is_none_every_time() {
    let mut queue: SegQueue<u8> = SegQueue::new();
    assert_eq!(queue.pop(), None);
    assert_eq!(queue.pop(), None);
    queue.push(1);
    assert_eq!(queue.pop(), Some(1));
    assert_eq!(queue.pop(), None);
    assert_eq!(queue.pop(), None);
    assert!(queue.is_empty());
}

#[test]
fn seg_queue_frees_a_block_once_it_is_read() {
    let mut queue: SegQueue<u32> = SegQueue::new();
    assert!(queue.is_vacant());
    for value in 0..40 {
        queue.push(value);
    }
    assert!(!queue.is_bare());
    for value in 0..35 {
        assert_eq!(queue.pop(), Some(value));
    }
    assert!(!queue.is_vacant());
    assert!(queue.is_bare());
    queue.push(40);
    queue.drain();
    assert!(queue.is_bare());
    assert!(queue.is_empty());
}

#[test]
fn seg_queue_into_vec_keeps_the_order() {
    let mut queue: SegQueue<u32> = SegQueue::new();
    for value in 0..70 {
        queue.push(value);
    }
    assert_eq!(queue.pop(), Some(0));
    let rest = queue.into_vec();
    assert_eq!(rest, (1..70).collect::<Vec<u32>>());
}

#[test]
fn seg_queue_offset_of_an_index() {
    assert_eq!(offset(0), 0);
    assert_eq!(offset(2), 1);
    assert_eq!(offset(3), 1);
    assert_eq!(offset(62), 31);
    assert_eq!(offset(64), 0);
    assert!(INDEX_LIMIT > 64);
}

#[test]
fn seg_queue_pop_waits_for_the_write_of_a_slow_push() {
    let mut queue: SegQueue<u32> = SegQueue::new();
    let mut push = SegOp::push(&queue, 9);
    while push.phase() != SegPhase::PushWrite {
        assert!(push.step(&mut queue));
    }
    let mut pop = SegOp::pop(&queue);
    while pop.phase() != SegPhase::PopWaitWrite {
        assert!(pop.step(&mut queue));
    }
    assert!(!pop.step(&mut queue));
    assert!(push.step(&mut queue));
    assert!(!pop.step(&mut queue));
    assert!(push.step(&mut queue));
    assert!(push.is_done());
    while !pop.is_done() {
        assert!(pop.step(&mut queue));
    }
    assert_eq!(pop.into_outcome(&queue), Some(9));
}

fn run_all(queue: &mut SegQueue<u32>, ops: &mut Vec<SegOp<u32>>) {
    let mut busy = true;
    while busy {
        busy = false;
        for op in ops.iter_mut() {
            if !op.is_done() && op.step(queue) {
                busy = true;
            }
        }
    }
    for op in ops.iter() {
        assert!(op.is_done());
    }
}

#[test]
fn seg_queue_interleaved_operations_conserve_payloads() {
    let mut queue: SegQueue<u32> = SegQueue::new();
    let mut ops: Vec<SegOp<u32>> = Vec::new();
    for value in 0..70 {
        ops.push(SegOp::push(&queue, value));
    }
    run_all(&mut queue, &mut ops);
    assert_eq!(queue.len(), 70);
    let mut pops: Vec<SegOp<u32>> = Vec::new();
    for _ in 0..75 {
        pops.push(SegOp::pop(&queue));
    }
    run_all(&mut queue, &mut pops);
    let mut got: Vec<u32> = Vec::new();
    let mut empty = 0;
    for op in pops {
        match op.into_outcome(&queue) {
            Some(value) => got.push(value),
            None => empty += 1,
        }
    }
    got.sort();
    assert_eq!(got, (0..70).collect::<Vec<u32>>());
    assert_eq!(empty, 5);
    assert!(queue.is_bare());
}

#[test]
fn seg_queue_pushes_and_pops_mixed_step_by_step() {
    let mut queue: SegQueue<u32> = SegQueue::new();
    let mut ops: Vec<SegOp<u32>> = Vec::new();
    for value in 0..40 {
        ops.push(SegOp::push(&queue, value));
        ops.push(SegOp::pop(&queue));
    }
    run_all(&mut queue, &mut ops);
    let mut got: Vec<u32> = Vec::new();
    for op in ops {
        if !op_is_push(&op) {
            if let Some(value) = op.into_outcome(&queue) {
                got.push(value);
            }
        }
    }
    while let Some(value) = queue.pop() {
        got.push(value);
    }
    got.sort();
    assert_eq!(got, (0..40).collect::<Vec<u32>>());
    assert!(queue.is_bare());
}

fn op_is_push(op: &SegOp<u32>) -> bool {
    op.kind_is_push()
}

#[test]
fn seg_queue_clear_frees_every_block() {
    let mut queue: SegQueue<u32> = SegQueue::new();
    for value in 0..100 {
        queue.push(value);
    }
    assert!(!queue.is_vacant());
    queue.clear();
    assert!(queue.is_vacant());
    assert!(queue.is_empty());
    assert_eq!(queue.len(), 0);
    queue.push(7);
    assert_eq!(queue.pop(), Some(7));
    assert_eq!(queue.pop(), None);
}

#[test]
fn seg_queue_thirty_three_pushes_cross_a_block_end() {
    let mut queue: SegQueue<u32> = SegQueue::new();
    for value in 0..33 {
        assert_eq!(queue.try_push(value), Ok(()));
    }
    for value in 0..33 {
        assert_eq!(queue.pop(), Some(value));
    }
    assert_eq!(queue.pop(), None);
}
