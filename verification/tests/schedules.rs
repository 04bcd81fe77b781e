use lockfree_model::queue::{Queue, QueueOp};
use lockfree_model::seg_queue::{SegOp, SegQueue};
use lockfree_model::stack::{StackOp, TreiberStack};

/// A small generator of numbers that look random, so that every run of a
/// test goes through the same schedules.
struct Dice {
    state: u64,
}

impl Dice {
    fn new(seed: u64) -> Dice {
        Dice { state: seed.wrapping_mul(6364136223846793005).wrapping_add(1442695040888963407) }
    }

    fn roll(&mut self, sides: usize) -> usize {
        self.state = self.state.wrapping_mul(6364136223846793005).wrapping_add(1442695040888963407);
        ((self.state >> 33) as usize) % sides
    }
}

#[test]
fn stack_conserves_payloads_under_random_schedules() {
    for seed in 0..200 {
        let mut dice = Dice::new(seed);
        let mut stack: TreiberStack<u32> = TreiberStack::new();
        let mut ops: Vec<(bool, StackOp<u32>)> = Vec::new();
        let pushes = 1 + dice.roll(5) as u32;
        let pops = 1 + dice.roll(6);
        for value in 0..pushes {
            ops.push((true, StackOp::push(&mut stack, value)));
        }
        for _ in 0..pops {
            ops.push((false, StackOp::pop(&stack)));
        }
        while ops.iter().any(|(_, op)| !op.is_done()) {
            let pick = dice.roll(ops.len());
            if !ops[pick].1.is_done() {
                ops[pick].1.step(&mut stack);
            }
        }
        let mut got: Vec<u32> = Vec::new();
        for (push, op) in ops {
            if !push {
                if let Some(value) = op.into_outcome() {
                    got.push(value);
                }
            }
        }
        assert!(got.len() <= pushes as usize);
        while let Some(value) = stack.pop() {
            got.push(value);
        }
        got.sort();
        assert_eq!(got, (0..pushes).collect::<Vec<u32>>());
        assert!(stack.is_vacant());
    }
}

#[test]
fn queue_conserves_payloads_under_random_schedules() {
    for seed in 0..200 {
        let mut dice = Dice::new(seed);
        let mut queue: Queue<u32> = Queue::new();
        let mut ops: Vec<(bool, QueueOp<u32>)> = Vec::new();
        let pushes = 1 + dice.roll(5) as u32;
        let pops = 1 + dice.roll(6);
        for value in 0..pushes {
            ops.push((true, QueueOp::push(&mut queue, value)));
        }
        for turn in 0..pops {
            if turn % 2 == 0 {
                ops.push((false, QueueOp::pop(&queue)));
            } else {
                ops.push((false, QueueOp::pop_if(&queue)));
            }
        }
        while ops.iter().any(|(_, op)| !op.is_done()) {
            let pick = dice.roll(ops.len());
            let op = &mut ops[pick].1;
            if op.is_done() {
                continue;
            }
            if op.is_testing() {
                op.test(&mut queue, &|front: &u32| *front % 2 == 0);
            } else {
                op.step(&mut queue);
            }
        }
        let mut got: Vec<u32> = Vec::new();
        for (push, op) in ops {
            if !push {
                if let Some(value) = op.into_outcome() {
                    got.push(value);
                }
            }
        }
        assert!(got.len() <= pushes as usize);
        while let Some(value) = queue.try_pop() {
            got.push(value);
        }
        got.sort();
        assert_eq!(got, (0..pushes).collect::<Vec<u32>>());
        assert!(queue.is_bare());
    }
}

#[test]
fn queue_single_consumer_sees_the_order_of_a_single_producer() {
    for seed in 0..100 {
        let mut dice = Dice::new(seed);
        let mut queue: Queue<u32> = Queue::new();
        let mut next_push = 0;
        let mut push = QueueOp::push(&mut queue, next_push);
        let mut pop = QueueOp::pop(&queue);
        let mut got: Vec<u32> = Vec::new();
        while got.len() < 20 {
            if dice.roll(2) == 0 {
                if push.is_done() {
                    next_push += 1;
                    push = QueueOp::push(&mut queue, next_push);
                } else {
                    push.step(&mut queue);
                }
            } else if pop.is_done() {
                if let Some(value) = pop.into_outcome() {
                    got.push(value);
                }
                pop = QueueOp::pop(&queue);
            } else {
                pop.step(&mut queue);
            }
        }
        assert_eq!(got, (0..20).collect::<Vec<u32>>());
    }
}

#[test]
fn seg_queue_conserves_payloads_under_random_schedules() {
    for seed in 0..200 {
        let mut dice = Dice::new(seed);
        let mut queue: SegQueue<u32> = SegQueue::new();
        let mut ops: Vec<SegOp<u32>> = Vec::new();
        let pushes = 25 + dice.roll(50) as u32;
        let pops = 20 + dice.roll(60);
        for value in 0..pushes {
            ops.push(SegOp::push(&queue, value));
        }
        for _ in 0..pops {
            ops.push(SegOp::pop(&queue));
        }
        let mut idle = 0;
        while ops.iter().any(|op| !op.is_done()) {
            let pick = dice.roll(ops.len());
            if ops[pick].is_done() {
                continue;
            }
            if ops[pick].step(&mut queue) {
                idle = 0;
            } else {
                idle += 1;
                assert!(idle < 1_000_000);
            }
        }
        let mut got: Vec<u32> = Vec::new();
        for op in ops {
            if !op.kind_is_push() {
                if let Some(value) = op.into_outcome(&queue) {
                    got.push(value);
                }
            }
        }
        assert!(got.len() <= pushes as usize);
        while let Some(value) = queue.pop() {
            got.push(value);
        }
        got.sort();
        assert_eq!(got, (0..pushes).collect::<Vec<u32>>());
        assert!(queue.is_bare());
    }
}

#[test]
fn seg_queue_single_consumer_sees_the_order_of_a_single_producer() {
    for seed in 0..50 {
        let mut dice = Dice::new(seed);
        let mut queue: SegQueue<u32> = SegQueue::new();
        let mut next_push = 0;
        let mut push = SegOp::push(&queue, next_push);
        let mut pop = SegOp::pop(&queue);
        let mut got: Vec<u32> = Vec::new();
        while got.len() < 100 {
            if dice.roll(2) == 0 {
                if push.is_done() {
                    next_push += 1;
                    push = SegOp::push(&queue, next_push);
                } else {
                    push.step(&mut queue);
                }
            } else if pop.is_done() {
                if let Some(value) = pop.into_outcome(&queue) {
                    got.push(value);
                }
                pop = SegOp::pop(&queue);
            } else {
                pop.step(&mut queue);
            }
        }
        assert_eq!(got, (0..100).collect::<Vec<u32>>());
    }
}

fn schedule(dice: &mut Dice, ops: usize, turns: usize) -> Vec<usize> {
    (0..turns).map(|_| dice.roll(ops)).collect()
}

#[test]
fn stack_run_conserves_payloads_for_any_schedule() {
    for seed in 0..100 {
        let mut dice = Dice::new(seed);
        let mut stack: TreiberStack<u32> = TreiberStack::new();
        stack.push(100);
        let mut ops: Vec<StackOp<u32>> = Vec::new();
        for value in 0..4 {
            ops.push(StackOp::push(&mut stack, value));
        }
        for _ in 0..4 {
            ops.push(StackOp::pop(&stack));
        }
        // A short run leaves operations unfinished; a long one finishes all.
        let turns = if seed % 2 == 0 { 30 } else { 2000 };
        let plan = schedule(&mut dice, ops.len(), turns);
        stack.run(&mut ops, &plan);
        let finished = ops.iter().filter(|op| op.is_done()).count();
        if turns == 2000 {
            assert_eq!(finished, ops.len());
        }
        // Finish what is unfinished, one operation after the other.
        for op in ops.iter_mut() {
            while !op.is_done() {
                op.step(&mut stack);
            }
        }
        let mut got: Vec<u32> = Vec::new();
        for op in ops.drain(4..) {
            if let Some(value) = op.into_outcome() {
                got.push(value);
            }
        }
        while let Some(value) = stack.pop() {
            got.push(value);
        }
        got.sort();
        assert_eq!(got, vec![0, 1, 2, 3, 100]);
        assert!(stack.is_vacant());
    }
}

#[test]
fn queue_run_conserves_payloads_for_any_schedule() {
    for seed in 0..100 {
        let mut dice = Dice::new(seed);
        let mut queue: Queue<u32> = Queue::new();
        let mut ops: Vec<QueueOp<u32>> = Vec::new();
        for value in 0..4 {
            ops.push(QueueOp::push(&mut queue, value));
        }
        for turn in 0..5 {
            if turn % 2 == 0 {
                ops.push(QueueOp::pop(&queue));
            } else {
                ops.push(QueueOp::pop_if(&queue));
            }
        }
        let plan = schedule(&mut dice, ops.len(), 3000);
        queue.run(&mut ops, &plan, &|front: &u32| *front != 2);
        let mut got: Vec<u32> = Vec::new();
        for op in ops.drain(4..) {
            assert!(op.is_done());
            if let Some(value) = op.into_outcome() {
                got.push(value);
            }
        }
        while let Some(value) = queue.try_pop() {
            got.push(value);
        }
        got.sort();
        assert_eq!(got, vec![0, 1, 2, 3]);
        assert!(queue.is_bare());
    }
}

#[test]
fn seg_queue_run_conserves_payloads_for_any_schedule() {
    for seed in 0..50 {
        let mut dice = Dice::new(seed);
        let mut queue: SegQueue<u32> = SegQueue::new();
        let mut ops: Vec<SegOp<u32>> = Vec::new();
        for value in 0..40 {
            ops.push(SegOp::push(&queue, value));
        }
        for _ in 0..45 {
            ops.push(SegOp::pop(&queue));
        }
        let plan = schedule(&mut dice, ops.len(), 60_000);
        queue.run(&mut ops, &plan);
        let mut got: Vec<u32> = Vec::new();
        for op in ops.drain(40..) {
            assert!(op.is_done());
            if let Some(value) = op.into_outcome(&queue) {
                got.push(value);
            }
        }
        while let Some(value) = queue.pop() {
            got.push(value);
        }
        got.sort();
        assert_eq!(got, (0..40).collect::<Vec<u32>>());
        assert!(queue.is_bare());
    }
}
