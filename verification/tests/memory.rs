use lockfree_model::arena::Arena;
use lockfree_model::atomic::{AtomicWord, MemoryOrder};
use lockfree_model::hazard::HazardRegistry;
use lockfree_model::NULL;

#[test]
fn atomic_compare_exchange_writes_only_on_a_match() {
    let mut word = AtomicWord::new(5);
    assert_eq!(word.load(MemoryOrder::Acquire), 5);
    assert_eq!(word.compare_exchange(4, 9, MemoryOrder::Release, MemoryOrder::Relaxed), Err(5));
    assert_eq!(word.load(MemoryOrder::Relaxed), 5);
    assert_eq!(word.compare_exchange(5, 9, MemoryOrder::Release, MemoryOrder::Relaxed), Ok(5));
    assert_eq!(word.load(MemoryOrder::SeqCst), 9);
    word.store(1, MemoryOrder::Release);
    assert_eq!(word.fetch_or(6, MemoryOrder::AcqRel), 1);
    assert_eq!(word.load(MemoryOrder::Acquire), 7);
    *word.get_mut() = 2;
    assert_eq!(word.load(MemoryOrder::Acquire), 2);
}

#[test]
fn arena_hands_out_the_address_of_a_freed_cell_again() {
    let mut arena: Arena<u32> = Arena::new();
    assert!(arena.is_vacant());
    assert!(!arena.contains(NULL));
    let first = arena.allocate(10);
    let second = arena.allocate(20);
    assert_ne!(first, NULL);
    assert_ne!(first, second);
    assert_eq!(*arena.get(first), 10);
    *arena.get_mut(second) += 1;
    assert_eq!(arena.free(second), 21);
    assert!(!arena.contains(second));
    assert!(arena.holds_only(first));
    assert!(!arena.holds_only(second));
    let third = arena.allocate(30);
    assert_eq!(third, second);
    assert_eq!(*arena.get(third), 30);
    assert_eq!(arena.free(first), 10);
    assert_eq!(arena.free(third), 30);
    assert!(arena.is_vacant());
}

#[test]
fn hazard_retired_cell_lives_until_no_slot_publishes_it() {
    let mut memory: Arena<u32> = Arena::new();
    let mut registry = HazardRegistry::new();
    let cell = memory.allocate(7);
    let source = AtomicWord::new(cell);
    let first = registry.allocate();
    let second = registry.allocate();
    assert_eq!(registry.protect(&first, &source, &mut memory), cell);
    registry.publish(&second, cell, &mut memory);
    assert!(registry.is_protected(cell));
    registry.retire(cell, &mut memory);
    assert!(registry.is_retired(cell));
    assert!(memory.contains(cell));
    registry.clear(&first, &mut memory);
    assert!(memory.contains(cell));
    assert_eq!(*memory.get(cell), 7);
    registry.free(second, &mut memory);
    assert!(!memory.contains(cell));
    assert!(!registry.is_retired(cell));
    assert!(!registry.is_protected(cell));
    registry.free(first, &mut memory);
    assert!(registry.is_idle());
}

#[test]
fn hazard_retired_cell_that_nothing_publishes_dies_at_once() {
    let mut memory: Arena<u32> = Arena::new();
    let mut registry = HazardRegistry::new();
    let cell = memory.allocate(7);
    let other = memory.allocate(8);
    let handle = registry.allocate();
    let source = AtomicWord::new(other);
    registry.protect(&handle, &source, &mut memory);
    registry.retire(cell, &mut memory);
    assert!(!memory.contains(cell));
    assert!(memory.contains(other));
    assert!(!registry.is_idle());
    let moved = AtomicWord::new(NULL);
    registry.retire(other, &mut memory);
    assert!(memory.contains(other));
    registry.protect(&handle, &moved, &mut memory);
    assert!(!memory.contains(other));
    registry.free(handle, &mut memory);
    assert!(registry.is_idle());
    assert!(memory.is_vacant());
}
