//! Lock-free containers over hazard-pointer reclamation, as small-step machines.
//!
//! Shared memory is an explicit value: an [`arena::Arena`] of cells addressed by
//! machine words, with [`atomic::AtomicWord`] for every shared pointer and index.
//! Each container operation is an object that performs one atomic access per
//! `step`, so that any schedule of steps of any number of operations is an
//! execution of the container under sequentially consistent atomics. The
//! one-call methods (`push`, `pop`, ...) run a single operation to completion.
//!
//! What is proved of a container is proved of every schedule. An operation
//! has an invariant, `inv`, that says what it relies on between its steps, and
//! a step of an operation ensures `advances`: the container stays well formed,
//! the contents change only in the step in which the operation takes effect,
//! and as a [`contents::Effect`] says, and every other operation that is
//! `apart` from the stepping one keeps its invariant. A step reads, writes and
//! frees only cells that it has shown live, so no schedule reads a freed cell
//! or frees one twice. Loading a pointer and publishing it as a hazard are two
//! steps, between which the cell may die; an operation follows the pointer
//! only after a third step has found the pointer unchanged.
//! Each container has a `run` that makes the steps of many operations in
//! the order of a schedule that the caller gives, and conserves the payloads
//! whatever the schedule is. `fuel` bounds the steps that an operation takes when
//! it runs alone, which is what lets the one-call methods end.
//!
//! [`sync`] and [`thread`] hold a mutex and a table of threads in the same
//! style: plain data, with the change that each call makes stated exactly.
use vstd::prelude::*;

pub mod arena;
pub mod atomic;
pub mod contents;
pub mod hazard;
pub mod queue;
pub mod seg_queue;
pub mod stack;
pub mod sync;
pub mod thread;

verus! {

/// The address that no cell ever has.
pub const NULL: usize = 0;

} // verus!
