//! Word-sized shared cells with explicit memory orders.
use vstd::prelude::*;

verus! {

/// The order requested for one atomic access.
///
/// Every access of this crate is a step of an interleaving, so all orders behave
/// as sequentially consistent ones; the order still has to be one that goes
/// with the kind of access.
#[derive(Clone, Copy, Debug, PartialEq, Eq, Structural)]
pub enum MemoryOrder {
    Relaxed,
    Acquire,
    Release,
    AcqRel,
    SeqCst,
}

impl MemoryOrder {
    /// A load cannot release.
    pub open spec fn for_load(self) -> bool {
        self != MemoryOrder::Release && self != MemoryOrder::AcqRel
    }

    /// A store cannot acquire.
    pub open spec fn for_store(self) -> bool {
        self != MemoryOrder::Acquire && self != MemoryOrder::AcqRel
    }
}

/// A shared word: an index, a set of state bits, or the address of a cell.
#[derive(Debug)]
pub struct AtomicWord {
    value: usize,
}

impl View for AtomicWord {
    type V = usize;

    closed spec fn view(&self) -> usize {
        self.value
    }
}

impl AtomicWord {
    /// A word that holds `value`.
    pub fn new(value: usize) -> (w: AtomicWord)
        ensures
            w@ == value,
    {
        AtomicWord { value }
    }

    /// The word as it is now.
    pub fn load(&self, order: MemoryOrder) -> (v: usize)
        requires
            order.for_load(),
        ensures
            v == self@,
    {
        self.value
    }

    /// Writes `value`.
    pub fn store(&mut self, value: usize, order: MemoryOrder)
        requires
            order.for_store(),
        ensures
            final(self)@ == value,
    {
        self.value = value;
    }

    /// Replaces `current` by `new`. `Ok` holds the replaced word; `Err` holds the
    /// word found instead, and nothing was written.
    pub fn compare_exchange(
        &mut self,
        current: usize,
        new: usize,
        success: MemoryOrder,
        failure: MemoryOrder,
    ) -> (r: Result<usize, usize>)
        requires
            failure.for_load(),
        ensures
            old(self)@ == current ==> r == Ok::<usize, usize>(current) && final(self)@ == new,
            old(self)@ != current ==> r == Err::<usize, usize>(old(self)@) && *final(self) == *old(
                self,
            ),
    {
        if self.value == current {
            self.value = new;
            Ok(current)
        } else {
            Err(self.value)
        }
    }

    /// Sets the bits of `bits` and returns the word as it was.
    pub fn fetch_or(&mut self, bits: usize, order: MemoryOrder) -> (v: usize)
        ensures
            v == old(self)@,
            final(self)@ == old(self)@ | bits,
    {
        let v = self.value;
        self.value = v | bits;
        v
    }

    /// The word, by exclusive access.
    pub fn get_mut(&mut self) -> (v: &mut usize)
        ensures
            *v == old(self)@,
            final(self)@ == *final(v),
    {
        &mut self.value
    }
}

} // verus!
