//! Hazard pointers: protection slots, and retirement of cells that may still be read.
use crate::arena::Arena;
use crate::atomic::{AtomicWord, MemoryOrder};
use vstd::prelude::*;

verus! {

/// What a registry holds: the address published in each reserved slot, and the
/// retired addresses whose cells still live.
pub struct RegistryView {
    pub slots: Map<int, usize>,
    pub retired: Set<usize>,
}

impl RegistryView {
    /// Some reserved slot publishes `addr`.
    pub open spec fn protects(self, addr: usize) -> bool {
        self.slots.contains_value(addr)
    }

    /// The retired addresses that have to wait: those still published.
    pub open spec fn waiting(self) -> Set<usize> {
        Set::new(|a: usize| self.retired.contains(a) && self.protects(a))
    }

    /// The retired addresses that nothing publishes any more.
    pub open spec fn released(self) -> Set<usize> {
        Set::new(|a: usize| self.retired.contains(a) && !self.protects(a))
    }

    /// Some reserved slot other than `slot` publishes `addr`.
    pub open spec fn protects_elsewhere(self, slot: int, addr: usize) -> bool {
        exists|k: int| k != slot && #[trigger] self.slots.dom().contains(k) && self.slots[k] == addr
    }

    /// What a slot publishes decides what is protected.
    pub proof fn lemma_protects(self, slot: int, addr: usize, a: usize)
        ensures
            self.protects(a) <==> (self.slots.dom().contains(slot) && self.slots[slot] == a)
                || self.protects_elsewhere(slot, a),
            self.with_slot(slot, addr).protects(a) <==> a == addr || self.protects_elsewhere(
                slot,
                a,
            ),
            self.without_slot(slot).protects(a) <==> self.protects_elsewhere(slot, a),
            self.with_retired(addr).protects(a) <==> self.protects(a),
            self.settled().protects(a) <==> self.protects(a),
    {
        if self.protects(a) {
            let k = choose|k: int| #[trigger] self.slots.dom().contains(k) && self.slots[k] == a;
            if k != slot {
                assert(self.protects_elsewhere(slot, a));
            }
        }
        if self.protects_elsewhere(slot, a) {
            let k = choose|k: int|
                k != slot && #[trigger] self.slots.dom().contains(k) && self.slots[k] == a;
            assert(self.slots.dom().contains(k) && self.slots[k] == a);
            assert(self.with_slot(slot, addr).slots.dom().contains(k) && self.with_slot(
                slot,
                addr,
            ).slots[k] == a);
            assert(self.without_slot(slot).slots.dom().contains(k) && self.without_slot(
                slot,
            ).slots[k] == a);
        }
        if self.with_slot(slot, addr).protects(a) {
            let v = self.with_slot(slot, addr);
            let k = choose|k: int| #[trigger] v.slots.dom().contains(k) && v.slots[k] == a;
            if k != slot {
                assert(self.slots.dom().contains(k) && self.slots[k] == a);
            }
        }
        if a == addr {
            let v = self.with_slot(slot, addr);
            assert(v.slots.dom().contains(slot) && v.slots[slot] == a);
        }
        if self.without_slot(slot).protects(a) {
            let v = self.without_slot(slot);
            let k = choose|k: int| #[trigger] v.slots.dom().contains(k) && v.slots[k] == a;
            assert(self.slots.dom().contains(k) && self.slots[k] == a);
        }
    }

    /// No cell is destroyed while a slot publishes its address: of the cells of
    /// `memory`, those that are not released stay as they are.
    pub proof fn lemma_protected_survives<N>(self, memory: Map<usize, N>, addr: usize)
        requires
            memory.dom().contains(addr),
            self.protects(addr) || !self.retired.contains(addr),
        ensures
            memory.remove_keys(self.released()).dom().contains(addr),
            memory.remove_keys(self.released())[addr] == memory[addr],
    {
    }

    pub open spec fn with_slot(self, slot: int, addr: usize) -> RegistryView {
        RegistryView { slots: self.slots.insert(slot, addr), retired: self.retired }
    }

    pub open spec fn without_slot(self, slot: int) -> RegistryView {
        RegistryView { slots: self.slots.remove(slot), retired: self.retired }
    }

    pub open spec fn with_retired(self, addr: usize) -> RegistryView {
        RegistryView { slots: self.slots, retired: self.retired.insert(addr) }
    }

    /// The same slots, and of the retired addresses those that have to wait.
    pub open spec fn settled(self) -> RegistryView {
        RegistryView { slots: self.slots, retired: self.waiting() }
    }
}

/// The right to use one protection slot. It is made by
/// [`HazardRegistry::allocate`] and ends in [`HazardRegistry::free`]; it cannot
/// be copied.
#[derive(Debug)]
pub struct HazardHandle {
    slot: usize,
}

impl HazardHandle {
    /// The slot that this handle stands for.
    pub closed spec fn id(&self) -> int {
        self.slot as int
    }
}

struct HazardSlot {
    reserved: bool,
    published: usize,
}

/// Protection slots and the list of retired addresses.
///
/// A retired cell is destroyed by the registry, in the first call after which
/// no slot publishes its address; until then it stays readable.
pub struct HazardRegistry {
    slots: Vec<HazardSlot>,
    retired: Vec<usize>,
}

impl View for HazardRegistry {
    type V = RegistryView;

    closed spec fn view(&self) -> RegistryView {
        RegistryView {
            slots: Map::new(
                |k: int| 0 <= k < self.slots.len() && self.slots[k].reserved,
                |k: int| self.slots[k].published,
            ),
            retired: self.retired@.to_set(),
        }
    }
}

impl HazardRegistry {
    /// No address is retired twice, none is null, and each is still published
    /// by some slot, unless it is `pending`.
    closed spec fn wf_but(&self, pending: usize) -> bool {
        &&& self.retired@.no_duplicates()
        &&& forall|i: int|
            0 <= i < self.retired.len() ==> #[trigger] self.retired[i] != crate::NULL
        &&& forall|i: int|
            0 <= i < self.retired.len() && self.retired[i] != pending ==> self@.protects(
                #[trigger] self.retired[i],
            )
    }

    /// No address is retired twice, none is null, and each retired address is
    /// still published by some slot.
    pub closed spec fn wf(&self) -> bool {
        self.wf_but(crate::NULL)
    }

    /// Every retired address is a live cell of `memory`.
    pub open spec fn guards<N>(&self, memory: &Arena<N>) -> bool {
        forall|a: usize| #[trigger] self@.retired.contains(a) ==> memory.is_live(a)
    }

    /// Whoever has retired an address waits for a slot that publishes it.
    pub proof fn lemma_retired_is_protected(&self, addr: usize)
        requires
            self.wf(),
            self@.retired.contains(addr),
        ensures
            self@.protects(addr),
            addr != crate::NULL,
    {
        let i = choose|i: int| 0 <= i < self.retired.len() && self.retired[i] == addr;
        assert(self@.protects(self.retired[i]));
    }

    /// A registry with no slot reserved and nothing retired.
    pub fn new() -> (registry: HazardRegistry)
        ensures
            registry.wf(),
            registry@.slots == Map::<int, usize>::empty(),
            registry@.retired == Set::<usize>::empty(),
    {
        let registry = HazardRegistry { slots: Vec::new(), retired: Vec::new() };
        assert(registry@.slots =~= Map::<int, usize>::empty());
        assert(registry@.retired =~= Set::<usize>::empty());
        registry
    }

    /// Whether some reserved slot publishes `addr`.
    pub fn is_protected(&self, addr: usize) -> (found: bool)
        ensures
            found == self@.protects(addr),
    {
        let mut k: usize = 0;
        while k < self.slots.len()
            invariant
                k <= self.slots.len(),
                forall|j: int|
                    0 <= j < k ==> !(self.slots[j].reserved && self.slots[j].published == addr),
            decreases self.slots.len() - k,
        {
            if self.slots[k].reserved && self.slots[k].published == addr {
                assert(self@.slots.dom().contains(k as int) && self@.slots[k as int] == addr);
                return true;
            }
            k += 1;
        }
        false
    }

    fn retired_position(&self, addr: usize) -> (found: Option<usize>)
        ensures
            match found {
                Some(i) => i < self.retired.len() && self.retired[i as int] == addr,
                None => !self@.retired.contains(addr),
            },
    {
        let mut i: usize = 0;
        while i < self.retired.len()
            invariant
                i <= self.retired.len(),
                forall|j: int| 0 <= j < i ==> self.retired[j] != addr,
            decreases self.retired.len() - i,
        {
            if self.retired[i] == addr {
                return Some(i);
            }
            i += 1;
        }
        None
    }

    /// Whether `addr` is retired and its cell not yet destroyed.
    pub fn is_retired(&self, addr: usize) -> (found: bool)
        ensures
            found == self@.retired.contains(addr),
    {
        self.retired_position(addr).is_some()
    }

    /// Whether no slot is reserved.
    pub fn is_idle(&self) -> (idle: bool)
        ensures
            idle == (self@.slots.dom() =~= Set::<int>::empty()),
    {
        let mut k: usize = 0;
        while k < self.slots.len()
            invariant
                k <= self.slots.len(),
                forall|j: int| 0 <= j < k ==> !self.slots[j].reserved,
            decreases self.slots.len() - k,
        {
            if self.slots[k].reserved {
                assert(self@.slots.dom().contains(k as int));
                return false;
            }
            k += 1;
        }
        true
    }

    /// Destroys the cell at `pending` if it is retired and nothing publishes it.
    fn settle<N>(&mut self, pending: usize, memory: &mut Arena<N>)
        requires
            old(self).wf_but(pending),
            old(self).guards(old(memory)),
            old(memory).wf(),
        ensures
            final(self).wf(),
            final(self)@ == old(self)@.settled(),
            final(memory).wf(),
            final(memory)@ == old(memory)@.remove_keys(old(self)@.released()),
            final(self).guards(final(memory)),
    {
        let found = self.retired_position(pending);
        let mut destroyed = false;
        if let Some(i) = found {
            if !self.is_protected(pending) {
                let ghost before = self.retired@;
                self.retired.swap_remove(i);
                proof {
                    let after = self.retired@;
                    assert forall|j: int| 0 <= j < after.len() implies after[j] != pending
                        && before.contains(#[trigger] after[j]) by {
                        if j == i {
                            assert(after[j] == before[before.len() - 1]);
                        } else {
                            assert(after[j] == before[j]);
                        }
                    }
                    assert forall|a: usize| before.contains(a) && a != pending implies after.contains(
                        a,
                    ) by {
                        let j = choose|j: int| 0 <= j < before.len() && before[j] == a;
                        if j == before.len() - 1 {
                            assert(after[i as int] == a);
                        } else {
                            assert(after[j] == a);
                        }
                    }
                    assert(after.no_duplicates());
                    assert(old(self)@.retired.contains(before[i as int]));
                    assert(memory.is_live(pending));
                }
                memory.free(pending);
                destroyed = true;
            }
        }
        proof {
            let view = old(self)@;
            assert forall|a: usize| self@.retired.contains(a) <==> view.waiting().contains(
                a,
            ) by {
                if a != pending && view.retired.contains(a) {
                    let j = choose|j: int|
                        0 <= j < old(self).retired.len() && old(self).retired[j] == a;
                    assert(view.protects(old(self).retired[j]));
                }
            }
            assert(self@.retired =~= view.waiting());
            assert(self@.slots =~= view.slots);
            if destroyed {
                assert(view.released() =~= set![pending]);
                assert(old(memory)@.remove_keys(set![pending]) =~= old(memory)@.remove(pending));
            } else {
                assert(view.released() =~= Set::<usize>::empty());
                assert(old(memory)@.remove_keys(Set::<usize>::empty()) =~= old(memory)@);
            }
            assert forall|i: int| 0 <= i < self.retired.len() implies self@.protects(
                #[trigger] self.retired[i],
            ) by {
                assert(self@.retired.contains(self.retired[i]));
            }
            assert forall|a: usize| self@.retired.contains(a) implies memory.is_live(a) by {
                assert(view.waiting().contains(a));
                assert(old(memory).is_live(a));
                assert(!view.released().contains(a));
            }
        }
    }

    /// Reserves a slot that was not reserved; it publishes nothing yet.
    pub fn allocate(&mut self) -> (handle: HazardHandle)
        requires
            old(self).wf(),
        ensures
            final(self).wf(),
            !old(self)@.slots.dom().contains(handle.id()),
            final(self)@ == old(self)@.with_slot(handle.id(), crate::NULL),
    {
        let mut k: usize = 0;
        while k < self.slots.len() && self.slots[k].reserved
            invariant
                k <= self.slots.len(),
            decreases self.slots.len() - k,
        {
            k += 1;
        }
        if k < self.slots.len() {
            self.slots[k] = HazardSlot { reserved: true, published: crate::NULL };
        } else {
            self.slots.push(HazardSlot { reserved: true, published: crate::NULL });
        }
        proof {
            let view = old(self)@;
            assert(self@.slots =~= view.slots.insert(k as int, crate::NULL));
            assert forall|i: int| 0 <= i < self.retired.len() implies self@.protects(
                #[trigger] self.retired[i],
            ) by {
                assert(view.protects(old(self).retired[i]));
                let j = choose|j: int| view.slots.dom().contains(j) && view.slots[j] == self.retired[i];
                assert(self@.slots.dom().contains(j) && self@.slots[j] == self.retired[i]);
            }
        }
        HazardHandle { slot: k }
    }

    /// Loads `source` and publishes the loaded address in the slot of `handle`,
    /// in one step. What the slot published before is no longer protected by it.
    ///
    /// Whoever cannot load and publish in one step uses
    /// [`HazardRegistry::publish`], and relies on the address only after
    /// finding that `source` still holds it.
    pub fn protect<N>(
        &mut self,
        handle: &HazardHandle,
        source: &AtomicWord,
        memory: &mut Arena<N>,
    ) -> (addr: usize)
        requires
            old(self).wf(),
            old(self)@.slots.dom().contains(handle.id()),
            old(self).guards(old(memory)),
            old(memory).wf(),
        ensures
            addr == source@,
            final(self).wf(),
            final(self)@ == old(self)@.with_slot(handle.id(), addr).settled(),
            final(memory).wf(),
            final(memory)@ == old(memory)@.remove_keys(
                old(self)@.with_slot(handle.id(), addr).released(),
            ),
            final(self).guards(final(memory)),
    {
        let addr = source.load(MemoryOrder::Acquire);
        self.set_slot(handle.slot, addr, memory);
        addr
    }

    /// Publishes `addr` in the slot of `handle`. The address need not be that
    /// of a live cell: it may have been loaded some steps ago.
    pub fn publish<N>(&mut self, handle: &HazardHandle, addr: usize, memory: &mut Arena<N>)
        requires
            old(self).wf(),
            old(self)@.slots.dom().contains(handle.id()),
            old(self).guards(old(memory)),
            old(memory).wf(),
        ensures
            final(self).wf(),
            final(self)@ == old(self)@.with_slot(handle.id(), addr).settled(),
            final(memory).wf(),
            final(memory)@ == old(memory)@.remove_keys(
                old(self)@.with_slot(handle.id(), addr).released(),
            ),
            final(self).guards(final(memory)),
    {
        self.set_slot(handle.slot, addr, memory);
    }

    /// Publishes nothing in the slot of `handle` any more; the slot stays reserved.
    pub fn clear<N>(&mut self, handle: &HazardHandle, memory: &mut Arena<N>)
        requires
            old(self).wf(),
            old(self)@.slots.dom().contains(handle.id()),
            old(self).guards(old(memory)),
            old(memory).wf(),
        ensures
            final(self).wf(),
            final(self)@ == old(self)@.with_slot(handle.id(), crate::NULL).settled(),
            final(memory).wf(),
            final(memory)@ == old(memory)@.remove_keys(
                old(self)@.with_slot(handle.id(), crate::NULL).released(),
            ),
            final(self).guards(final(memory)),
    {
        self.set_slot(handle.slot, crate::NULL, memory);
    }

    fn set_slot<N>(&mut self, slot: usize, addr: usize, memory: &mut Arena<N>)
        requires
            old(self).wf(),
            old(self)@.slots.dom().contains(slot as int),
            old(self).guards(old(memory)),
            old(memory).wf(),
        ensures
            final(self).wf(),
            final(self)@ == old(self)@.with_slot(slot as int, addr).settled(),
            final(memory).wf(),
            final(memory)@ == old(memory)@.remove_keys(
                old(self)@.with_slot(slot as int, addr).released(),
            ),
            final(self).guards(final(memory)),
    {
        let before = self.slots[slot].published;
        self.slots[slot].published = addr;
        proof {
            let view = old(self)@;
            assert(self@.slots =~= view.slots.insert(slot as int, addr));
            assert(self@.retired == view.retired);
            assert forall|i: int|
                0 <= i < self.retired.len() && self.retired[i] != before implies self@.protects(
                #[trigger] self.retired[i],
            ) by {
                assert(view.protects(old(self).retired[i]));
                let j = choose|j: int| view.slots.dom().contains(j) && view.slots[j] == self.retired[i];
                assert(j != slot);
                assert(self@.slots.dom().contains(j) && self@.slots[j] == self.retired[i]);
            }
        }
        self.settle(before, memory);
    }

    /// Gives the slot of `handle` back; it publishes nothing any more.
    pub fn free<N>(&mut self, handle: HazardHandle, memory: &mut Arena<N>)
        requires
            old(self).wf(),
            old(self)@.slots.dom().contains(handle.id()),
            old(self).guards(old(memory)),
            old(memory).wf(),
        ensures
            final(self).wf(),
            final(self)@ == old(self)@.without_slot(handle.id()).settled(),
            final(memory).wf(),
            final(memory)@ == old(memory)@.remove_keys(
                old(self)@.without_slot(handle.id()).released(),
            ),
            final(self).guards(final(memory)),
    {
        let slot = handle.slot;
        let before = self.slots[slot].published;
        self.slots[slot] = HazardSlot { reserved: false, published: crate::NULL };
        proof {
            let view = old(self)@;
            assert(self@.slots =~= view.slots.remove(slot as int));
            assert(self@.retired == view.retired);
            assert forall|i: int|
                0 <= i < self.retired.len() && self.retired[i] != before implies self@.protects(
                #[trigger] self.retired[i],
            ) by {
                assert(view.protects(old(self).retired[i]));
                let j = choose|j: int| view.slots.dom().contains(j) && view.slots[j] == self.retired[i];
                assert(j != slot);
                assert(self@.slots.dom().contains(j) && self@.slots[j] == self.retired[i]);
            }
        }
        self.settle(before, memory);
    }

    /// Marks the cell at `addr` as dead. The registry destroys it now if no slot
    /// publishes `addr`, and else as soon as none does.
    pub fn retire<N>(&mut self, addr: usize, memory: &mut Arena<N>)
        requires
            old(self).wf(),
            old(self).guards(old(memory)),
            old(memory).wf(),
            old(memory).is_live(addr),
            !old(self)@.retired.contains(addr),
        ensures
            final(self).wf(),
            final(self)@ == old(self)@.with_retired(addr).settled(),
            final(memory).wf(),
            final(memory)@ == old(memory)@.remove_keys(old(self)@.with_retired(addr).released()),
            final(self).guards(final(memory)),
    {
        proof {
            memory.lemma_null_is_not_live();
        }
        self.retired.push(addr);
        proof {
            let view = old(self)@;
            assert(self.retired@ == old(self).retired@.push(addr));
            old(self).retired@.lemma_push_to_set_commute(addr);
            assert(self@.retired =~= view.retired.insert(addr));
            assert(self@.slots =~= view.slots);
            assert forall|i: int|
                0 <= i < self.retired.len() && self.retired[i] != addr implies self@.protects(
                #[trigger] self.retired[i],
            ) by {
                assert(view.protects(old(self).retired[i]));
            }
        }
        self.settle(addr, memory);
    }
}

} // verus!
