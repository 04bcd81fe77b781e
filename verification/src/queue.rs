//! The Michael-Scott queue: a singly linked list behind a sentinel node, with a
//! head pointer and a tail pointer that may lag by one node.
use crate::arena::Arena;
use crate::atomic::{AtomicWord, MemoryOrder};
use crate::contents::{
    conserved, fifo, lemma_conserved_start, lemma_conserved_step, lemma_fifo_conserves, pops, pushes,
    taking, Effect,
};
use crate::hazard::{HazardHandle, HazardRegistry, RegistryView};
use vstd::prelude::*;

verus! {

/// One payload slot and the address of the node behind.
///
/// The payload of a node is moved out by the pop that has made the node the
/// sentinel; the slot of the sentinel is empty from then on.
pub struct Node<T> {
    data: Option<T>,
    next: AtomicWord,
}

/// A first-in, first-out container. Its view lists the payloads from the front.
///
/// A node is in exactly one place: in the list, with an operation that has
/// made it and not linked it yet or has unlinked it and not retired it yet, or
/// with the registry, retired.
pub struct Queue<T> {
    head: AtomicWord,
    tail: AtomicWord,
    memory: Arena<Node<T>>,
    hazards: HazardRegistry,
    chain: Ghost<Seq<usize>>,
    fresh: Ghost<Set<usize>>,
    unlinked: Ghost<Set<usize>>,
}

impl<T> View for Queue<T> {
    type V = Seq<T>;

    closed spec fn view(&self) -> Seq<T> {
        Seq::new(
            (self.chain@.len() - 1) as nat,
            |i: int| self.memory@[self.chain@[i + 1]].data.unwrap(),
        )
    }
}

impl<T> Queue<T> {
    closed spec fn next_of(&self, a: usize) -> usize {
        self.memory@[a].next@
    }

    closed spec fn last(&self) -> usize {
        self.chain@[self.chain@.len() - 1]
    }

    /// The node at position `i` of the list is live and points to the node at
    /// the next position; behind the sentinel it holds a payload.
    closed spec fn link_ok(&self, i: int) -> bool {
        &&& self.memory.is_live(self.chain@[i])
        &&& i > 0 ==> self.memory@[self.chain@[i]].data.is_some()
        &&& self.next_of(self.chain@[i]) == if i + 1 < self.chain@.len() {
            self.chain@[i + 1]
        } else {
            crate::NULL
        }
    }

    closed spec fn linked(&self) -> bool {
        &&& self.chain@.len() >= 1
        &&& self.chain@.no_duplicates()
        &&& self.head@ == self.chain@[0]
        &&& forall|i: int| 0 <= i < self.chain@.len() ==> #[trigger] self.link_ok(i)
    }

    /// The cell at `a` is live if and only if it is in one of the four places,
    /// and it is in one place at most. A node that has left the list has a
    /// successor.
    closed spec fn place_ok(&self, a: usize) -> bool {
        let linked = self.chain@.contains(a);
        let retired = self.hazards@.retired.contains(a);
        let fresh = self.fresh@.contains(a);
        let unlinked = self.unlinked@.contains(a);
        &&& self.memory.is_live(a) <==> linked || retired || fresh || unlinked
        &&& !(linked && retired)
        &&& !(linked && fresh)
        &&& !(linked && unlinked)
        &&& !(retired && fresh)
        &&& !(retired && unlinked)
        &&& !(fresh && unlinked)
        &&& retired || unlinked ==> self.next_of(a) != crate::NULL
    }

    closed spec fn placed(&self) -> bool {
        forall|a: usize| #[trigger] self.place_ok(a)
    }

    /// The tail points to the last node or to the node before it, and to no
    /// retired node.
    closed spec fn tail_ok(&self) -> bool {
        &&& self.chain@.contains(self.tail@) || self.unlinked@.contains(self.tail@)
        &&& self.tail@ == self.last() || self.next_of(self.tail@) == self.last()
    }

    /// The list is well linked behind its sentinel, every live node is in one
    /// place, and the tail points into the list, to the last node or the one
    /// before it.
    pub closed spec fn wf(&self) -> bool {
        &&& self.memory.wf()
        &&& self.hazards.wf()
        &&& self.hazards.guards(&self.memory)
        &&& self.linked()
        &&& self.placed()
        &&& self.tail_ok()
    }

    /// The slots that operations in progress have reserved.
    pub closed spec fn reserved_slots(&self) -> Set<int> {
        self.hazards@.slots.dom()
    }

    /// The nodes that operations in progress hold: made and not yet linked, or
    /// unlinked and not yet retired.
    pub closed spec fn held_nodes(&self) -> Set<usize> {
        self.fresh@.union(self.unlinked@)
    }

    /// No operation is in progress.
    pub open spec fn quiet(&self) -> bool {
        self.reserved_slots() =~= Set::<int>::empty() && self.held_nodes() =~= Set::<
            usize,
        >::empty()
    }

    /// Create a new, empty queue.
    pub fn new() -> (queue: Queue<T>)
        ensures
            queue.wf(),
            queue@ == Seq::<T>::empty(),
            queue.quiet(),
    {
        let mut memory: Arena<Node<T>> = Arena::new();
        let sentinel = memory.allocate(Node { data: None, next: AtomicWord::new(crate::NULL) });
        let queue = Queue {
            head: AtomicWord::new(sentinel),
            tail: AtomicWord::new(sentinel),
            memory,
            hazards: HazardRegistry::new(),
            chain: Ghost(Seq::empty().push(sentinel)),
            fresh: Ghost(Set::empty()),
            unlinked: Ghost(Set::empty()),
        };
        proof {
            assert(queue@ =~= Seq::<T>::empty());
            assert(queue.link_ok(0));
            assert forall|a: usize| #[trigger] queue.place_ok(a) by {
                if a == sentinel {
                    assert(queue.chain@[0] == a);
                }
            }
            assert(queue.chain@[0] == sentinel);
        }
        queue
    }
}

/// Where an operation on the queue stands: the access that its next step makes.
#[derive(Clone, Copy, Debug, PartialEq, Eq, Structural)]
pub enum QueuePhase {
    /// Push: reserve a protection slot.
    PushReserve,
    /// Push: load the tail.
    PushLoadTail,
    /// Push: publish the loaded address.
    PushPublishTail,
    /// Push: load the tail again and compare: if it still points to the
    /// published address, the node is protected from now on.
    PushValidateTail,
    /// Push: read the successor of the protected node.
    PushReadNext,
    /// Push: the protected node has a successor; swing the tail to it.
    PushHelp,
    /// Push: link the new node behind the protected node.
    PushLink,
    /// Push: swing the tail to the new node.
    PushSwing,
    /// Push: give the protection slot back.
    PushRelease,
    /// Pop: reserve the slot that protects the sentinel.
    PopReserveHead,
    /// Pop: reserve the slot that protects the candidate.
    PopReserveNext,
    /// Pop: load the head.
    PopLoadHead,
    /// Pop: publish the loaded address.
    PopPublishHead,
    /// Pop: load the head again and compare: if it still points to the
    /// published address, the sentinel is protected from now on.
    PopValidateHead,
    /// Pop: read the successor of the protected sentinel.
    PopLoadNext,
    /// Pop: publish the address of the successor, the candidate.
    PopPublishNext,
    /// Conditional pop: load the head once more and compare: if it still
    /// points to the sentinel, the candidate is protected from now on.
    PopValidate,
    /// Conditional pop: read the payload of the candidate for the condition.
    PopTest,
    /// Conditional pop: the condition has rejected the candidate; load the
    /// head again and compare.
    PopConfirm,
    /// Pop: swing the head from the protected sentinel to the candidate.
    PopUnlink,
    /// Pop: load the tail.
    PopLoadTail,
    /// Pop: the tail still points to the unlinked node; swing it forward.
    PopSwingTail,
    /// Pop: retire the unlinked node.
    PopRetire,
    /// Pop: move the payload out of the new sentinel.
    PopTake,
    /// Pop: give the first slot back.
    PopReleaseHead,
    /// Pop: give the second slot back.
    PopReleaseNext,
    Done,
}

impl QueuePhase {
    /// The order of the steps: from this access, `next` can be the access that
    /// follows. A step that has lost a race leads back to the load with which the
    /// attempt began.
    pub open spec fn succeeds(self, next: QueuePhase) -> bool {
        match self {
            QueuePhase::PushReserve => next == QueuePhase::PushLoadTail,
            QueuePhase::PushLoadTail => next == QueuePhase::PushPublishTail,
            QueuePhase::PushPublishTail => next == QueuePhase::PushValidateTail,
            QueuePhase::PushValidateTail => next == QueuePhase::PushReadNext || next == QueuePhase::PushLoadTail,
            QueuePhase::PushReadNext => next == QueuePhase::PushHelp || next == QueuePhase::PushLink,
            QueuePhase::PushHelp => next == QueuePhase::PushLoadTail,
            QueuePhase::PushLink => next == QueuePhase::PushSwing || next == QueuePhase::PushLoadTail,
            QueuePhase::PushSwing => next == QueuePhase::PushRelease,
            QueuePhase::PushRelease => next == QueuePhase::Done,
            QueuePhase::PopReserveHead => next == QueuePhase::PopReserveNext,
            QueuePhase::PopReserveNext => next == QueuePhase::PopLoadHead,
            QueuePhase::PopLoadHead => next == QueuePhase::PopPublishHead,
            QueuePhase::PopPublishHead => next == QueuePhase::PopValidateHead,
            QueuePhase::PopValidateHead => next == QueuePhase::PopLoadNext || next == QueuePhase::PopLoadHead,
            QueuePhase::PopLoadNext => next == QueuePhase::PopPublishNext || next == QueuePhase::PopReleaseHead,
            QueuePhase::PopPublishNext => next == QueuePhase::PopValidate || next == QueuePhase::PopUnlink,
            QueuePhase::PopValidate => next == QueuePhase::PopTest || next == QueuePhase::PopLoadHead,
            QueuePhase::PopTest => next == QueuePhase::PopUnlink || next == QueuePhase::PopConfirm || next == QueuePhase::PopLoadHead,
            QueuePhase::PopConfirm => next == QueuePhase::PopReleaseHead || next == QueuePhase::PopLoadHead,
            QueuePhase::PopUnlink => next == QueuePhase::PopLoadTail || next == QueuePhase::PopLoadHead,
            QueuePhase::PopLoadTail => next == QueuePhase::PopSwingTail || next == QueuePhase::PopRetire,
            QueuePhase::PopSwingTail => next == QueuePhase::PopRetire,
            QueuePhase::PopRetire => next == QueuePhase::PopTake,
            QueuePhase::PopTake => next == QueuePhase::PopReleaseHead,
            QueuePhase::PopReleaseHead => next == QueuePhase::PopReleaseNext,
            QueuePhase::PopReleaseNext => next == QueuePhase::Done,
            QueuePhase::Done => false,
        }
    }
}

/// One push, pop or conditional pop in progress. Each step makes one access
/// to the queue; steps of several operations can be mixed in any order.
pub struct QueueOp<T> {
    push: bool,
    conditional: bool,
    phase: QueuePhase,
    first: Option<HazardHandle>,
    second: Option<HazardHandle>,
    node: usize,
    anchor: usize,
    next: usize,
    result: Option<T>,
    argument: Ghost<Option<T>>,
    expected: Ghost<Option<T>>,
    accepted: Ghost<Option<T>>,
    tested: Ghost<Option<T>>,
    rejected: Ghost<bool>,
}

impl<T> QueueOp<T> {
    /// The operation is a push, not a pop.
    pub closed spec fn is_push(&self) -> bool {
        self.push
    }

    /// The pop takes the front payload only if a condition accepts it.
    pub closed spec fn is_conditional(&self) -> bool {
        self.conditional
    }

    /// The payload that a push is to add.
    pub closed spec fn argument(&self) -> T {
        self.argument@.unwrap()
    }

    /// The payload that the condition of a conditional pop has accepted last.
    pub closed spec fn accepted(&self) -> Option<T> {
        self.accepted@
    }

    /// The payload that the condition of a conditional pop has rejected last.
    pub closed spec fn tested(&self) -> Option<T> {
        self.tested@
    }

    /// The condition of a conditional pop has rejected the front payload.
    pub closed spec fn rejected(&self) -> bool {
        self.rejected@
    }

    /// The operation has not taken effect on the contents yet.
    pub closed spec fn pending(&self) -> bool {
        match self.phase {
            QueuePhase::PushReserve
            | QueuePhase::PushLoadTail
            | QueuePhase::PushPublishTail
            | QueuePhase::PushValidateTail
            | QueuePhase::PushReadNext
            | QueuePhase::PushHelp
            | QueuePhase::PushLink
            | QueuePhase::PopReserveHead
            | QueuePhase::PopReserveNext
            | QueuePhase::PopLoadHead
            | QueuePhase::PopPublishHead
            | QueuePhase::PopValidateHead
            | QueuePhase::PopLoadNext
            | QueuePhase::PopPublishNext
            | QueuePhase::PopValidate
            | QueuePhase::PopTest
            | QueuePhase::PopConfirm
            | QueuePhase::PopUnlink => true,
            _ => false,
        }
    }

    /// The operation has made its last step.
    pub closed spec fn done(&self) -> bool {
        self.phase == QueuePhase::Done
    }

    /// The next step reads the candidate for the condition: it is
    /// [`QueueOp::test`], not [`QueueOp::step`].
    pub closed spec fn testing(&self) -> bool {
        self.phase == QueuePhase::PopTest
    }

    /// What a pop that has taken effect returns.
    pub closed spec fn outcome(&self) -> Option<T> {
        if self.winning() {
            self.expected@
        } else {
            self.result
        }
    }

    /// The pop has unlinked the old sentinel and not yet taken the payload
    /// out of the new one.
    spec fn winning(&self) -> bool {
        match self.phase {
            QueuePhase::PopLoadTail
            | QueuePhase::PopSwingTail
            | QueuePhase::PopRetire
            | QueuePhase::PopTake => true,
            _ => false,
        }
    }

    /// The protection slots that the operation has reserved.
    pub closed spec fn slots(&self) -> Set<int> {
        let first = match self.first {
            Some(handle) => set![handle.id()],
            None => Set::empty(),
        };
        let second = match self.second {
            Some(handle) => set![handle.id()],
            None => Set::empty(),
        };
        first.union(second)
    }

    /// The nodes that the operation holds outside the list.
    pub closed spec fn nodes(&self) -> Set<usize> {
        match self.phase {
            QueuePhase::PushReserve
            | QueuePhase::PushLoadTail
            | QueuePhase::PushPublishTail
            | QueuePhase::PushValidateTail
            | QueuePhase::PushReadNext
            | QueuePhase::PushHelp
            | QueuePhase::PushLink => set![self.node],
            QueuePhase::PopLoadTail | QueuePhase::PopSwingTail | QueuePhase::PopRetire => set![
                self.anchor,
            ],
            _ => Set::empty(),
        }
    }

    /// The node whose payload the pop is to take.
    pub closed spec fn wins(&self) -> Set<usize> {
        if self.winning() {
            set![self.next]
        } else {
            Set::empty()
        }
    }

    /// The two operations share no slot and no node.
    pub open spec fn apart(&self, other: &Self) -> bool {
        &&& self.slots().disjoint(other.slots())
        &&& self.nodes().disjoint(other.nodes())
        &&& self.wins().disjoint(other.wins())
    }

    spec fn holds(handle: Option<HazardHandle>, queue: &Queue<T>) -> bool {
        handle.is_some() && queue.hazards@.slots.dom().contains(handle.unwrap().id())
    }

    spec fn publishes(handle: Option<HazardHandle>, queue: &Queue<T>, addr: usize) -> bool {
        Self::holds(handle, queue) && queue.hazards@.slots[handle.unwrap().id()] == addr
    }

    spec fn two_slots(&self, queue: &Queue<T>) -> bool {
        &&& Self::holds(self.first, queue)
        &&& Self::holds(self.second, queue)
        &&& self.first.unwrap().id() != self.second.unwrap().id()
    }

    /// The first slot publishes the anchor, a live node that was linked once.
    spec fn anchored(&self, queue: &Queue<T>) -> bool {
        &&& Self::publishes(self.first, queue, self.anchor)
        &&& self.anchor != crate::NULL
        &&& queue.memory.is_live(self.anchor)
        &&& !queue.fresh@.contains(self.anchor)
    }

    /// The second slot publishes the candidate, a live node that was linked once.
    spec fn covered(&self, queue: &Queue<T>) -> bool {
        &&& Self::publishes(self.second, queue, self.next)
        &&& queue.memory.is_live(self.next)
        &&& !queue.fresh@.contains(self.next)
    }

    spec fn fresh_node(&self, queue: &Queue<T>) -> bool {
        &&& queue.fresh@.contains(self.node)
        &&& self.argument@.is_some()
        &&& queue.memory@[self.node].data == self.argument@
        &&& queue.next_of(self.node) == crate::NULL
    }

    /// While the anchor is in the list, it is the sentinel.
    spec fn at_head(&self, queue: &Queue<T>) -> bool {
        queue.chain@.contains(self.anchor) ==> queue.chain@[0] == self.anchor
    }

    /// While the anchor has no successor, the tail points to it.
    spec fn at_tail(&self, queue: &Queue<T>) -> bool {
        queue.next_of(self.anchor) == crate::NULL ==> queue.tail@ == self.anchor
    }

    spec fn next_read(&self, queue: &Queue<T>) -> bool {
        self.next == queue.next_of(self.anchor) && self.next != crate::NULL
    }

    /// The second slot protects the new sentinel, whose payload is the one
    /// that the pop returns.
    spec fn won(&self, queue: &Queue<T>) -> bool {
        &&& self.covered(queue)
        &&& self.expected@.is_some()
        &&& queue.memory@[self.next].data == self.expected@
        &&& queue.chain@.contains(self.next) ==> queue.chain@[0] == self.next
    }

    /// What the operation relies on between its steps.
    pub closed spec fn inv(&self, queue: &Queue<T>) -> bool {
        &&& self.pending() ==> !self.rejected@
        &&& self.at_phase(queue)
    }

    spec fn at_phase(&self, queue: &Queue<T>) -> bool {
        match self.phase {
            QueuePhase::PushReserve => {
                &&& self.push
                &&& self.fresh_node(queue)
                &&& self.first.is_none()
                &&& self.second.is_none()
            },
            QueuePhase::PushLoadTail => {
                &&& self.push
                &&& self.fresh_node(queue)
                &&& Self::holds(self.first, queue)
                &&& self.second.is_none()
            },
            QueuePhase::PushPublishTail => {
                &&& self.push
                &&& self.fresh_node(queue)
                &&& Self::holds(self.first, queue)
                &&& self.anchor != crate::NULL
                &&& self.second.is_none()
            },
            QueuePhase::PushValidateTail => {
                &&& self.push
                &&& self.fresh_node(queue)
                &&& Self::publishes(self.first, queue, self.anchor)
                &&& self.anchor != crate::NULL
                &&& self.second.is_none()
            },
            QueuePhase::PushReadNext | QueuePhase::PushLink => {
                &&& self.push
                &&& self.fresh_node(queue)
                &&& self.anchored(queue)
                &&& self.at_tail(queue)
                &&& self.second.is_none()
            },
            QueuePhase::PushHelp => {
                &&& self.push
                &&& self.fresh_node(queue)
                &&& self.anchored(queue)
                &&& self.next_read(queue)
                &&& self.second.is_none()
            },
            QueuePhase::PushSwing => {
                &&& self.push
                &&& self.anchored(queue)
                &&& queue.next_of(self.anchor) == self.node
                &&& self.node != crate::NULL
                &&& self.second.is_none()
            },
            QueuePhase::PushRelease => {
                &&& self.push
                &&& Self::holds(self.first, queue)
                &&& self.second.is_none()
            },
            QueuePhase::PopReserveHead => {
                &&& !self.push
                &&& self.first.is_none()
                &&& self.second.is_none()
            },
            QueuePhase::PopReserveNext => {
                &&& !self.push
                &&& Self::holds(self.first, queue)
                &&& self.second.is_none()
            },
            QueuePhase::PopLoadHead | QueuePhase::PopReleaseHead => {
                &&& !self.push
                &&& self.two_slots(queue)
            },
            QueuePhase::PopPublishHead => {
                &&& !self.push
                &&& self.two_slots(queue)
                &&& self.anchor != crate::NULL
            },
            QueuePhase::PopValidateHead => {
                &&& !self.push
                &&& self.two_slots(queue)
                &&& Self::publishes(self.first, queue, self.anchor)
                &&& self.anchor != crate::NULL
            },
            QueuePhase::PopLoadNext => {
                &&& !self.push
                &&& self.two_slots(queue)
                &&& self.anchored(queue)
                &&& self.at_head(queue)
            },
            QueuePhase::PopPublishNext => {
                &&& !self.push
                &&& self.two_slots(queue)
                &&& self.anchored(queue)
                &&& self.at_head(queue)
                &&& self.next_read(queue)
            },
            QueuePhase::PopValidate => {
                &&& !self.push
                &&& self.conditional
                &&& self.two_slots(queue)
                &&& self.anchored(queue)
                &&& self.at_head(queue)
                &&& self.next_read(queue)
                &&& Self::publishes(self.second, queue, self.next)
            },
            QueuePhase::PopTest => {
                &&& !self.push
                &&& self.conditional
                &&& self.two_slots(queue)
                &&& self.anchored(queue)
                &&& self.at_head(queue)
                &&& self.next_read(queue)
                &&& self.covered(queue)
            },
            QueuePhase::PopConfirm => {
                &&& !self.push
                &&& self.conditional
                &&& self.two_slots(queue)
                &&& self.anchored(queue)
                &&& self.at_head(queue)
                &&& self.next_read(queue)
                &&& self.covered(queue)
                &&& self.tested@.is_some()
                &&& queue.memory@[self.next].data.is_some() ==> queue.memory@[self.next].data
                    == self.tested@
            },
            QueuePhase::PopUnlink => {
                &&& !self.push
                &&& self.two_slots(queue)
                &&& self.anchored(queue)
                &&& self.at_head(queue)
                &&& self.next_read(queue)
                &&& Self::publishes(self.second, queue, self.next)
                &&& self.conditional ==> {
                    &&& self.covered(queue)
                    &&& self.accepted@.is_some()
                    &&& queue.memory@[self.next].data.is_some() ==> queue.memory@[self.next].data
                        == self.accepted@
                }
            },
            QueuePhase::PopLoadTail | QueuePhase::PopSwingTail => {
                &&& !self.push
                &&& self.two_slots(queue)
                &&& self.anchored(queue)
                &&& self.next_read(queue)
                &&& queue.unlinked@.contains(self.anchor)
                &&& self.won(queue)
            },
            QueuePhase::PopRetire => {
                &&& !self.push
                &&& self.two_slots(queue)
                &&& self.anchored(queue)
                &&& self.next_read(queue)
                &&& queue.unlinked@.contains(self.anchor)
                &&& queue.tail@ != self.anchor
                &&& self.won(queue)
            },
            QueuePhase::PopTake => {
                &&& !self.push
                &&& self.two_slots(queue)
                &&& self.won(queue)
            },
            QueuePhase::PopReleaseNext => {
                &&& !self.push
                &&& self.first.is_none()
                &&& Self::holds(self.second, queue)
            },
            QueuePhase::Done => self.first.is_none() && self.second.is_none(),
        }
    }

    /// What the step from `before` to `after` does to the contents: the effect
    /// of the operation, in the step in which it takes effect. A conditional
    /// pop whose condition rejects the front has no effect.
    pub open spec fn effect(before: Self, after: Self) -> Effect<T> {
        if before.pending() && !after.pending() {
            if before.is_push() {
                Effect::Pushed(before.argument())
            } else if before.is_conditional() && after.rejected() && after.outcome().is_none() {
                Effect::Nothing
            } else {
                taking(after.outcome())
            }
        } else {
            Effect::Nothing
        }
    }

    /// What one step of `before` on `queue0` has made of both.
    ///
    /// The contents change once, when the operation takes effect, and as the
    /// operation run alone would change them. Every other operation in progress,
    /// `o`, keeps what it relies on.
    pub open spec fn advances(before: Self, queue0: Queue<T>, after: Self, queue1: Queue<T>) -> bool {
        &&& queue1.wf()
        &&& after.inv(&queue1)
        &&& before.stage().succeeds(after.stage())
        &&& after.is_push() == before.is_push()
        &&& after.is_conditional() == before.is_conditional()
        &&& after.argument() == before.argument()
        &&& after.fuel(&queue1) < before.fuel(&queue0)
        &&& fifo(Self::effect(before, after), queue0@, queue1@)
        &&& after.pending() ==> before.pending()
        &&& !before.pending() ==> after.outcome() == before.outcome() && after.rejected()
            == before.rejected()
        &&& before.pending() && !after.pending() && !before.is_push() && before.is_conditional()
            && after.outcome().is_some() ==> before.accepted() == after.outcome()
        &&& before.pending() && !after.pending() && !before.is_push() && before.is_conditional()
            && after.outcome().is_none() && after.rejected() ==> queue0@.len() > 0
            && before.tested() == Some(queue0@[0])
        &&& queue1.reserved_slots() =~= queue0.reserved_slots().difference(before.slots()).union(
            after.slots(),
        )
        &&& queue1.held_nodes() =~= queue0.held_nodes().difference(before.nodes()).union(
            after.nodes(),
        )
        &&& forall|o: Self| #[trigger]
            o.inv(&queue0) && o.apart(&before) ==> o.inv(&queue1) && o.apart(&after)
    }

    /// The head still points to the anchor.
    spec fn current(&self, queue: &Queue<T>) -> bool {
        queue.head@ == self.anchor
    }

    /// A bound on the steps that the operation still takes if no other operation
    /// takes a step in between.
    pub closed spec fn fuel(&self, queue: &Queue<T>) -> nat {
        let unlinked = queue.next_of(self.anchor) != crate::NULL;
        let at_tail = queue.tail@ == self.anchor;
        match self.phase {
            QueuePhase::Done => 0,
            QueuePhase::PushRelease => 1,
            QueuePhase::PushSwing => 2,
            QueuePhase::PushLink => if !unlinked {
                3
            } else {
                13
            },
            QueuePhase::PushHelp => if at_tail {
                8
            } else {
                13
            },
            QueuePhase::PushReadNext => if !unlinked {
                4
            } else if at_tail {
                9
            } else {
                14
            },
            QueuePhase::PushValidateTail => if !at_tail {
                13
            } else if !unlinked {
                5
            } else {
                10
            },
            QueuePhase::PushPublishTail => if !at_tail {
                14
            } else if !unlinked {
                6
            } else {
                11
            },
            QueuePhase::PushLoadTail => if queue.next_of(queue.tail@) == crate::NULL {
                7
            } else {
                12
            },
            QueuePhase::PushReserve => 13,
            QueuePhase::PopReleaseNext => 1,
            QueuePhase::PopReleaseHead => 2,
            QueuePhase::PopTake => 3,
            QueuePhase::PopRetire => 4,
            QueuePhase::PopSwingTail => 5,
            QueuePhase::PopLoadTail => 6,
            QueuePhase::PopUnlink => if self.current(queue) {
                7
            } else {
                15
            },
            QueuePhase::PopConfirm => if self.current(queue) {
                3
            } else {
                15
            },
            QueuePhase::PopTest => if self.current(queue) {
                8
            } else {
                16
            },
            QueuePhase::PopValidate => if self.current(queue) {
                9
            } else {
                15
            },
            QueuePhase::PopPublishNext => if self.current(queue) {
                10
            } else {
                17
            },
            QueuePhase::PopLoadNext => if self.current(queue) {
                11
            } else {
                18
            },
            QueuePhase::PopValidateHead => if self.current(queue) {
                12
            } else {
                15
            },
            QueuePhase::PopPublishHead => if self.current(queue) {
                13
            } else {
                16
            },
            QueuePhase::PopLoadHead => 14,
            QueuePhase::PopReserveNext => 15,
            QueuePhase::PopReserveHead => 16,
        }
    }

    /// What a step of another operation leaves as it is for `o`.
    spec fn keeps(queue0: Queue<T>, queue1: Queue<T>, o: Self) -> bool {
        &&& Self::holds(o.first, &queue0) ==> Self::holds(o.first, &queue1)
            && queue1.hazards@.slots[o.first.unwrap().id()]
            == queue0.hazards@.slots[o.first.unwrap().id()]
        &&& Self::holds(o.second, &queue0) ==> Self::holds(o.second, &queue1)
            && queue1.hazards@.slots[o.second.unwrap().id()]
            == queue0.hazards@.slots[o.second.unwrap().id()]
        &&& o.fresh_node(&queue0) && o.nodes().contains(o.node) ==> queue1.fresh@.contains(o.node)
            && queue1.memory@[o.node] == queue0.memory@[o.node]
        &&& queue0.unlinked@.contains(o.anchor) && o.nodes().contains(o.anchor)
            ==> queue1.unlinked@.contains(o.anchor)
        &&& o.anchored(&queue0) ==> {
            &&& queue1.memory.is_live(o.anchor)
            &&& !queue1.fresh@.contains(o.anchor)
            &&& queue1.next_of(o.anchor) == queue0.next_of(o.anchor) || queue0.next_of(o.anchor)
                == crate::NULL
        }
        &&& o.covered(&queue0) ==> {
            &&& queue1.memory.is_live(o.next)
            &&& !queue1.fresh@.contains(o.next)
            &&& queue1.memory@[o.next].data.is_some() ==> queue1.memory@[o.next].data
                == queue0.memory@[o.next].data
            &&& o.winning() ==> queue1.memory@[o.next].data == queue0.memory@[o.next].data
        }
    }

    /// How one step can move the list and the tail.
    spec fn drifts(queue0: Queue<T>, queue1: Queue<T>) -> bool {
        &&& {
            ||| queue1.chain@ == queue0.chain@
            ||| queue1.chain@ == queue0.chain@.skip(1) && queue0.chain@.len() > 1
            ||| exists|a: usize|
                queue1.chain@ == queue0.chain@.push(a) && queue0.fresh@.contains(a)
        }
        &&& queue1.tail@ == queue0.tail@ || (queue0.next_of(queue0.tail@) != crate::NULL
            && !queue0.unlinked@.contains(queue1.tail@))
    }

    proof fn lemma_kept(queue0: Queue<T>, queue1: Queue<T>, o: Self)
        requires
            queue0.wf(),
            o.inv(&queue0),
            Self::keeps(queue0, queue1, o),
            Self::drifts(queue0, queue1),
        ensures
            o.inv(&queue1),
    {
        let chain0 = queue0.chain@;
        let chain1 = queue1.chain@;
        if o.winning() && chain1.contains(o.next) {
            let i = choose|i: int| 0 <= i < chain1.len() && chain1[i] == o.next;
            if chain1 == chain0 {
            } else if chain1 == chain0.skip(1) {
                assert(chain0[i + 1] == o.next);
                assert(chain0.contains(o.next));
                assert(chain0[0] == o.next);
                assert(false) by {
                    assert(queue0.chain@.no_duplicates());
                }
            } else {
                let a = choose|a: usize|
                    chain1 == chain0.push(a) && queue0.fresh@.contains(a);
                if i < chain0.len() {
                    assert(chain0[i] == o.next);
                    assert(chain1[0] == chain0[0]);
                }
            }
        }
        if o.anchored(&queue0) && o.at_head(&queue0) {
            if chain1.contains(o.anchor) {
                let i = choose|i: int| 0 <= i < chain1.len() && chain1[i] == o.anchor;
                if chain1 == chain0 {
                } else if chain1 == chain0.skip(1) {
                    assert(chain0[i + 1] == o.anchor);
                    assert(chain0.contains(o.anchor));
                } else {
                    let a = choose|a: usize|
                        chain1 == chain0.push(a) && queue0.fresh@.contains(a);
                    if i < chain0.len() {
                        assert(chain0[i] == o.anchor);
                        assert(chain1[0] == chain0[0]);
                    }
                }
            }
        }
    }

    /// The queue after a step that has changed neither the list nor a cell
    /// that was live, nor the tail.
    proof fn lemma_same_list(queue0: Queue<T>, queue1: Queue<T>)
        requires
            queue0.wf(),
            queue1.memory.wf(),
            queue1.hazards.wf(),
            queue1.hazards.guards(&queue1.memory),
            queue1.head == queue0.head,
            queue1.tail == queue0.tail,
            queue1.chain == queue0.chain,
            queue0.unlinked@.contains(queue0.tail@) ==> queue1.unlinked@.contains(queue0.tail@),
            forall|a: usize|
                queue0.chain@.contains(a) || queue0.unlinked@.contains(a)
                    ==> #[trigger] queue1.memory.is_live(a) && queue1.memory@[a]
                    == queue0.memory@[a],
            forall|a: usize| #[trigger] queue1.place_ok(a),
        ensures
            queue1.wf(),
            queue1@ == queue0@,
            Self::drifts(queue0, queue1),
    {
        assert forall|i: int| 0 <= i < queue1.chain@.len() implies #[trigger] queue1.link_ok(
            i,
        ) by {
            assert(queue0.link_ok(i));
            assert(queue0.chain@.contains(queue0.chain@[i]));
            assert(queue1.memory.is_live(queue0.chain@[i]));
        }
        assert(queue1@ =~= queue0@) by {
            assert forall|i: int| 0 <= i < queue0.chain@.len() - 1 implies queue1@[i]
                == queue0@[i] by {
                assert(queue0.chain@.contains(queue0.chain@[i + 1]));
                assert(queue1.memory.is_live(queue0.chain@[i + 1]));
            }
        }
        let last = queue0.last();
        assert(queue0.chain@.contains(last));
        assert(queue1.memory.is_live(last));
        assert(queue1.memory.is_live(queue0.tail@));
        assert(queue1.place_ok(queue1.tail@));
        assert(queue0.place_ok(queue0.tail@));
    }

    /// Starts a push of `value`: makes the node.
    pub fn push(queue: &mut Queue<T>, value: T) -> (op: QueueOp<T>)
        requires
            old(queue).wf(),
        ensures
            final(queue).wf(),
            op.inv(final(queue)),
            op.is_push(),
            op.pending(),
            op.argument() == value,
            final(queue)@ == old(queue)@,
            final(queue).reserved_slots() =~= old(queue).reserved_slots().union(op.slots()),
            final(queue).held_nodes() =~= old(queue).held_nodes().union(op.nodes()),
            forall|o: Self| #[trigger] o.inv(old(queue)) ==> o.inv(final(queue)) && o.apart(&op),
    {
        let node = queue.memory.allocate(
            Node { data: Some(value), next: AtomicWord::new(crate::NULL) },
        );
        proof {
            queue.fresh@ = queue.fresh@.insert(node);
        }
        let op = QueueOp {
            push: true,
            conditional: false,
            phase: QueuePhase::PushReserve,
            first: None,
            second: None,
            node,
            anchor: crate::NULL,
            next: crate::NULL,
            result: None,
            argument: Ghost(Some(value)),
            expected: Ghost(None),
            accepted: Ghost(None),
            tested: Ghost(None),
            rejected: Ghost(false),
        };
        proof {
            let queue0 = *old(queue);
            let queue1 = *queue;
            assert(queue0.place_ok(node));
            assert forall|a: usize| #[trigger]
                queue1.hazards@.retired.contains(a) implies queue1.memory.is_live(a) by {
                assert(queue0.memory.is_live(a));
            }
            assert forall|a: usize| #[trigger] queue1.place_ok(a) by {
                assert(queue0.place_ok(a));
            }
            assert forall|a: usize|
                queue0.chain@.contains(a) || queue0.unlinked@.contains(a)
                    implies #[trigger] queue1.memory.is_live(a) && queue1.memory@[a]
                    == queue0.memory@[a] by {
                assert(queue0.place_ok(a));
            }
            Self::lemma_same_list(queue0, queue1);
            assert forall|o: Self| #[trigger] o.inv(&queue0) implies o.inv(&queue1) && o.apart(
                &op,
            ) by {
                assert(queue0.place_ok(o.node));
                assert(queue0.place_ok(o.anchor));
                assert(queue0.place_ok(o.next));
                Self::lemma_kept(queue0, queue1, o);
            }
        }
        op
    }

    /// The queue after the registry has reserved slot `k`.
    proof fn lemma_reserved(queue0: Queue<T>, queue1: Queue<T>, k: int)
        requires
            queue0.wf(),
            queue1.hazards.wf(),
            !queue0.hazards@.slots.dom().contains(k),
            queue1.hazards@ == queue0.hazards@.with_slot(k, crate::NULL),
            queue1.memory == queue0.memory,
            queue1.head == queue0.head,
            queue1.tail == queue0.tail,
            queue1.chain == queue0.chain,
            queue1.fresh == queue0.fresh,
            queue1.unlinked == queue0.unlinked,
        ensures
            queue1.wf(),
            queue1@ == queue0@,
            Self::drifts(queue0, queue1),
            queue1.reserved_slots() =~= queue0.reserved_slots().insert(k),
            queue1.held_nodes() == queue0.held_nodes(),
            forall|o: Self| #[trigger] o.inv(&queue0) ==> o.inv(&queue1) && !o.slots().contains(k),
    {
        assert forall|a: usize| #[trigger] queue1.place_ok(a) by {
            assert(queue0.place_ok(a));
        }
        assert forall|a: usize|
            queue0.chain@.contains(a) || queue0.unlinked@.contains(a)
                implies #[trigger] queue1.memory.is_live(a) && queue1.memory@[a]
                == queue0.memory@[a] by {
            assert(queue0.place_ok(a));
        }
        Self::lemma_same_list(queue0, queue1);
        assert forall|o: Self| #[trigger] o.inv(&queue0) implies o.inv(&queue1)
            && !o.slots().contains(k) by {
            Self::lemma_kept(queue0, queue1, o);
        }
    }

    /// The queue after the registry has republished: `v` is what the registry
    /// held before it destroyed the cells that nothing publishes any more, and
    /// `k` the slot that has changed.
    proof fn lemma_settled(queue0: Queue<T>, queue1: Queue<T>, v: RegistryView, k: int)
        requires
            queue0.wf(),
            v.retired == queue0.hazards@.retired,
            forall|j: int|
                j != k && #[trigger] queue0.hazards@.slots.dom().contains(j)
                    ==> v.slots.dom().contains(j) && v.slots[j] == queue0.hazards@.slots[j],
            queue1.hazards.wf(),
            queue1.memory.wf(),
            queue1.hazards.guards(&queue1.memory),
            queue1.hazards@ == v.settled(),
            queue1.memory@ == queue0.memory@.remove_keys(v.released()),
            queue1.head == queue0.head,
            queue1.tail == queue0.tail,
            queue1.chain == queue0.chain,
            queue1.fresh == queue0.fresh,
            queue1.unlinked == queue0.unlinked,
        ensures
            queue1.wf(),
            queue1@ == queue0@,
            Self::drifts(queue0, queue1),
            queue1.held_nodes() == queue0.held_nodes(),
            forall|a: usize|
                queue0.memory.is_live(a) && !(queue0.hazards@.retired.contains(a) && !v.protects(a))
                    ==> #[trigger] queue1.memory.is_live(a) && queue1.memory@[a]
                    == queue0.memory@[a],
            forall|o: Self| #[trigger]
                o.inv(&queue0) && !o.slots().contains(k) ==> o.inv(&queue1),
    {
        assert forall|a: usize| #[trigger] queue1.place_ok(a) by {
            assert(queue0.place_ok(a));
        }
        assert forall|a: usize|
            queue0.chain@.contains(a) || queue0.unlinked@.contains(a)
                implies #[trigger] queue1.memory.is_live(a) && queue1.memory@[a]
                == queue0.memory@[a] by {
            assert(queue0.place_ok(a));
        }
        Self::lemma_same_list(queue0, queue1);
        assert forall|o: Self| #[trigger] o.inv(&queue0) && !o.slots().contains(k) implies o.inv(
            &queue1,
        ) by {
            assert(queue0.place_ok(o.node));
            assert(queue0.place_ok(o.anchor));
            assert(queue0.place_ok(o.next));
            if o.first.is_some() {
                assert(o.slots().contains(o.first.unwrap().id()));
            }
            if o.second.is_some() {
                assert(o.slots().contains(o.second.unwrap().id()));
            }
            if o.anchored(&queue0) {
                let j = o.first.unwrap().id();
                assert(v.slots.dom().contains(j) && v.slots[j] == o.anchor);
            }
            if o.covered(&queue0) {
                let j = o.second.unwrap().id();
                assert(v.slots.dom().contains(j) && v.slots[j] == o.next);
            }
            Self::lemma_kept(queue0, queue1, o);
        }
    }

    /// The queue after a step that has written no cell anew.
    proof fn lemma_unchanged(queue0: Queue<T>, queue1: Queue<T>)
        requires
            queue0.wf(),
            queue1.memory.wf(),
            queue1.memory@ == queue0.memory@,
            queue1.hazards == queue0.hazards,
            queue1.head == queue0.head,
            queue1.tail == queue0.tail,
            queue1.chain == queue0.chain,
            queue1.fresh == queue0.fresh,
            queue1.unlinked == queue0.unlinked,
        ensures
            queue1.wf(),
            queue1@ == queue0@,
            Self::drifts(queue0, queue1),
            forall|o: Self| #[trigger] o.inv(&queue0) ==> o.inv(&queue1),
    {
        assert forall|a: usize| #[trigger]
            queue1.hazards@.retired.contains(a) implies queue1.memory.is_live(a) by {
            assert(queue0.memory.is_live(a));
        }
        assert forall|a: usize| #[trigger] queue1.place_ok(a) by {
            assert(queue0.place_ok(a));
        }
        assert forall|a: usize|
            queue0.chain@.contains(a) || queue0.unlinked@.contains(a)
                implies #[trigger] queue1.memory.is_live(a) && queue1.memory@[a]
                == queue0.memory@[a] by {
            assert(queue0.place_ok(a));
        }
        Self::lemma_same_list(queue0, queue1);
        assert forall|o: Self| #[trigger] o.inv(&queue0) implies o.inv(&queue1) by {
            Self::lemma_kept(queue0, queue1, o);
        }
    }

    /// The queue after a step has swung the tail to the successor of the node
    /// that it pointed to.
    proof fn lemma_tail_moved(queue0: Queue<T>, queue1: Queue<T>)
        requires
            queue0.wf(),
            queue1.tail@ == queue0.next_of(queue0.tail@),
            queue1.tail@ != crate::NULL,
            queue1.memory == queue0.memory,
            queue1.hazards == queue0.hazards,
            queue1.head == queue0.head,
            queue1.chain == queue0.chain,
            queue1.fresh == queue0.fresh,
            queue1.unlinked == queue0.unlinked,
        ensures
            queue1.wf(),
            queue1@ == queue0@,
            queue1.tail@ == queue1.last(),
            queue1.next_of(queue1.tail@) == crate::NULL,
            Self::drifts(queue0, queue1),
            forall|o: Self| #[trigger] o.inv(&queue0) ==> o.inv(&queue1),
    {
        let last = queue0.last();
        assert(queue0.link_ok(queue0.chain@.len() - 1));
        assert(queue0.chain@.contains(last));
        assert(queue0.place_ok(last));
        assert forall|i: int| 0 <= i < queue1.chain@.len() implies #[trigger] queue1.link_ok(
            i,
        ) by {
            assert(queue0.link_ok(i));
        }
        assert forall|a: usize| #[trigger] queue1.place_ok(a) by {
            assert(queue0.place_ok(a));
        }
        assert(queue1@ =~= queue0@);
        assert forall|o: Self| #[trigger] o.inv(&queue0) implies o.inv(&queue1) by {
            Self::lemma_kept(queue0, queue1, o);
        }
    }

    fn push_reserve(&mut self, queue: &mut Queue<T>)
        requires
            old(self).phase == QueuePhase::PushReserve,
            old(queue).wf(),
            old(self).inv(old(queue)),
        ensures
            Self::advances(*old(self), *old(queue), *final(self), *final(queue)),
            final(self).accepted == old(self).accepted,
            final(self).tested == old(self).tested,
    {
        let handle = queue.hazards.allocate();
        let ghost k = handle.id();
        self.first = Some(handle);
        self.phase = QueuePhase::PushLoadTail;
        proof {
            Self::lemma_reserved(*old(queue), *queue, k);
            assert(self.slots() =~= set![k]);
            assert(old(self).slots() =~= Set::<int>::empty());
        }
    }

    fn push_load_tail(&mut self, queue: &mut Queue<T>)
        requires
            old(self).phase == QueuePhase::PushLoadTail,
            old(queue).wf(),
            old(self).inv(old(queue)),
        ensures
            Self::advances(*old(self), *old(queue), *final(self), *final(queue)),
            final(self).accepted == old(self).accepted,
            final(self).tested == old(self).tested,
    {
        let tail = queue.tail.load(MemoryOrder::Acquire);
        self.anchor = tail;
        self.phase = QueuePhase::PushPublishTail;
        proof {
            queue.memory.lemma_null_is_not_live();
            assert(queue.place_ok(tail));
        }
    }

    fn push_publish_tail(&mut self, queue: &mut Queue<T>)
        requires
            old(self).phase == QueuePhase::PushPublishTail,
            old(queue).wf(),
            old(self).inv(old(queue)),
        ensures
            Self::advances(*old(self), *old(queue), *final(self), *final(queue)),
            final(self).accepted == old(self).accepted,
            final(self).tested == old(self).tested,
    {
        if let Some(handle) = &self.first {
            queue.hazards.publish(handle, self.anchor, &mut queue.memory);
        }
        self.phase = QueuePhase::PushValidateTail;
        proof {
            let queue0 = *old(queue);
            let k = self.first.unwrap().id();
            let v = queue0.hazards@.with_slot(k, self.anchor);
            assert(queue0.place_ok(self.node));
            assert(queue0.place_ok(queue0.tail@));
            Self::lemma_settled(queue0, *queue, v, k);
            assert(queue.hazards@.slots.dom().contains(k) && queue.hazards@.slots[k]
                == self.anchor);
            assert(queue.reserved_slots() =~= queue0.reserved_slots());
            assert(old(self).slots().contains(k));
        }
    }

    fn push_validate_tail(&mut self, queue: &mut Queue<T>)
        requires
            old(self).phase == QueuePhase::PushValidateTail,
            old(queue).wf(),
            old(self).inv(old(queue)),
        ensures
            Self::advances(*old(self), *old(queue), *final(self), *final(queue)),
            final(self).accepted == old(self).accepted,
            final(self).tested == old(self).tested,
    {
        let tail = queue.tail.load(MemoryOrder::Acquire);
        if tail == self.anchor {
            self.phase = QueuePhase::PushReadNext;
            proof {
                assert(queue.place_ok(tail));
            }
        } else {
            self.phase = QueuePhase::PushLoadTail;
        }
    }

    fn push_read_next(&mut self, queue: &mut Queue<T>)
        requires
            old(self).phase == QueuePhase::PushReadNext,
            old(queue).wf(),
            old(self).inv(old(queue)),
        ensures
            Self::advances(*old(self), *old(queue), *final(self), *final(queue)),
            final(self).accepted == old(self).accepted,
            final(self).tested == old(self).tested,
    {
        let next = queue.memory.get(self.anchor).next.load(MemoryOrder::Acquire);
        if next != crate::NULL {
            self.next = next;
            self.phase = QueuePhase::PushHelp;
        } else {
            self.phase = QueuePhase::PushLink;
        }
    }

    fn push_help(&mut self, queue: &mut Queue<T>)
        requires
            old(self).phase == QueuePhase::PushHelp,
            old(queue).wf(),
            old(self).inv(old(queue)),
        ensures
            Self::advances(*old(self), *old(queue), *final(self), *final(queue)),
            final(self).accepted == old(self).accepted,
            final(self).tested == old(self).tested,
    {
        let swung = queue.tail.compare_exchange(
            self.anchor,
            self.next,
            MemoryOrder::Release,
            MemoryOrder::Relaxed,
        );
        self.phase = QueuePhase::PushLoadTail;
        proof {
            if swung.is_ok() {
                Self::lemma_tail_moved(*old(queue), *queue);
            }
        }
    }

    fn push_link(&mut self, queue: &mut Queue<T>)
        requires
            old(self).phase == QueuePhase::PushLink,
            old(queue).wf(),
            old(self).inv(old(queue)),
        ensures
            Self::advances(*old(self), *old(queue), *final(self), *final(queue)),
            final(self).accepted == old(self).accepted,
            final(self).tested == old(self).tested,
    {
        let cell = queue.memory.get_mut(self.anchor);
        let linked = cell.next.compare_exchange(
            crate::NULL,
            self.node,
            MemoryOrder::Release,
            MemoryOrder::Relaxed,
        );
        if linked.is_ok() {
            self.phase = QueuePhase::PushSwing;
            proof {
                queue.chain@ = queue.chain@.push(self.node);
                queue.fresh@ = queue.fresh@.remove(self.node);
                Self::lemma_linked(*old(self), *old(queue), *self, *queue);
            }
        } else {
            self.phase = QueuePhase::PushLoadTail;
            proof {
                assert(queue.memory@ =~= old(queue).memory@);
                Self::lemma_unchanged(*old(queue), *queue);
            }
        }
    }

    proof fn lemma_linked(before: Self, queue0: Queue<T>, after: Self, queue1: Queue<T>)
        requires
            queue0.wf(),
            before.inv(&queue0),
            before.phase == QueuePhase::PushLink,
            after.phase == QueuePhase::PushSwing,
            after.push == before.push,
            after.conditional == before.conditional,
            after.first == before.first,
            after.second == before.second,
            after.node == before.node,
            after.anchor == before.anchor,
            after.argument == before.argument,
            after.result == before.result,
            queue0.next_of(before.anchor) == crate::NULL,
            queue1.memory.wf(),
            queue1.memory@.dom() =~= queue0.memory@.dom(),
            queue1.memory@[before.anchor].data == queue0.memory@[before.anchor].data,
            queue1.next_of(before.anchor) == before.node,
            forall|a: usize|
                a != before.anchor ==> #[trigger] queue1.memory@[a] == queue0.memory@[a],
            queue1.hazards == queue0.hazards,
            queue1.head == queue0.head,
            queue1.tail == queue0.tail,
            queue1.chain@ == queue0.chain@.push(before.node),
            queue1.fresh@ == queue0.fresh@.remove(before.node),
            queue1.unlinked == queue0.unlinked,
        ensures
            Self::advances(before, queue0, after, queue1),
    {
        let node = before.node;
        let anchor = before.anchor;
        let chain0 = queue0.chain@;
        let chain1 = queue1.chain@;
        let n = chain0.len() as int;
        queue0.memory.lemma_null_is_not_live();
        assert(queue0.place_ok(node));
        assert(queue0.place_ok(anchor));
        assert(chain0.contains(anchor));
        let i = choose|i: int| 0 <= i < n && chain0[i] == anchor;
        assert(queue0.link_ok(i));
        if i + 1 < n {
            assert(queue0.link_ok(i + 1));
            assert(false);
        }
        assert(anchor == queue0.last());
        assert forall|a: usize| #[trigger]
            queue1.hazards@.retired.contains(a) implies queue1.memory.is_live(a) by {
            assert(queue0.memory.is_live(a));
        }
        assert forall|a: usize| chain1.contains(a) <==> a == node || chain0.contains(a) by {
            if chain0.contains(a) {
                let j = choose|j: int| 0 <= j < n && chain0[j] == a;
                assert(chain1[j] == a);
            }
            if a == node {
                assert(chain1[n] == a);
            }
        }
        assert(chain1.no_duplicates()) by {
            assert forall|x: int, y: int|
                0 <= x < chain1.len() && 0 <= y < chain1.len() && x != y implies chain1[x]
                != chain1[y] by {
                if x < n {
                    assert(chain0.contains(chain0[x]));
                }
                if y < n {
                    assert(chain0.contains(chain0[y]));
                }
            }
        }
        assert forall|j: int| 0 <= j < chain1.len() implies #[trigger] queue1.link_ok(j) by {
            if j < n {
                assert(queue0.link_ok(j));
                assert(chain0.contains(chain0[j]));
            }
        }
        assert forall|a: usize| #[trigger] queue1.place_ok(a) by {
            assert(queue0.place_ok(a));
        }
        assert(queue1.last() == node);
        assert(queue1@ =~= queue0@.push(before.argument())) by {
            assert forall|j: int| 0 <= j < n - 1 implies queue1@[j] == queue0@[j] by {
                assert(queue0.link_ok(j + 1));
                assert(chain0.contains(chain0[j + 1]));
            }
        }
        assert(queue1.held_nodes() =~= queue0.held_nodes().difference(before.nodes()).union(
            after.nodes(),
        ));
        assert(queue1.reserved_slots() =~= queue0.reserved_slots().difference(
            before.slots(),
        ).union(after.slots())) by {
            assert(before.slots().contains(before.first.unwrap().id()));
        }
        assert(Self::drifts(queue0, queue1));
        assert forall|o: Self| #[trigger] o.inv(&queue0) && o.apart(&before) implies o.inv(&queue1)
            && o.apart(&after) by {
            assert(queue0.place_ok(o.node));
            assert(queue0.place_ok(o.anchor));
            assert(queue0.place_ok(o.next));
            if o.nodes().contains(o.node) {
                assert(before.nodes().contains(node));
            }
            Self::lemma_kept(queue0, queue1, o);
        }
    }

    fn push_swing(&mut self, queue: &mut Queue<T>)
        requires
            old(self).phase == QueuePhase::PushSwing,
            old(queue).wf(),
            old(self).inv(old(queue)),
        ensures
            Self::advances(*old(self), *old(queue), *final(self), *final(queue)),
            final(self).accepted == old(self).accepted,
            final(self).tested == old(self).tested,
    {
        let swung = queue.tail.compare_exchange(
            self.anchor,
            self.node,
            MemoryOrder::Release,
            MemoryOrder::Relaxed,
        );
        self.phase = QueuePhase::PushRelease;
        proof {
            if swung.is_ok() {
                Self::lemma_tail_moved(*old(queue), *queue);
            }
        }
    }

    fn push_release(&mut self, queue: &mut Queue<T>)
        requires
            old(self).phase == QueuePhase::PushRelease,
            old(queue).wf(),
            old(self).inv(old(queue)),
        ensures
            Self::advances(*old(self), *old(queue), *final(self), *final(queue)),
            final(self).accepted == old(self).accepted,
            final(self).tested == old(self).tested,
    {
        if let Some(handle) = self.first.take() {
            queue.hazards.free(handle, &mut queue.memory);
        }
        self.phase = QueuePhase::Done;
        proof {
            let queue0 = *old(queue);
            let k = old(self).first.unwrap().id();
            let v = queue0.hazards@.without_slot(k);
            Self::lemma_settled(queue0, *queue, v, k);
            assert(old(self).slots() =~= set![k]);
            assert(self.slots() =~= Set::<int>::empty());
            assert(queue.reserved_slots() =~= queue0.reserved_slots().remove(k));
        }
    }

    fn pop_reserve_head(&mut self, queue: &mut Queue<T>)
        requires
            old(self).phase == QueuePhase::PopReserveHead,
            old(queue).wf(),
            old(self).inv(old(queue)),
        ensures
            Self::advances(*old(self), *old(queue), *final(self), *final(queue)),
            final(self).accepted == old(self).accepted,
            final(self).tested == old(self).tested,
    {
        let handle = queue.hazards.allocate();
        let ghost k = handle.id();
        self.first = Some(handle);
        self.phase = QueuePhase::PopReserveNext;
        proof {
            Self::lemma_reserved(*old(queue), *queue, k);
            assert(self.slots() =~= set![k]);
            assert(old(self).slots() =~= Set::<int>::empty());
        }
    }

    fn pop_reserve_next(&mut self, queue: &mut Queue<T>)
        requires
            old(self).phase == QueuePhase::PopReserveNext,
            old(queue).wf(),
            old(self).inv(old(queue)),
        ensures
            Self::advances(*old(self), *old(queue), *final(self), *final(queue)),
            final(self).accepted == old(self).accepted,
            final(self).tested == old(self).tested,
    {
        let handle = queue.hazards.allocate();
        let ghost k = handle.id();
        self.second = Some(handle);
        self.phase = QueuePhase::PopLoadHead;
        proof {
            Self::lemma_reserved(*old(queue), *queue, k);
            assert(self.slots() =~= old(self).slots().insert(k));
        }
    }

    fn pop_load_head(&mut self, queue: &mut Queue<T>)
        requires
            old(self).phase == QueuePhase::PopLoadHead,
            old(queue).wf(),
            old(self).inv(old(queue)),
        ensures
            Self::advances(*old(self), *old(queue), *final(self), *final(queue)),
            final(self).accepted == old(self).accepted,
            final(self).tested == old(self).tested,
    {
        let head = queue.head.load(MemoryOrder::Acquire);
        self.anchor = head;
        self.phase = QueuePhase::PopPublishHead;
        proof {
            queue.memory.lemma_null_is_not_live();
            assert(queue.link_ok(0));
        }
    }

    fn pop_publish_head(&mut self, queue: &mut Queue<T>)
        requires
            old(self).phase == QueuePhase::PopPublishHead,
            old(queue).wf(),
            old(self).inv(old(queue)),
        ensures
            Self::advances(*old(self), *old(queue), *final(self), *final(queue)),
            final(self).accepted == old(self).accepted,
            final(self).tested == old(self).tested,
    {
        if let Some(handle) = &self.first {
            queue.hazards.publish(handle, self.anchor, &mut queue.memory);
        }
        self.phase = QueuePhase::PopValidateHead;
        proof {
            let queue0 = *old(queue);
            let k = self.first.unwrap().id();
            let j = self.second.unwrap().id();
            let v = queue0.hazards@.with_slot(k, self.anchor);
            Self::lemma_settled(queue0, *queue, v, k);
            assert(queue.hazards@.slots.dom().contains(k) && queue.hazards@.slots[k]
                == self.anchor);
            assert(queue0.hazards@.slots.dom().contains(j));
            assert(v.slots.dom().contains(j));
            assert(queue.reserved_slots() =~= queue0.reserved_slots());
            assert(old(self).slots().contains(k));
            assert(old(self).slots().contains(j));
        }
    }

    fn pop_validate_head(&mut self, queue: &mut Queue<T>)
        requires
            old(self).phase == QueuePhase::PopValidateHead,
            old(queue).wf(),
            old(self).inv(old(queue)),
        ensures
            Self::advances(*old(self), *old(queue), *final(self), *final(queue)),
            final(self).accepted == old(self).accepted,
            final(self).tested == old(self).tested,
    {
        let head = queue.head.load(MemoryOrder::Acquire);
        if head == self.anchor {
            self.phase = QueuePhase::PopLoadNext;
            proof {
                assert(queue.link_ok(0));
                assert(queue.chain@.contains(queue.chain@[0]));
                assert(queue.place_ok(head));
            }
        } else {
            self.phase = QueuePhase::PopLoadHead;
        }
    }

    fn pop_load_next(&mut self, queue: &mut Queue<T>)
        requires
            old(self).phase == QueuePhase::PopLoadNext,
            old(queue).wf(),
            old(self).inv(old(queue)),
        ensures
            Self::advances(*old(self), *old(queue), *final(self), *final(queue)),
            final(self).accepted == old(self).accepted,
            final(self).tested == old(self).tested,
    {
        let next = queue.memory.get(self.anchor).next.load(MemoryOrder::Acquire);
        if next == crate::NULL {
            self.result = None;
            self.phase = QueuePhase::PopReleaseHead;
            proof {
                assert(queue.place_ok(self.anchor));
                assert(queue.chain@.contains(self.anchor));
                assert(queue.link_ok(0));
                if queue.chain@.len() > 1 {
                    assert(queue.link_ok(1));
                    queue.memory.lemma_null_is_not_live();
                }
                assert(queue@.len() == 0);
            }
        } else {
            self.next = next;
            self.phase = QueuePhase::PopPublishNext;
        }
    }

    fn pop_publish_next(&mut self, queue: &mut Queue<T>)
        requires
            old(self).phase == QueuePhase::PopPublishNext,
            old(queue).wf(),
            old(self).inv(old(queue)),
        ensures
            Self::advances(*old(self), *old(queue), *final(self), *final(queue)),
            final(self).accepted == old(self).accepted,
            final(self).tested == old(self).tested,
    {
        if let Some(handle) = &self.second {
            queue.hazards.publish(handle, self.next, &mut queue.memory);
        }
        self.phase = if self.conditional {
            QueuePhase::PopValidate
        } else {
            QueuePhase::PopUnlink
        };
        proof {
            let queue0 = *old(queue);
            let k = self.second.unwrap().id();
            let i = self.first.unwrap().id();
            let v = queue0.hazards@.with_slot(k, self.next);
            assert(queue0.place_ok(self.anchor));
            assert(v.slots.dom().contains(i) && v.slots[i] == self.anchor);
            assert(v.protects(self.anchor));
            Self::lemma_settled(queue0, *queue, v, k);
            assert(queue.hazards@.slots.dom().contains(k) && queue.hazards@.slots[k]
                == self.next);
            assert(queue.reserved_slots() =~= queue0.reserved_slots());
            assert(old(self).slots().contains(k));
            assert(old(self).slots().contains(i));
        }
    }

    fn pop_validate(&mut self, queue: &mut Queue<T>)
        requires
            old(self).phase == QueuePhase::PopValidate,
            old(queue).wf(),
            old(self).inv(old(queue)),
        ensures
            Self::advances(*old(self), *old(queue), *final(self), *final(queue)),
            final(self).accepted == old(self).accepted,
            final(self).tested == old(self).tested,
    {
        let head = queue.head.load(MemoryOrder::Acquire);
        if head == self.anchor {
            self.phase = QueuePhase::PopTest;
            proof {
                assert(queue.link_ok(0));
                assert(queue.link_ok(1));
                assert(queue.chain@.contains(queue.chain@[1]));
                assert(queue.place_ok(self.next));
            }
        } else {
            self.phase = QueuePhase::PopLoadHead;
        }
    }

    /// Makes the access that is due when the operation is
    /// [testing](QueueOp::testing): reads the candidate and asks `condition`.
    /// An accepted candidate is unlinked next; for a rejected one the head is
    /// compared once more; a candidate whose payload another operation has
    /// taken meanwhile makes the pop start over.
    pub fn test<F: Fn(&T) -> bool>(&mut self, queue: &mut Queue<T>, condition: &F)
        requires
            old(queue).wf(),
            old(self).inv(old(queue)),
            old(self).testing(),
            forall|payload: &T| call_requires(*condition, (payload,)),
        ensures
            Self::advances(*old(self), *old(queue), *final(self), *final(queue)),
            final(self).pending(),
            match final(self).accepted() {
                Some(payload) => old(self).accepted() == Some(payload) || call_ensures(
                    *condition,
                    (&payload,),
                    true,
                ),
                None => old(self).accepted().is_none(),
            },
            match final(self).tested() {
                Some(payload) => old(self).tested() == Some(payload) || call_ensures(
                    *condition,
                    (&payload,),
                    false,
                ),
                None => old(self).tested().is_none(),
            },
    {
        proof {
            if self.current(queue) {
                assert(queue.link_ok(0));
                assert(queue.link_ok(1));
            }
        }
        match &queue.memory.get(self.next).data {
            Some(payload) => {
                if condition(payload) {
                    self.accepted = Ghost(Some(*payload));
                    self.phase = QueuePhase::PopUnlink;
                } else {
                    self.tested = Ghost(Some(*payload));
                    self.phase = QueuePhase::PopConfirm;
                }
            },
            None => {
                self.phase = QueuePhase::PopLoadHead;
            },
        }
    }

    fn pop_confirm(&mut self, queue: &mut Queue<T>)
        requires
            old(self).phase == QueuePhase::PopConfirm,
            old(queue).wf(),
            old(self).inv(old(queue)),
        ensures
            Self::advances(*old(self), *old(queue), *final(self), *final(queue)),
            final(self).accepted == old(self).accepted,
            final(self).tested == old(self).tested,
    {
        let head = queue.head.load(MemoryOrder::Acquire);
        if head == self.anchor {
            // The rejected candidate is the front: the pop ends without a payload.
            self.result = None;
            self.rejected = Ghost(true);
            self.phase = QueuePhase::PopReleaseHead;
            proof {
                assert(queue.link_ok(0));
                assert(queue.link_ok(1));
            }
        } else {
            self.phase = QueuePhase::PopLoadHead;
        }
    }

    fn pop_unlink(&mut self, queue: &mut Queue<T>)
        requires
            old(self).phase == QueuePhase::PopUnlink,
            old(queue).wf(),
            old(self).inv(old(queue)),
        ensures
            Self::advances(*old(self), *old(queue), *final(self), *final(queue)),
            final(self).accepted == old(self).accepted,
            final(self).tested == old(self).tested,
    {
        let unlinked = queue.head.compare_exchange(
            self.anchor,
            self.next,
            MemoryOrder::Release,
            MemoryOrder::Relaxed,
        );
        if unlinked.is_ok() {
            proof {
                assert(old(queue).link_ok(0));
                assert(old(queue).link_ok(1));
            }
            self.phase = QueuePhase::PopLoadTail;
            proof {
                self.expected@ = queue.memory@[self.next].data;
                queue.chain@ = queue.chain@.skip(1);
                queue.unlinked@ = queue.unlinked@.insert(self.anchor);
                Self::lemma_unlinked(*old(self), *old(queue), *self, *queue);
            }
        } else {
            self.phase = QueuePhase::PopLoadHead;
        }
    }

    proof fn lemma_unlinked(before: Self, queue0: Queue<T>, after: Self, queue1: Queue<T>)
        requires
            queue0.wf(),
            before.inv(&queue0),
            before.phase == QueuePhase::PopUnlink,
            after.phase == QueuePhase::PopLoadTail,
            after.push == before.push,
            after.conditional == before.conditional,
            after.first == before.first,
            after.second == before.second,
            after.node == before.node,
            after.anchor == before.anchor,
            after.next == before.next,
            after.argument == before.argument,
            after.accepted == before.accepted,
            after.tested == before.tested,
            after.rejected == before.rejected,
            after.expected@ == queue0.memory@[before.next].data,
            queue0.head@ == before.anchor,
            queue1.head@ == before.next,
            queue1.memory == queue0.memory,
            queue1.hazards == queue0.hazards,
            queue1.tail == queue0.tail,
            queue1.chain@ == queue0.chain@.skip(1),
            queue1.fresh == queue0.fresh,
            queue1.unlinked@ == queue0.unlinked@.insert(before.anchor),
        ensures
            Self::advances(before, queue0, after, queue1),
    {
        let anchor = before.anchor;
        let next = before.next;
        let chain0 = queue0.chain@;
        let chain1 = queue1.chain@;
        queue0.memory.lemma_null_is_not_live();
        assert(queue0.link_ok(0));
        assert(chain0[0] == anchor);
        assert(chain0.len() > 1);
        assert(queue0.link_ok(1));
        assert(chain0[1] == next);
        assert(chain0.contains(chain0[0]));
        assert(chain0.contains(chain0[1]));
        assert(queue0.place_ok(anchor));
        assert(queue0.place_ok(next));
        assert forall|a: usize| #[trigger]
            queue1.hazards@.retired.contains(a) implies queue1.memory.is_live(a) by {
            assert(queue0.memory.is_live(a));
        }
        assert forall|a: usize| chain1.contains(a) <==> a != anchor && chain0.contains(a) by {
            if chain1.contains(a) {
                let i = choose|i: int| 0 <= i < chain1.len() && chain1[i] == a;
                assert(chain0[i + 1] == a);
            }
            if a != anchor && chain0.contains(a) {
                let i = choose|i: int| 0 <= i < chain0.len() && chain0[i] == a;
                assert(chain1[i - 1] == a);
            }
        }
        assert forall|i: int| 0 <= i < chain1.len() implies #[trigger] queue1.link_ok(i) by {
            assert(queue0.link_ok(i + 1));
            assert(chain1[i] == chain0[i + 1]);
        }
        assert forall|a: usize| #[trigger] queue1.place_ok(a) by {
            assert(queue0.place_ok(a));
        }
        assert(queue1.last() == queue0.last());
        assert(queue1.tail_ok()) by {
            assert(queue0.place_ok(queue0.tail@));
        }
        assert(queue1@ =~= queue0@.skip(1)) by {
            assert forall|i: int| 0 <= i < chain1.len() - 1 implies queue1@[i] == queue0@[i
                + 1] by {
                assert(chain1[i + 1] == chain0[i + 2]);
            }
        }
        assert(after.expected@ == Some(queue0@[0]));
        assert(queue1.held_nodes() =~= queue0.held_nodes().difference(before.nodes()).union(
            after.nodes(),
        ));
        assert(Self::drifts(queue0, queue1));
        assert forall|o: Self| #[trigger] o.inv(&queue0) && o.apart(&before) implies o.inv(&queue1)
            && o.apart(&after) by {
            assert(queue0.place_ok(o.node));
            assert(queue0.place_ok(o.anchor));
            assert(queue0.place_ok(o.next));
            Self::lemma_kept(queue0, queue1, o);
        }
    }

    fn pop_load_tail(&mut self, queue: &mut Queue<T>)
        requires
            old(self).phase == QueuePhase::PopLoadTail,
            old(queue).wf(),
            old(self).inv(old(queue)),
        ensures
            Self::advances(*old(self), *old(queue), *final(self), *final(queue)),
            final(self).accepted == old(self).accepted,
            final(self).tested == old(self).tested,
    {
        let tail = queue.tail.load(MemoryOrder::Relaxed);
        if tail == self.anchor {
            self.phase = QueuePhase::PopSwingTail;
        } else {
            self.phase = QueuePhase::PopRetire;
        }
    }

    fn pop_swing_tail(&mut self, queue: &mut Queue<T>)
        requires
            old(self).phase == QueuePhase::PopSwingTail,
            old(queue).wf(),
            old(self).inv(old(queue)),
        ensures
            Self::advances(*old(self), *old(queue), *final(self), *final(queue)),
            final(self).accepted == old(self).accepted,
            final(self).tested == old(self).tested,
    {
        let swung = queue.tail.compare_exchange(
            self.anchor,
            self.next,
            MemoryOrder::Release,
            MemoryOrder::Relaxed,
        );
        self.phase = QueuePhase::PopRetire;
        proof {
            if swung.is_ok() {
                Self::lemma_tail_moved(*old(queue), *queue);
                assert(queue.chain@.contains(queue.last()));
                assert(queue.place_ok(self.anchor));
            }
        }
    }

    fn pop_retire(&mut self, queue: &mut Queue<T>)
        requires
            old(self).phase == QueuePhase::PopRetire,
            old(queue).wf(),
            old(self).inv(old(queue)),
        ensures
            Self::advances(*old(self), *old(queue), *final(self), *final(queue)),
            final(self).accepted == old(self).accepted,
            final(self).tested == old(self).tested,
    {
        proof {
            assert(queue.place_ok(self.anchor));
        }
        queue.hazards.retire(self.anchor, &mut queue.memory);
        self.phase = QueuePhase::PopTake;
        proof {
            queue.unlinked@ = queue.unlinked@.remove(self.anchor);
            Self::lemma_retired(*old(self), *old(queue), *self, *queue);
        }
    }

    proof fn lemma_retired(before: Self, queue0: Queue<T>, after: Self, queue1: Queue<T>)
        requires
            queue0.wf(),
            before.inv(&queue0),
            before.phase == QueuePhase::PopRetire,
            after.phase == QueuePhase::PopTake,
            after.push == before.push,
            after.conditional == before.conditional,
            after.first == before.first,
            after.second == before.second,
            after.next == before.next,
            after.argument == before.argument,
            after.expected == before.expected,
            after.rejected == before.rejected,
            queue1.hazards.wf(),
            queue1.memory.wf(),
            queue1.hazards.guards(&queue1.memory),
            queue1.hazards@ == queue0.hazards@.with_retired(before.anchor).settled(),
            queue1.memory@ == queue0.memory@.remove_keys(
                queue0.hazards@.with_retired(before.anchor).released(),
            ),
            queue1.head == queue0.head,
            queue1.tail == queue0.tail,
            queue1.chain == queue0.chain,
            queue1.fresh == queue0.fresh,
            queue1.unlinked@ == queue0.unlinked@.remove(before.anchor),
        ensures
            Self::advances(before, queue0, after, queue1),
    {
        let anchor = before.anchor;
        let v = queue0.hazards@.with_retired(anchor);
        let k = before.first.unwrap().id();
        assert(queue0.hazards@.slots.dom().contains(k) && queue0.hazards@.slots[k] == anchor);
        assert(queue0.hazards@.protects(anchor));
        assert(queue0.place_ok(anchor));
        assert forall|a: usize| !v.released().contains(a) by {
            if a != anchor && v.retired.contains(a) {
                queue0.hazards.lemma_retired_is_protected(a);
            }
        }
        assert(v.released() =~= Set::<usize>::empty());
        assert forall|a: usize| v.waiting().contains(a) <==> queue0.hazards@.retired.insert(
            anchor,
        ).contains(a) by {
            if a != anchor && queue0.hazards@.retired.contains(a) {
                queue0.hazards.lemma_retired_is_protected(a);
            }
        }
        assert(v.waiting() =~= queue0.hazards@.retired.insert(anchor));
        assert(queue1.memory@ =~= queue0.memory@);
        assert forall|a: usize| #[trigger] queue1.place_ok(a) by {
            assert(queue0.place_ok(a));
        }
        assert forall|a: usize|
            queue0.chain@.contains(a) || queue0.unlinked@.contains(a)
                implies #[trigger] queue1.memory.is_live(a) && queue1.memory@[a]
                == queue0.memory@[a] by {
            assert(queue0.place_ok(a));
        }
        Self::lemma_same_list(queue0, queue1);
        assert(queue1.held_nodes() =~= queue0.held_nodes().difference(before.nodes()).union(
            after.nodes(),
        )) by {
            assert forall|a: usize| queue0.fresh@.contains(a) implies a != anchor by {
                assert(queue0.place_ok(a));
            }
        }
        assert(queue1.reserved_slots() =~= queue0.reserved_slots().difference(
            before.slots(),
        ).union(after.slots())) by {
            assert(before.slots().contains(k));
            assert(before.slots().contains(before.second.unwrap().id()));
        }
        assert forall|o: Self| #[trigger] o.inv(&queue0) && o.apart(&before) implies o.inv(&queue1)
            && o.apart(&after) by {
            assert(queue0.place_ok(o.node));
            assert(queue0.place_ok(o.anchor));
            assert(queue0.place_ok(o.next));
            if o.nodes().contains(o.anchor) {
                assert(before.nodes().contains(anchor));
            }
            Self::lemma_kept(queue0, queue1, o);
        }
    }

    fn pop_take(&mut self, queue: &mut Queue<T>)
        requires
            old(self).phase == QueuePhase::PopTake,
            old(queue).wf(),
            old(self).inv(old(queue)),
        ensures
            Self::advances(*old(self), *old(queue), *final(self), *final(queue)),
            final(self).accepted == old(self).accepted,
            final(self).tested == old(self).tested,
    {
        let cell = queue.memory.get_mut(self.next);
        self.result = cell.data.take();
        self.phase = QueuePhase::PopReleaseHead;
        proof {
            Self::lemma_taken(*old(self), *old(queue), *self, *queue);
        }
    }

    proof fn lemma_taken(before: Self, queue0: Queue<T>, after: Self, queue1: Queue<T>)
        requires
            queue0.wf(),
            before.inv(&queue0),
            before.phase == QueuePhase::PopTake,
            after.phase == QueuePhase::PopReleaseHead,
            after.push == before.push,
            after.conditional == before.conditional,
            after.first == before.first,
            after.second == before.second,
            after.argument == before.argument,
            after.rejected == before.rejected,
            after.result == queue0.memory@[before.next].data,
            queue1.memory.wf(),
            queue1.memory@.dom() =~= queue0.memory@.dom(),
            queue1.memory@[before.next].data.is_none(),
            queue1.memory@[before.next].next == queue0.memory@[before.next].next,
            forall|a: usize| a != before.next ==> #[trigger] queue1.memory@[a] == queue0.memory@[a],
            queue1.hazards == queue0.hazards,
            queue1.head == queue0.head,
            queue1.tail == queue0.tail,
            queue1.chain == queue0.chain,
            queue1.fresh == queue0.fresh,
            queue1.unlinked == queue0.unlinked,
        ensures
            Self::advances(before, queue0, after, queue1),
    {
        let next = before.next;
        assert(queue0.place_ok(next));
        assert forall|a: usize| #[trigger]
            queue1.hazards@.retired.contains(a) implies queue1.memory.is_live(a) by {
            assert(queue0.memory.is_live(a));
        }
        assert forall|i: int| 0 <= i < queue1.chain@.len() implies #[trigger] queue1.link_ok(
            i,
        ) by {
            assert(queue0.link_ok(i));
            assert(queue0.chain@.contains(queue0.chain@[i]));
        }
        assert forall|a: usize| #[trigger] queue1.place_ok(a) by {
            assert(queue0.place_ok(a));
        }
        assert(queue1.tail_ok()) by {
            assert(queue0.place_ok(queue0.tail@));
        }
        assert(queue1@ =~= queue0@) by {
            assert forall|i: int| 0 <= i < queue0.chain@.len() - 1 implies queue1@[i]
                == queue0@[i] by {
                assert(queue0.chain@.contains(queue0.chain@[i + 1]));
            }
        }
        assert(Self::drifts(queue0, queue1));
        assert forall|o: Self| #[trigger] o.inv(&queue0) && o.apart(&before) implies o.inv(&queue1)
            && o.apart(&after) by {
            assert(queue0.place_ok(o.node));
            assert(queue0.place_ok(o.anchor));
            assert(queue0.place_ok(o.next));
            if o.winning() {
                assert(before.wins().contains(next));
                assert(o.wins().contains(o.next));
                assert(o.next != next);
            }
            Self::lemma_kept(queue0, queue1, o);
        }
    }

    fn pop_release_head(&mut self, queue: &mut Queue<T>)
        requires
            old(self).phase == QueuePhase::PopReleaseHead,
            old(queue).wf(),
            old(self).inv(old(queue)),
        ensures
            Self::advances(*old(self), *old(queue), *final(self), *final(queue)),
            final(self).accepted == old(self).accepted,
            final(self).tested == old(self).tested,
    {
        if let Some(handle) = self.first.take() {
            queue.hazards.free(handle, &mut queue.memory);
        }
        self.phase = QueuePhase::PopReleaseNext;
        proof {
            let queue0 = *old(queue);
            let k = old(self).first.unwrap().id();
            let j = old(self).second.unwrap().id();
            let v = queue0.hazards@.without_slot(k);
            Self::lemma_settled(queue0, *queue, v, k);
            assert(v.slots.dom().contains(j));
            assert(old(self).slots() =~= set![k, j]);
            assert(self.slots() =~= set![j]);
            assert(queue.reserved_slots() =~= queue0.reserved_slots().remove(k));
        }
    }

    fn pop_release_next(&mut self, queue: &mut Queue<T>)
        requires
            old(self).phase == QueuePhase::PopReleaseNext,
            old(queue).wf(),
            old(self).inv(old(queue)),
        ensures
            Self::advances(*old(self), *old(queue), *final(self), *final(queue)),
            final(self).accepted == old(self).accepted,
            final(self).tested == old(self).tested,
    {
        if let Some(handle) = self.second.take() {
            queue.hazards.free(handle, &mut queue.memory);
        }
        self.phase = QueuePhase::Done;
        proof {
            let queue0 = *old(queue);
            let k = old(self).second.unwrap().id();
            let v = queue0.hazards@.without_slot(k);
            Self::lemma_settled(queue0, *queue, v, k);
            assert(old(self).slots() =~= set![k]);
            assert(self.slots() =~= Set::<int>::empty());
            assert(queue.reserved_slots() =~= queue0.reserved_slots().remove(k));
        }
    }

    /// Starts a pop. Nothing is accessed yet.
    pub fn pop(queue: &Queue<T>) -> (op: QueueOp<T>)
        ensures
            op.inv(queue),
            !op.is_push(),
            !op.is_conditional(),
            op.pending(),
            !op.testing(),
            op.slots() =~= Set::<int>::empty(),
            op.nodes() =~= Set::<usize>::empty(),
    {
        QueueOp {
            push: false,
            conditional: false,
            phase: QueuePhase::PopReserveHead,
            first: None,
            second: None,
            node: crate::NULL,
            anchor: crate::NULL,
            next: crate::NULL,
            result: None,
            argument: Ghost(None),
            expected: Ghost(None),
            accepted: Ghost(None),
            tested: Ghost(None),
            rejected: Ghost(false),
        }
    }

    /// Starts a pop that takes the front payload only if a condition accepts
    /// it. Nothing is accessed yet.
    pub fn pop_if(queue: &Queue<T>) -> (op: QueueOp<T>)
        ensures
            op.inv(queue),
            !op.is_push(),
            op.is_conditional(),
            op.pending(),
            !op.testing(),
            op.accepted().is_none(),
            op.tested().is_none(),
            op.slots() =~= Set::<int>::empty(),
            op.nodes() =~= Set::<usize>::empty(),
    {
        QueueOp {
            push: false,
            conditional: true,
            phase: QueuePhase::PopReserveHead,
            first: None,
            second: None,
            node: crate::NULL,
            anchor: crate::NULL,
            next: crate::NULL,
            result: None,
            argument: Ghost(None),
            expected: Ghost(None),
            accepted: Ghost(None),
            tested: Ghost(None),
            rejected: Ghost(false),
        }
    }

    /// Whether the operation has made its last step.
    pub fn is_done(&self) -> (done: bool)
        ensures
            done == self.done(),
    {
        self.phase == QueuePhase::Done
    }

    /// Whether the next step is [`QueueOp::test`].
    pub fn is_testing(&self) -> (testing: bool)
        ensures
            testing == self.testing(),
    {
        self.phase == QueuePhase::PopTest
    }

    /// Where the operation stands: the access that its next step makes.
    pub closed spec fn stage(&self) -> QueuePhase {
        self.phase
    }

    /// The access that the next step makes.
    pub fn phase(&self) -> (phase: QueuePhase)
        ensures
            phase == self.stage(),
            (phase == QueuePhase::Done) == self.done(),
            (phase == QueuePhase::PopTest) == self.testing(),
    {
        self.phase
    }

    /// What the operation returns: for a pop the payload taken, if one was taken.
    pub fn into_outcome(self) -> (outcome: Option<T>)
        requires
            self.done(),
        ensures
            outcome == self.outcome(),
    {
        self.result
    }

    /// A finished operation holds nothing.
    pub proof fn lemma_done_holds_nothing(&self, queue: &Queue<T>)
        requires
            self.done(),
            self.inv(queue),
        ensures
            !self.pending(),
            self.slots() =~= Set::<int>::empty(),
            self.nodes() =~= Set::<usize>::empty(),
    {
    }

    /// Makes the one access that is due, unless the operation is
    /// [testing](QueueOp::testing).
    pub fn step(&mut self, queue: &mut Queue<T>)
        requires
            old(queue).wf(),
            old(self).inv(old(queue)),
            !old(self).done(),
            !old(self).testing(),
        ensures
            Self::advances(*old(self), *old(queue), *final(self), *final(queue)),
            final(self).accepted() == old(self).accepted(),
            final(self).tested() == old(self).tested(),
    {
        match self.phase {
            QueuePhase::PushReserve => self.push_reserve(queue),
            QueuePhase::PushLoadTail => self.push_load_tail(queue),
            QueuePhase::PushPublishTail => self.push_publish_tail(queue),
            QueuePhase::PushValidateTail => self.push_validate_tail(queue),
            QueuePhase::PushReadNext => self.push_read_next(queue),
            QueuePhase::PushHelp => self.push_help(queue),
            QueuePhase::PushLink => self.push_link(queue),
            QueuePhase::PushSwing => self.push_swing(queue),
            QueuePhase::PushRelease => self.push_release(queue),
            QueuePhase::PopReserveHead => self.pop_reserve_head(queue),
            QueuePhase::PopReserveNext => self.pop_reserve_next(queue),
            QueuePhase::PopLoadHead => self.pop_load_head(queue),
            QueuePhase::PopPublishHead => self.pop_publish_head(queue),
            QueuePhase::PopValidateHead => self.pop_validate_head(queue),
            QueuePhase::PopLoadNext => self.pop_load_next(queue),
            QueuePhase::PopPublishNext => self.pop_publish_next(queue),
            QueuePhase::PopValidate => self.pop_validate(queue),
            QueuePhase::PopConfirm => self.pop_confirm(queue),
            QueuePhase::PopUnlink => self.pop_unlink(queue),
            QueuePhase::PopLoadTail => self.pop_load_tail(queue),
            QueuePhase::PopSwingTail => self.pop_swing_tail(queue),
            QueuePhase::PopRetire => self.pop_retire(queue),
            QueuePhase::PopTake => self.pop_take(queue),
            QueuePhase::PopReleaseHead => self.pop_release_head(queue),
            QueuePhase::PopReleaseNext => self.pop_release_next(queue),
            QueuePhase::PopTest | QueuePhase::Done => {},
        }
    }
}

impl<T> Queue<T> {
    /// Adds `value` to the back of the queue.
    pub fn push(&mut self, value: T)
        requires
            old(self).wf(),
        ensures
            final(self).wf(),
            fifo(Effect::Pushed(value), old(self)@, final(self)@),
            old(self).quiet() ==> final(self).quiet(),
    {
        let mut op = QueueOp::push(self, value);
        while !op.is_done()
            invariant
                self.wf(),
                op.inv(self),
                op.is_push(),
                !op.testing(),
                op.argument() == value,
                op.pending() ==> self@ == old(self)@,
                !op.pending() ==> self@ == old(self)@.push(value),
                old(self).quiet() ==> self.reserved_slots() =~= op.slots() && self.held_nodes()
                    =~= op.nodes(),
            decreases op.fuel(self),
        {
            op.step(self);
            proof {
                op.lemma_push_never_tests(self);
            }
        }
        proof {
            op.lemma_done_holds_nothing(self);
        }
    }

    /// Attempts to dequeue from the front.
    ///
    /// Returns `None` if the queue is empty.
    pub fn try_pop(&mut self) -> (front: Option<T>)
        requires
            old(self).wf(),
        ensures
            final(self).wf(),
            fifo(taking(front), old(self)@, final(self)@),
            old(self).quiet() ==> final(self).quiet(),
    {
        let mut op = QueueOp::pop(self);
        while !op.is_done()
            invariant
                self.wf(),
                op.inv(self),
                !op.is_push(),
                !op.is_conditional(),
                !op.testing(),
                op.pending() ==> self@ == old(self)@,
                !op.pending() ==> match op.outcome() {
                    Some(payload) => old(self)@.len() > 0 && payload == old(self)@[0] && self@
                        == old(self)@.skip(1),
                    None => old(self)@.len() == 0 && self@ == old(self)@,
                },
                old(self).quiet() ==> self.reserved_slots() =~= op.slots() && self.held_nodes()
                    =~= op.nodes(),
            decreases op.fuel(self),
        {
            op.step(self);
            proof {
                op.lemma_plain_never_tests(self);
            }
        }
        proof {
            op.lemma_done_holds_nothing(self);
        }
        op.into_outcome()
    }

    /// Attempts to dequeue from the front, if the item satisfies the given
    /// condition.
    ///
    /// Returns `None` if the queue is empty, or the front does not satisfy the
    /// condition.
    pub fn try_pop_if<F: Fn(&T) -> bool>(&mut self, condition: F) -> (front: Option<T>)
        requires
            old(self).wf(),
            forall|payload: &T| call_requires(condition, (payload,)),
        ensures
            final(self).wf(),
            match front {
                Some(payload) => {
                    &&& fifo(Effect::Popped(payload), old(self)@, final(self)@)
                    &&& call_ensures(condition, (&payload,), true)
                },
                None => {
                    &&& fifo(Effect::Nothing, old(self)@, final(self)@)
                    &&& old(self)@.len() == 0 || call_ensures(condition, (&old(self)@[0],), false)
                },
            },
            old(self).quiet() ==> final(self).quiet(),
    {
        let mut op = QueueOp::pop_if(self);
        while !op.is_done()
            invariant
                self.wf(),
                op.inv(self),
                !op.is_push(),
                op.is_conditional(),
                forall|payload: &T| call_requires(condition, (payload,)),
                op.pending() ==> self@ == old(self)@,
                match op.accepted() {
                    Some(payload) => call_ensures(condition, (&payload,), true),
                    None => true,
                },
                match op.tested() {
                    Some(payload) => call_ensures(condition, (&payload,), false),
                    None => true,
                },
                !op.pending() ==> match op.outcome() {
                    Some(payload) => {
                        &&& old(self)@.len() > 0
                        &&& payload == old(self)@[0]
                        &&& self@ == old(self)@.skip(1)
                        &&& call_ensures(condition, (&payload,), true)
                    },
                    None => {
                        &&& self@ == old(self)@
                        &&& old(self)@.len() == 0 || call_ensures(
                            condition,
                            (&old(self)@[0],),
                            false,
                        )
                    },
                },
                old(self).quiet() ==> self.reserved_slots() =~= op.slots() && self.held_nodes()
                    =~= op.nodes(),
            decreases op.fuel(self),
        {
            if op.is_testing() {
                op.test(self, &condition);
            } else {
                op.step(self);
            }
        }
        proof {
            op.lemma_done_holds_nothing(self);
        }
        op.into_outcome()
    }

    /// In a quiet queue the live nodes are those of the list.
    proof fn lemma_quiet_holds_the_list_only(&self, a: usize)
        requires
            self.wf(),
            self.quiet(),
            self.memory.is_live(a),
        ensures
            self.chain@.contains(a),
    {
        assert(self.place_ok(a));
        if self.hazards@.retired.contains(a) {
            self.hazards.lemma_retired_is_protected(a);
            let k = choose|k: int| self.hazards@.slots.dom().contains(k);
            assert(self.reserved_slots().contains(k));
        }
        if self.fresh@.contains(a) || self.unlinked@.contains(a) {
            assert(self.held_nodes().contains(a));
        }
    }

    /// No node is live but the sentinel.
    pub closed spec fn bare(&self) -> bool {
        forall|a: usize| self.memory.is_live(a) ==> a == self.head@
    }

    /// Whether no node is live but the sentinel.
    pub fn is_bare(&self) -> (bare: bool)
        requires
            self.wf(),
        ensures
            bare == self.bare(),
    {
        self.memory.holds_only(self.head.load(MemoryOrder::Relaxed))
    }

    /// Pops until the queue is empty, as dropping the queue does before it
    /// destroys the sentinel. If no operation is in progress, no other node
    /// is left.
    pub fn drain(&mut self)
        requires
            old(self).wf(),
        ensures
            final(self).wf(),
            final(self)@.len() == 0,
            old(self).quiet() ==> final(self).quiet() && final(self).bare(),
    {
        loop
            invariant
                self.wf(),
                old(self).quiet() ==> self.quiet(),
            ensures
                self@.len() == 0,
            decreases self@.len(),
        {
            if self.try_pop().is_none() {
                break;
            }
        }
        proof {
            if old(self).quiet() {
                assert forall|a: usize| self.memory.is_live(a) implies a == self.head@ by {
                    self.lemma_quiet_holds_the_list_only(a);
                    let i = choose|i: int| 0 <= i < self.chain@.len() && self.chain@[i] == a;
                    assert(self@.len() == 0);
                }
            }
        }
    }
}

impl<T> QueueOp<T> {
    proof fn lemma_push_never_tests(&self, queue: &Queue<T>)
        requires
            self.inv(queue),
            self.push,
        ensures
            !self.testing(),
    {
    }

    proof fn lemma_plain_never_tests(&self, queue: &Queue<T>)
        requires
            self.inv(queue),
            !self.conditional,
        ensures
            !self.testing(),
    {
    }
}

impl<T> QueueOp<T> {
    /// However the steps of operations are mixed: when operations that are
    /// apart hold what they rely on, then after a step of one of them they
    /// all do, and are apart. So every step finds the cells live that it
    /// reads, writes or frees.
    pub proof fn lemma_step_keeps_all(
        ops: Seq<Self>,
        i: int,
        queue0: Queue<T>,
        after: Self,
        queue1: Queue<T>,
    )
        requires
            0 <= i < ops.len(),
            forall|j: int| 0 <= j < ops.len() ==> (#[trigger] ops[j]).inv(&queue0),
            forall|j: int, k: int|
                0 <= j < ops.len() && 0 <= k < ops.len() && j != k ==> #[trigger] ops[j].apart(
                    &ops[k],
                ),
            Self::advances(ops[i], queue0, after, queue1),
        ensures
            queue1.wf(),
            forall|j: int| 0 <= j < ops.len() ==> (#[trigger] ops.update(i, after)[j]).inv(&queue1),
            forall|j: int, k: int|
                0 <= j < ops.len() && 0 <= k < ops.len() && j != k ==> #[trigger] ops.update(
                    i,
                    after,
                )[j].apart(&ops.update(i, after)[k]),
    {
        let next = ops.update(i, after);
        assert forall|j: int| 0 <= j < ops.len() implies (#[trigger] next[j]).inv(&queue1) by {
            if j != i {
                assert(ops[j].inv(&queue0) && ops[j].apart(&ops[i]));
            }
        }
        assert forall|j: int, k: int|
            0 <= j < ops.len() && 0 <= k < ops.len() && j != k implies #[trigger] next[j].apart(
            &next[k],
        ) by {
            if j == i {
                assert(ops[k].inv(&queue0) && ops[k].apart(&ops[i]));
                assert(ops[k].apart(&after));
            } else if k == i {
                assert(ops[j].inv(&queue0) && ops[j].apart(&ops[i]));
                assert(ops[j].apart(&after));
            } else {
                assert(ops[j].apart(&ops[k]));
            }
        }
    }

    /// The effects of the steps from `befores` to `afters`, one by one.
    pub open spec fn effects(befores: Seq<Self>, afters: Seq<Self>) -> Seq<Effect<T>> {
        Seq::new(befores.len(), |i: int| Self::effect(befores[i], afters[i]))
    }

    /// The contents of the states that a run of steps goes through.
    pub open spec fn contents(states: Seq<Queue<T>>) -> Seq<Seq<T>> {
        Seq::new(states.len(), |i: int| states[i]@)
    }

    /// Conservation, for every order in which the steps of operations come:
    /// what was there and what was pushed is, in this order, what was
    /// popped and what is left. No more is popped than was there or pushed.
    pub proof fn lemma_conservation(
        befores: Seq<Self>,
        afters: Seq<Self>,
        states: Seq<Queue<T>>,
    )
        requires
            afters.len() == befores.len(),
            states.len() == befores.len() + 1,
            forall|i: int|
                0 <= i < befores.len() ==> Self::advances(
                    #[trigger] befores[i],
                    states[i],
                    afters[i],
                    states[i + 1],
                ),
        ensures
            states[0]@ + pushes(Self::effects(befores, afters)) == pops(
                Self::effects(befores, afters),
            ) + states.last()@,
            pops(Self::effects(befores, afters)).len() <= states[0]@.len() + pushes(
                Self::effects(befores, afters),
            ).len(),
    {
        let effects = Self::effects(befores, afters);
        let contents = Self::contents(states);
        assert forall|i: int| 0 <= i < effects.len() implies fifo(
            #[trigger] effects[i],
            contents[i],
            contents[i + 1],
        ) by {
            assert(Self::advances(befores[i], states[i], afters[i], states[i + 1]));
        }
        lemma_fifo_conserves(effects, contents);
    }
}

impl<T> QueueOp<T> {
    /// The slots that the operations have reserved, taken together.
    pub open spec fn all_slots(ops: Seq<Self>) -> Set<int> {
        Set::new(|x: int| exists|j: int| 0 <= j < ops.len() && #[trigger] ops[j].slots().contains(x))
    }

    /// The nodes that the operations hold outside the list, taken together.
    pub open spec fn all_nodes(ops: Seq<Self>) -> Set<usize> {
        Set::new(|x: usize| exists|j: int| 0 <= j < ops.len() && #[trigger] ops[j].nodes().contains(x))
    }
}

impl<T> Queue<T> {
    /// The operations are apart from each other and each holds what it relies
    /// on.
    pub open spec fn runs(&self, ops: Seq<QueueOp<T>>) -> bool {
        &&& self.wf()
        &&& forall|j: int| 0 <= j < ops.len() ==> (#[trigger] ops[j]).inv(self)
        &&& forall|j: int, k: int|
            0 <= j < ops.len() && 0 <= k < ops.len() && j != k ==> #[trigger] ops[j].apart(&ops[k])
    }

    /// What is held in the container is held by the operations `ops`, and by
    /// no operation else.
    pub open spec fn accounts(&self, ops: Seq<QueueOp<T>>) -> bool {
        &&& self.reserved_slots() =~= QueueOp::all_slots(ops)
        &&& self.held_nodes() =~= QueueOp::all_nodes(ops)
    }

    /// The operations `later` are the operations `earlier` after some steps.
    pub open spec fn follows(earlier: Seq<QueueOp<T>>, later: Seq<QueueOp<T>>) -> bool {
        &&& later.len() == earlier.len()
        &&& forall|j: int|
            0 <= j < earlier.len() ==> {
                &&& (#[trigger] later[j]).is_push() == earlier[j].is_push()
                &&& later[j].argument() == earlier[j].argument()
                &&& later[j].pending() ==> earlier[j].pending()
                &&& later[j].is_conditional() == earlier[j].is_conditional()
                &&& !earlier[j].pending() ==> later[j].outcome() == earlier[j].outcome()
                    && later[j].rejected() == earlier[j].rejected()
            }
    }

    /// What `condition` has said of the payloads that the operation `later`
    /// has accepted or rejected last, where it has said so since `earlier`.
    pub open spec fn asked<F: Fn(&T) -> bool>(
        earlier: QueueOp<T>,
        later: QueueOp<T>,
        condition: F,
    ) -> bool {
        &&& match later.accepted() {
            Some(payload) => earlier.accepted() == Some(payload) || call_ensures(
                condition,
                (&payload,),
                true,
            ),
            None => true,
        }
        &&& match later.tested() {
            Some(payload) => earlier.tested() == Some(payload) || call_ensures(
                condition,
                (&payload,),
                false,
            ),
            None => true,
        }
    }

    /// One turn of a schedule: the operation that `pick` names makes its next
    /// step, if there is such an operation and it is not finished;
    /// else nothing changes.
    pub open spec fn turn(
        ops0: Seq<QueueOp<T>>,
        queue0: Self,
        pick: usize,
        ops1: Seq<QueueOp<T>>,
        queue1: Self,
    ) -> bool {
        if pick < ops0.len() && !ops0[pick as int].done() {
            &&& ops1.len() == ops0.len()
            &&& ops1 == ops0.update(pick as int, ops1[pick as int])
            &&& QueueOp::advances(ops0[pick as int], queue0, ops1[pick as int], queue1)
        } else {
            ops1 == ops0 && queue1 == queue0
        }
    }

    /// The operations and the container before, between and after the turns
    /// of `schedule`, from `ops0` and `queue0` on.
    pub open spec fn trace(
        ops0: Seq<QueueOp<T>>,
        queue0: Self,
        schedule: Seq<usize>,
        opss: Seq<Seq<QueueOp<T>>>,
        states: Seq<Self>,
    ) -> bool {
        &&& opss.len() == schedule.len() + 1
        &&& states.len() == schedule.len() + 1
        &&& opss[0] == ops0
        &&& states[0] == queue0
        &&& forall|i: int|
            0 <= i < schedule.len() ==> Self::turn(
                #[trigger] opss[i],
                states[i],
                schedule[i],
                opss[i + 1],
                states[i + 1],
            )
    }

    /// One more operation, which is apart from the others and has left them
    /// what they rely on.
    pub proof fn lemma_runs_more(queue0: Self, ops: Seq<QueueOp<T>>, queue1: Self, op: QueueOp<T>)
        requires
            queue0.runs(ops),
            queue1.wf(),
            op.inv(&queue1),
            forall|j: int|
                0 <= j < ops.len() ==> (#[trigger] ops[j]).inv(&queue1) && ops[j].apart(&op),
        ensures
            queue1.runs(ops.push(op)),
    {
        let more = ops.push(op);
        assert forall|j: int, k: int|
            0 <= j < more.len() && 0 <= k < more.len() && j != k implies #[trigger] more[j].apart(
            &more[k],
        ) by {
            if j < ops.len() && k < ops.len() {
                assert(ops[j].apart(&ops[k]));
            } else if j < ops.len() {
                assert(ops[j].apart(&op));
            } else {
                assert(ops[k].apart(&op));
            }
        }
    }

    /// No operation holds anything in a container on which none is in progress.
    pub proof fn lemma_accounts_none(&self)
        requires
            self.quiet(),
        ensures
            self.accounts(Seq::<QueueOp<T>>::empty()),
    {
    }

    /// One more operation, which holds what the container holds more.
    pub proof fn lemma_accounts_more(queue0: Self, ops: Seq<QueueOp<T>>, queue1: Self, op: QueueOp<T>)
        requires
            queue0.accounts(ops),
            queue1.reserved_slots() =~= queue0.reserved_slots().union(op.slots()),
            queue1.held_nodes() =~= queue0.held_nodes().union(op.nodes()),
        ensures
            queue1.accounts(ops.push(op)),
    {
        let more = ops.push(op);
        assert forall|x: int| queue1.reserved_slots().contains(x) <==> QueueOp::all_slots(more).contains(x) by {
            if queue0.reserved_slots().contains(x) {
                let j = choose|j: int| 0 <= j < ops.len() && #[trigger] ops[j].slots().contains(x);
                assert(more[j].slots().contains(x));
            }
            if op.slots().contains(x) {
                assert(more[ops.len() as int].slots().contains(x));
            }
            if QueueOp::all_slots(more).contains(x) {
                let j = choose|j: int| 0 <= j < more.len() && #[trigger] more[j].slots().contains(x);
                if j < ops.len() {
                    assert(ops[j].slots().contains(x));
                }
            }
        }
        assert forall|x: usize| queue1.held_nodes().contains(x) <==> QueueOp::all_nodes(more).contains(x) by {
            if queue0.held_nodes().contains(x) {
                let j = choose|j: int| 0 <= j < ops.len() && #[trigger] ops[j].nodes().contains(x);
                assert(more[j].nodes().contains(x));
            }
            if op.nodes().contains(x) {
                assert(more[ops.len() as int].nodes().contains(x));
            }
            if QueueOp::all_nodes(more).contains(x) {
                let j = choose|j: int| 0 <= j < more.len() && #[trigger] more[j].nodes().contains(x);
                if j < ops.len() {
                    assert(ops[j].nodes().contains(x));
                }
            }
        }
    }

    /// The step of one operation leaves the account right.
    pub proof fn lemma_accounts_kept(
        ops: Seq<QueueOp<T>>,
        i: int,
        queue0: Self,
        after: QueueOp<T>,
        queue1: Self,
    )
        requires
            0 <= i < ops.len(),
            queue0.runs(ops),
            queue0.accounts(ops),
            QueueOp::advances(ops[i], queue0, after, queue1),
        ensures
            queue1.accounts(ops.update(i, after)),
    {
        let next = ops.update(i, after);
        assert forall|x: int| queue1.reserved_slots().contains(x) <==> QueueOp::all_slots(next).contains(x) by {
            if queue1.reserved_slots().contains(x) && !after.slots().contains(x) {
                assert(queue0.reserved_slots().contains(x));
                let j = choose|j: int| 0 <= j < ops.len() && #[trigger] ops[j].slots().contains(x);
                assert(next[j].slots().contains(x));
            }
            if after.slots().contains(x) {
                assert(next[i].slots().contains(x));
            }
            if QueueOp::all_slots(next).contains(x) {
                let j = choose|j: int| 0 <= j < next.len() && #[trigger] next[j].slots().contains(x);
                if j != i {
                    assert(ops[j].slots().contains(x));
                    assert(ops[j].apart(&ops[i]));
                    assert(QueueOp::all_slots(ops).contains(x));
                }
            }
        }
        assert forall|x: usize| queue1.held_nodes().contains(x) <==> QueueOp::all_nodes(next).contains(x) by {
            if queue1.held_nodes().contains(x) && !after.nodes().contains(x) {
                assert(queue0.held_nodes().contains(x));
                let j = choose|j: int| 0 <= j < ops.len() && #[trigger] ops[j].nodes().contains(x);
                assert(next[j].nodes().contains(x));
            }
            if after.nodes().contains(x) {
                assert(next[i].nodes().contains(x));
            }
            if QueueOp::all_nodes(next).contains(x) {
                let j = choose|j: int| 0 <= j < next.len() && #[trigger] next[j].nodes().contains(x);
                if j != i {
                    assert(ops[j].nodes().contains(x));
                    assert(ops[j].apart(&ops[i]));
                    assert(QueueOp::all_nodes(ops).contains(x));
                }
            }
        }
    }

    /// When every operation is finished, none is in progress.
    pub proof fn lemma_all_done_is_quiet(&self, ops: Seq<QueueOp<T>>)
        requires
            self.runs(ops),
            self.accounts(ops),
            forall|j: int| 0 <= j < ops.len() ==> (#[trigger] ops[j]).done(),
        ensures
            self.quiet(),
    {
        assert forall|x: int| !self.reserved_slots().contains(x) by {
            if self.reserved_slots().contains(x) {
                let j = choose|j: int| 0 <= j < ops.len() && #[trigger] ops[j].slots().contains(x);
                ops[j].lemma_done_holds_nothing(self);
            }
        }
        assert forall|x: usize| !self.held_nodes().contains(x) by {
            if self.held_nodes().contains(x) {
                let j = choose|j: int| 0 <= j < ops.len() && #[trigger] ops[j].nodes().contains(x);
                ops[j].lemma_done_holds_nothing(self);
            }
        }
    }

    /// Lets the operations take steps in the order that `schedule` gives: each
    /// entry picks the operation that makes its next step. Entries that pick
    /// no operation, or a finished one, are passed over.
    ///
    /// The result is the one that these steps lead to. Whatever the schedule,
    /// the container stays well formed, no operation loses what it relies on,
    /// the account of what is held stays right, and the payloads are
    /// conserved: what was there and what the pushes that have taken effect
    /// have added is what the pops that have taken effect have got and what
    /// is there now.
    pub fn run<F: Fn(&T) -> bool>(
        &mut self,
        ops: &mut Vec<QueueOp<T>>,
        schedule: &Vec<usize>,
        condition: &F,
    )
        requires
            old(self).runs(old(ops)@),
            forall|payload: &T| call_requires(*condition, (payload,)),
        ensures
            exists|opss: Seq<Seq<QueueOp<T>>>, states: Seq<Self>|
                #[trigger] Self::trace(old(ops)@, *old(self), schedule@, opss, states)
                    && opss.last() == final(ops)@ && states.last() == *final(self),
            final(self).runs(final(ops)@),
            old(self).accounts(old(ops)@) ==> final(self).accounts(final(ops)@),
            Self::follows(old(ops)@, final(ops)@),
            conserved(old(self)@, QueueOp::effects(old(ops)@, final(ops)@), final(self)@),
            forall|j: int|
                0 <= j < old(ops)@.len() ==> Self::asked(
                    #[trigger] old(ops)@[j],
                    final(ops)@[j],
                    *condition,
                ),
    {
        proof {
            lemma_conserved_start(self@, QueueOp::effects(ops@, ops@));
        }
        let ghost mut opss: Seq<Seq<QueueOp<T>>> = seq![ops@];
        let ghost mut states: Seq<Self> = seq![*self];
        let mut turn: usize = 0;
        while turn < schedule.len()
            invariant
                turn <= schedule.len(),
                opss.len() == turn + 1,
                states.len() == turn + 1,
                opss[0] == old(ops)@,
                states[0] == *old(self),
                opss.last() == ops@,
                states.last() == *self,
                forall|i: int|
                    0 <= i < turn ==> Self::turn(
                        #[trigger] opss[i],
                        states[i],
                        schedule@[i],
                        opss[i + 1],
                        states[i + 1],
                    ),
                self.runs(ops@),
                old(self).accounts(old(ops)@) ==> self.accounts(ops@),
                Self::follows(old(ops)@, ops@),
                conserved(old(self)@, QueueOp::effects(old(ops)@, ops@), self@),
                forall|payload: &T| call_requires(*condition, (payload,)),
                forall|j: int|
                    0 <= j < old(ops)@.len() ==> Self::asked(
                        #[trigger] old(ops)@[j],
                        ops@[j],
                        *condition,
                    ),
            decreases schedule.len() - turn,
        {
            let pick = schedule[turn];
            let ghost before = ops@;
            let ghost queue0 = *self;
            if pick < ops.len() && !ops[pick].is_done() {
                if ops[pick].is_testing() {
                    ops[pick].test(self, condition);
                } else {
                    ops[pick].step(self);
                }
                proof {
                    let at = pick as int;
                    let first = old(ops)@;
                    assert(ops@ =~= before.update(at, ops@[at]));

                    QueueOp::lemma_step_keeps_all(before, at, queue0, ops@[at], *self);
                    if old(self).accounts(first) {
                        Self::lemma_accounts_kept(before, at, queue0, ops@[at], *self);
                    }
                    let effects0 = QueueOp::effects(first, before);
                    let effects1 = QueueOp::effects(first, ops@);
                    let step = QueueOp::effect(before[at], ops@[at]);
                    if before[at].pending() && !ops@[at].pending() {
                        assert(effects0[at] is Nothing);
                        assert(effects1 =~= effects0.update(at, step));
                        lemma_conserved_step(old(self)@, effects0, queue0@, at, step, self@);
                    } else {
                        assert(effects1 =~= effects0);
                    }

                }
            }
            proof {
                assert(Self::turn(before, queue0, pick, ops@, *self));
                opss = opss.push(ops@);
                states = states.push(*self);
            }
            turn += 1;
        }
        proof {
            assert(Self::trace(old(ops)@, *old(self), schedule@, opss, states));
        }
    }
}

} // verus!
