//! Treiber's stack: one shared pointer to a singly linked list of nodes.
use crate::arena::Arena;
use crate::atomic::{AtomicWord, MemoryOrder};
use crate::contents::{
    conserved, lemma_conserved_start, lemma_conserved_step, lemma_lifo_conserves, lifo, pops, pushes,
    taking, Effect,
};
use crate::hazard::{HazardHandle, HazardRegistry};
use vstd::prelude::*;

verus! {

/// One payload and the address of the node below.
pub struct Node<T> {
    data: Option<T>,
    next: AtomicWord,
}

/// A last-in, first-out container. Its view lists the payloads from the top.
///
/// A node is in exactly one place: in the list, with an operation that has
/// made it and not linked it yet or has unlinked it and not retired it yet, or
/// with the registry, retired.
pub struct TreiberStack<T> {
    head: AtomicWord,
    memory: Arena<Node<T>>,
    hazards: HazardRegistry,
    chain: Ghost<Seq<usize>>,
    fresh: Ghost<Set<usize>>,
    unlinked: Ghost<Set<usize>>,
}

impl<T> View for TreiberStack<T> {
    type V = Seq<T>;

    closed spec fn view(&self) -> Seq<T> {
        Seq::new(self.chain@.len(), |i: int| self.memory@[self.chain@[i]].data.unwrap())
    }
}

impl<T> TreiberStack<T> {
    /// The node at position `i` of the list is live, holds a payload and
    /// points to the node at the next position.
    closed spec fn link_ok(&self, i: int) -> bool {
        &&& self.memory.is_live(self.chain@[i])
        &&& self.memory@[self.chain@[i]].data.is_some()
        &&& self.memory@[self.chain@[i]].next@ == if i + 1 < self.chain@.len() {
            self.chain@[i + 1]
        } else {
            crate::NULL
        }
    }

    closed spec fn linked(&self) -> bool {
        &&& self.chain@.no_duplicates()
        &&& self.head@ == if self.chain@.len() > 0 {
            self.chain@[0]
        } else {
            crate::NULL
        }
        &&& forall|i: int| 0 <= i < self.chain@.len() ==> #[trigger] self.link_ok(i)
    }

    /// The cell at `a` is live if and only if it is in one of the four places,
    /// and it is in one place at most.
    closed spec fn place_ok(&self, a: usize) -> bool {
        let linked = self.chain@.contains(a);
        let retired = self.hazards@.retired.contains(a);
        let fresh = self.fresh@.contains(a);
        let unlinked = self.unlinked@.contains(a);
        &&& self.memory.is_live(a) <==> linked || retired || fresh || unlinked
        &&& !(linked && retired)
        &&& !(linked && fresh)
        &&& !(linked && unlinked)
        &&& !(retired && fresh)
        &&& !(retired && unlinked)
        &&& !(fresh && unlinked)
    }

    closed spec fn placed(&self) -> bool {
        forall|a: usize| #[trigger] self.place_ok(a)
    }

    /// The list is well linked, and every live node is in one place. What a
    /// slot publishes need not be live: an operation relies on a published
    /// address only once it has found the head still pointing there.
    pub closed spec fn wf(&self) -> bool {
        &&& self.memory.wf()
        &&& self.hazards.wf()
        &&& self.hazards.guards(&self.memory)
        &&& self.linked()
        &&& self.placed()
    }

    /// The slots that operations in progress have reserved.
    pub closed spec fn reserved_slots(&self) -> Set<int> {
        self.hazards@.slots.dom()
    }

    /// The nodes that operations in progress hold: made and not yet linked, or
    /// unlinked and not yet retired.
    pub closed spec fn held_nodes(&self) -> Set<usize> {
        self.fresh@.union(self.unlinked@)
    }

    /// No operation is in progress.
    pub open spec fn quiet(&self) -> bool {
        self.reserved_slots() =~= Set::<int>::empty() && self.held_nodes() =~= Set::<
            usize,
        >::empty()
    }

    /// No node is live.
    pub closed spec fn vacant(&self) -> bool {
        self.memory@.dom() =~= Set::<usize>::empty()
    }

    /// Creates a new, empty stack.
    pub fn new() -> (stack: TreiberStack<T>)
        ensures
            stack.wf(),
            stack@ == Seq::<T>::empty(),
            stack.quiet(),
            stack.vacant(),
    {
        let stack = TreiberStack {
            head: AtomicWord::new(crate::NULL),
            memory: Arena::new(),
            hazards: HazardRegistry::new(),
            chain: Ghost(Seq::empty()),
            fresh: Ghost(Set::empty()),
            unlinked: Ghost(Set::empty()),
        };
        assert(stack@ =~= Seq::<T>::empty());
        assert forall|a: usize| #[trigger] stack.place_ok(a) by {
            if stack.hazards@.protects(a) {
                let k = choose|k: int| stack.hazards@.slots.dom().contains(k);
            }
        }
        stack
    }

    /// Returns `true` if the stack is empty.
    pub fn is_empty(&self) -> (empty: bool)
        requires
            self.wf(),
        ensures
            empty == (self@.len() == 0),
    {
        proof {
            self.memory.lemma_null_is_not_live();
            if self.chain@.len() > 0 {
                assert(self.link_ok(0));
            }
        }
        self.head.load(MemoryOrder::Acquire) == crate::NULL
    }

    /// Whether the stack holds no node at all, in the list or out of it.
    pub fn is_vacant(&self) -> (vacant: bool)
        requires
            self.wf(),
        ensures
            vacant == self.vacant(),
    {
        self.memory.is_vacant()
    }
}

/// Where an operation on the stack stands: the access that its next step makes.
#[derive(Clone, Copy, Debug, PartialEq, Eq, Structural)]
pub enum StackPhase {
    /// Push: load the head and store it as the successor of the new node.
    PushLoad,
    /// Push: swing the head from the loaded address to the new node.
    PushLink,
    /// Pop: reserve a protection slot.
    PopReserve,
    /// Pop: load the head.
    PopLoad,
    /// Pop: publish the loaded address.
    PopPublish,
    /// Pop: load the head again and compare: if it still points to the
    /// published address, the node is protected from now on.
    PopValidate,
    /// Pop: read the successor of the protected node.
    PopReadNext,
    /// Pop: swing the head from the protected node to its successor.
    PopUnlink,
    /// Pop: move the payload out of the unlinked node.
    PopTake,
    /// Pop: retire the unlinked node.
    PopRetire,
    /// Pop: give the protection slot back.
    PopRelease,
    Done,
}

impl StackPhase {
    /// The order of the steps: from this access, `next` can be the access that
    /// follows. A step that has lost a race leads back to the load with which the
    /// attempt began.
    pub open spec fn succeeds(self, next: StackPhase) -> bool {
        match self {
            StackPhase::PushLoad => next == StackPhase::PushLink,
            StackPhase::PushLink => next == StackPhase::Done || next == StackPhase::PushLoad,
            StackPhase::PopReserve => next == StackPhase::PopLoad,
            StackPhase::PopLoad => next == StackPhase::PopPublish || next == StackPhase::PopRelease,
            StackPhase::PopPublish => next == StackPhase::PopValidate,
            StackPhase::PopValidate => next == StackPhase::PopReadNext || next == StackPhase::PopLoad,
            StackPhase::PopReadNext => next == StackPhase::PopUnlink,
            StackPhase::PopUnlink => next == StackPhase::PopTake || next == StackPhase::PopLoad,
            StackPhase::PopTake => next == StackPhase::PopRetire,
            StackPhase::PopRetire => next == StackPhase::PopRelease,
            StackPhase::PopRelease => next == StackPhase::Done,
            StackPhase::Done => false,
        }
    }
}

/// One push or pop in progress. Each call of [`StackOp::step`] makes one access
/// to the stack; steps of several operations can be mixed in any order.
pub struct StackOp<T> {
    push: bool,
    phase: StackPhase,
    handle: Option<HazardHandle>,
    node: usize,
    next: usize,
    result: Option<T>,
    argument: Ghost<Option<T>>,
    expected: Ghost<Option<T>>,
}

impl<T> StackOp<T> {
    /// The operation is a push, not a pop.
    pub closed spec fn is_push(&self) -> bool {
        self.push
    }

    /// The payload that a push is to add.
    pub closed spec fn argument(&self) -> T {
        self.argument@.unwrap()
    }

    /// The operation has not taken effect on the contents yet.
    pub closed spec fn pending(&self) -> bool {
        match self.phase {
            StackPhase::PushLoad
            | StackPhase::PushLink
            | StackPhase::PopReserve
            | StackPhase::PopLoad
            | StackPhase::PopPublish
            | StackPhase::PopValidate
            | StackPhase::PopReadNext
            | StackPhase::PopUnlink => true,
            _ => false,
        }
    }

    /// The operation has made its last step.
    pub closed spec fn done(&self) -> bool {
        self.phase == StackPhase::Done
    }

    /// What a pop that has taken effect returns.
    pub closed spec fn outcome(&self) -> Option<T> {
        match self.phase {
            StackPhase::PopTake => self.expected@,
            _ => self.result,
        }
    }

    /// The protection slots that the operation has reserved.
    pub closed spec fn slots(&self) -> Set<int> {
        match self.handle {
            Some(handle) => set![handle.id()],
            None => Set::empty(),
        }
    }

    /// The nodes that the operation holds outside the list.
    pub closed spec fn nodes(&self) -> Set<usize> {
        match self.phase {
            StackPhase::PushLoad
            | StackPhase::PushLink
            | StackPhase::PopTake
            | StackPhase::PopRetire => set![self.node],
            _ => Set::empty(),
        }
    }

    /// The two operations share no slot and no node.
    pub open spec fn apart(&self, other: &Self) -> bool {
        self.slots().disjoint(other.slots()) && self.nodes().disjoint(other.nodes())
    }

    /// A bound on the steps that the operation still takes if no other operation
    /// takes a step in between.
    pub closed spec fn fuel(&self, stack: &TreiberStack<T>) -> nat {
        let current = stack.head@ == if self.push {
            self.next
        } else {
            self.node
        };
        match self.phase {
            StackPhase::Done => 0,
            StackPhase::PushLoad => 2,
            StackPhase::PushLink => if current {
                1
            } else {
                3
            },
            StackPhase::PopRelease => 1,
            StackPhase::PopRetire => 2,
            StackPhase::PopTake => 3,
            StackPhase::PopUnlink => if current {
                4
            } else {
                9
            },
            StackPhase::PopReadNext => if current {
                5
            } else {
                10
            },
            StackPhase::PopValidate => if current {
                6
            } else {
                9
            },
            StackPhase::PopPublish => if current {
                7
            } else {
                10
            },
            StackPhase::PopLoad => 8,
            StackPhase::PopReserve => 9,
        }
    }

    /// The slot of the operation publishes the address that it has loaded.
    spec fn publishing(&self, stack: &TreiberStack<T>) -> bool {
        &&& self.handle.is_some()
        &&& stack.hazards@.slots.dom().contains(self.handle.unwrap().id())
        &&& stack.hazards@.slots[self.handle.unwrap().id()] == self.node
        &&& self.node != crate::NULL
    }

    /// The slot of the operation publishes the address of a live node that was
    /// linked once: the node cannot be destroyed.
    spec fn protecting(&self, stack: &TreiberStack<T>) -> bool {
        &&& self.publishing(stack)
        &&& stack.memory.is_live(self.node)
        &&& !stack.fresh@.contains(self.node)
    }

    /// What the operation relies on between its steps.
    pub closed spec fn inv(&self, stack: &TreiberStack<T>) -> bool {
        match self.phase {
            StackPhase::PushLoad => {
                &&& self.push
                &&& self.handle.is_none()
                &&& stack.fresh@.contains(self.node)
                &&& self.argument@.is_some()
                &&& stack.memory@[self.node].data == self.argument@
            },
            StackPhase::PushLink => {
                &&& self.push
                &&& self.handle.is_none()
                &&& stack.fresh@.contains(self.node)
                &&& self.argument@.is_some()
                &&& stack.memory@[self.node].data == self.argument@
                &&& stack.memory@[self.node].next@ == self.next
            },
            StackPhase::PopReserve => !self.push && self.handle.is_none(),
            StackPhase::PopLoad => {
                &&& !self.push
                &&& self.handle.is_some()
                &&& stack.hazards@.slots.dom().contains(self.handle.unwrap().id())
            },
            StackPhase::PopPublish => {
                &&& !self.push
                &&& self.handle.is_some()
                &&& stack.hazards@.slots.dom().contains(self.handle.unwrap().id())
                &&& self.node != crate::NULL
            },
            StackPhase::PopValidate => !self.push && self.publishing(stack),
            StackPhase::PopReadNext => !self.push && self.protecting(stack),
            StackPhase::PopUnlink => {
                &&& !self.push
                &&& self.protecting(stack)
                &&& stack.memory@[self.node].next@ == self.next
            },
            StackPhase::PopTake => {
                &&& !self.push
                &&& self.protecting(stack)
                &&& stack.unlinked@.contains(self.node)
                &&& self.expected@.is_some()
                &&& stack.memory@[self.node].data == self.expected@
            },
            StackPhase::PopRetire => {
                &&& !self.push
                &&& self.protecting(stack)
                &&& stack.unlinked@.contains(self.node)
            },
            StackPhase::PopRelease => {
                &&& !self.push
                &&& self.handle.is_some()
                &&& stack.hazards@.slots.dom().contains(self.handle.unwrap().id())
            },
            StackPhase::Done => self.handle.is_none(),
        }
    }

    /// What the step from `before` to `after` does to the contents: the effect
    /// of the operation, in the step in which it takes effect.
    pub open spec fn effect(before: Self, after: Self) -> Effect<T> {
        if before.pending() && !after.pending() {
            if before.is_push() {
                Effect::Pushed(before.argument())
            } else {
                taking(after.outcome())
            }
        } else {
            Effect::Nothing
        }
    }

    /// What one step of `before` on `stack0` has made of both.
    ///
    /// The contents change once, when the operation takes effect, and as the
    /// operation run alone would change them. Every other operation in progress,
    /// `o`, keeps what it relies on.
    pub open spec fn advances(
        before: Self,
        stack0: TreiberStack<T>,
        after: Self,
        stack1: TreiberStack<T>,
    ) -> bool {
        &&& stack1.wf()
        &&& after.inv(&stack1)
        &&& before.stage().succeeds(after.stage())
        &&& after.is_push() == before.is_push()
        &&& after.argument() == before.argument()
        &&& after.fuel(&stack1) < before.fuel(&stack0)
        &&& lifo(Self::effect(before, after), stack0@, stack1@)
        &&& after.pending() ==> before.pending()
        &&& !before.pending() ==> after.outcome() == before.outcome()
        &&& stack1.reserved_slots() =~= stack0.reserved_slots().difference(before.slots()).union(
            after.slots(),
        )
        &&& stack1.held_nodes() =~= stack0.held_nodes().difference(before.nodes()).union(
            after.nodes(),
        )
        &&& forall|o: Self| #[trigger]
            o.inv(&stack0) && o.apart(&before) ==> o.inv(&stack1) && o.apart(&after)
    }

    /// Starts a push of `value`: makes the node.
    pub fn push(stack: &mut TreiberStack<T>, value: T) -> (op: StackOp<T>)
        requires
            old(stack).wf(),
        ensures
            final(stack).wf(),
            op.inv(final(stack)),
            op.is_push(),
            op.pending(),
            op.argument() == value,
            final(stack)@ == old(stack)@,
            final(stack).reserved_slots() =~= old(stack).reserved_slots().union(op.slots()),
            final(stack).held_nodes() =~= old(stack).held_nodes().union(op.nodes()),
            forall|o: Self| #[trigger] o.inv(old(stack)) ==> o.inv(final(stack)) && o.apart(&op),
    {
        let node = stack.memory.allocate(
            Node { data: Some(value), next: AtomicWord::new(crate::NULL) },
        );
        proof {
            stack.fresh@ = stack.fresh@.insert(node);
        }
        let op = StackOp {
            push: true,
            phase: StackPhase::PushLoad,
            handle: None,
            node,
            next: crate::NULL,
            result: None,
            argument: Ghost(Some(value)),
            expected: Ghost(None),
        };
        proof {
            Self::lemma_started(*old(stack), *stack, op);
        }
        op
    }

    proof fn lemma_started(stack0: TreiberStack<T>, stack1: TreiberStack<T>, op: Self)
        requires
            stack0.wf(),
            stack1.memory.wf(),
            op.phase == StackPhase::PushLoad,
            op.push,
            op.handle.is_none(),
            op.argument@.is_some(),
            op.node != crate::NULL,
            !stack0.memory.is_live(op.node),
            stack1.memory@.dom() == stack0.memory@.dom().insert(op.node),
            stack1.memory@[op.node].data == op.argument@,
            forall|a: usize|
                stack0.memory.is_live(a) ==> #[trigger] stack1.memory@[a] == stack0.memory@[a],
            stack1.fresh@ == stack0.fresh@.insert(op.node),
            stack1.head == stack0.head,
            stack1.hazards == stack0.hazards,
            stack1.chain == stack0.chain,
            stack1.unlinked == stack0.unlinked,
        ensures
            stack1.wf(),
            op.inv(&stack1),
            stack1@ == stack0@,
            stack1.reserved_slots() =~= stack0.reserved_slots().union(op.slots()),
            stack1.held_nodes() =~= stack0.held_nodes().union(op.nodes()),
            forall|o: Self| #[trigger] o.inv(&stack0) ==> o.inv(&stack1) && o.apart(&op),
    {
        assert forall|i: int| 0 <= i < stack1.chain@.len() implies #[trigger] stack1.link_ok(
            i,
        ) by {
            assert(stack0.link_ok(i));
        }
        assert forall|a: usize| #[trigger] stack1.place_ok(a) by {
            assert(stack0.place_ok(a));
        }
        assert(stack1@ =~= stack0@) by {
            assert forall|i: int| 0 <= i < stack0.chain@.len() implies stack1@[i] == stack0@[i] by {
                assert(stack0.link_ok(i));
            }
        }
        assert(stack1.hazards.guards(&stack1.memory)) by {
            assert forall|a: usize| stack1.hazards@.retired.contains(a) implies stack1.memory.is_live(
                a,
            ) by {
                assert(stack0.memory.is_live(a));
            }
        }
        assert(stack0.place_ok(op.node));
        assert forall|o: Self| #[trigger] o.inv(&stack0) implies o.inv(&stack1) && o.apart(
            &op,
        ) by {
            assert(stack0.place_ok(o.node));
            Self::lemma_kept(stack0, stack1, o);
        }
    }

    /// An operation keeps what it relies on when its slots, the nodes that it
    /// holds and the successor of the node that it protects stay as they are.
    proof fn lemma_kept(stack0: TreiberStack<T>, stack1: TreiberStack<T>, o: Self)
        requires
            stack0.wf(),
            o.inv(&stack0),
            o.handle.is_some() && stack0.hazards@.slots.dom().contains(o.handle.unwrap().id())
                ==> stack1.hazards@.slots.dom().contains(o.handle.unwrap().id())
                && stack1.hazards@.slots[o.handle.unwrap().id()]
                == stack0.hazards@.slots[o.handle.unwrap().id()],
            o.nodes().contains(o.node) ==> {
                &&& stack0.fresh@.contains(o.node) ==> stack1.fresh@.contains(o.node)
                    && stack1.memory@[o.node] == stack0.memory@[o.node]
                &&& stack0.unlinked@.contains(o.node) ==> stack1.unlinked@.contains(o.node)
                    && stack1.memory@[o.node] == stack0.memory@[o.node]
            },
            o.protecting(&stack0) ==> stack1.memory.is_live(o.node) && !stack1.fresh@.contains(
                o.node,
            ) && stack1.memory@[o.node].next == stack0.memory@[o.node].next,
        ensures
            o.inv(&stack1),
    {
        assert(stack0.place_ok(o.node));
    }

    /// The registry counts the node that an operation protects as published.
    proof fn lemma_protected(&self, stack: &TreiberStack<T>)
        requires
            stack.wf(),
            self.protecting(stack),
        ensures
            stack.hazards@.protects(self.node),
            stack.memory.is_live(self.node),
            !stack.fresh@.contains(self.node),
    {
        let k = self.handle.unwrap().id();
        assert(stack.hazards@.slots.dom().contains(k) && stack.hazards@.slots[k] == self.node);
    }

    fn push_load(&mut self, stack: &mut TreiberStack<T>)
        requires
            old(self).phase == StackPhase::PushLoad,
            old(stack).wf(),
            old(self).inv(old(stack)),
        ensures
            Self::advances(*old(self), *old(stack), *final(self), *final(stack)),
    {
        let head = stack.head.load(MemoryOrder::Relaxed);
        proof {
            assert(stack.place_ok(self.node));
        }
        let node = stack.memory.get_mut(self.node);
        node.next.store(head, MemoryOrder::Relaxed);
        self.next = head;
        self.phase = StackPhase::PushLink;
        proof {
            Self::lemma_push_loaded(*old(self), *old(stack), *self, *stack);
        }
    }

    proof fn lemma_push_loaded(
        before: Self,
        stack0: TreiberStack<T>,
        after: Self,
        stack1: TreiberStack<T>,
    )
        requires
            stack0.wf(),
            before.inv(&stack0),
            before.phase == StackPhase::PushLoad,
            after.phase == StackPhase::PushLink,
            after.push == before.push,
            after.handle == before.handle,
            after.node == before.node,
            after.argument == before.argument,
            after.next == stack0.head@,
            stack1.memory.wf(),
            stack1.memory@.dom() =~= stack0.memory@.dom(),
            stack1.memory@[before.node].data == stack0.memory@[before.node].data,
            stack1.memory@[before.node].next@ == after.next,
            forall|a: usize|
                a != before.node ==> #[trigger] stack1.memory@[a] == stack0.memory@[a],
            stack1.head == stack0.head,
            stack1.hazards == stack0.hazards,
            stack1.chain == stack0.chain,
            stack1.fresh == stack0.fresh,
            stack1.unlinked == stack0.unlinked,
        ensures
            Self::advances(before, stack0, after, stack1),
    {
        assert(stack0.place_ok(before.node));
        assert forall|a: usize| #[trigger]
            stack1.hazards@.retired.contains(a) implies stack1.memory.is_live(a) by {
            assert(stack0.memory.is_live(a));
        }
        assert forall|i: int| 0 <= i < stack1.chain@.len() implies #[trigger] stack1.link_ok(
            i,
        ) by {
            assert(stack0.link_ok(i));
        }
        assert forall|a: usize| #[trigger] stack1.place_ok(a) by {
            assert(stack0.place_ok(a));
        }
        assert(stack1@ =~= stack0@) by {
            assert forall|i: int| 0 <= i < stack0.chain@.len() implies stack1@[i] == stack0@[i] by {
                assert(stack0.link_ok(i));
            }
        }
        assert forall|o: Self| #[trigger] o.inv(&stack0) && o.apart(&before) implies o.inv(&stack1)
            && o.apart(&after) by {
            assert(stack0.place_ok(o.node));
            Self::lemma_kept(stack0, stack1, o);
        }
    }

    fn push_link(&mut self, stack: &mut TreiberStack<T>)
        requires
            old(self).phase == StackPhase::PushLink,
            old(stack).wf(),
            old(self).inv(old(stack)),
        ensures
            Self::advances(*old(self), *old(stack), *final(self), *final(stack)),
    {
        match stack.head.compare_exchange(
            self.next,
            self.node,
            MemoryOrder::Release,
            MemoryOrder::Relaxed,
        ) {
            Ok(_) => {
                self.phase = StackPhase::Done;
                proof {
                    stack.chain@ = seq![self.node] + stack.chain@;
                    stack.fresh@ = stack.fresh@.remove(self.node);
                    Self::lemma_push_linked(*old(self), *old(stack), *self, *stack);
                }
            },
            Err(_) => {
                self.phase = StackPhase::PushLoad;
                proof {
                    assert forall|o: Self| #[trigger]
                        o.inv(old(stack)) && o.apart(old(self)) implies o.inv(stack) && o.apart(
                        self,
                    ) by {}
                }
            },
        }
    }

    proof fn lemma_push_linked(
        before: Self,
        stack0: TreiberStack<T>,
        after: Self,
        stack1: TreiberStack<T>,
    )
        requires
            stack0.wf(),
            before.inv(&stack0),
            before.phase == StackPhase::PushLink,
            after.phase == StackPhase::Done,
            after.push == before.push,
            after.handle == before.handle,
            after.node == before.node,
            after.argument == before.argument,
            stack0.head@ == before.next,
            stack1.head@ == before.node,
            stack1.memory == stack0.memory,
            stack1.hazards == stack0.hazards,
            stack1.chain@ == seq![before.node] + stack0.chain@,
            stack1.fresh@ == stack0.fresh@.remove(before.node),
            stack1.unlinked == stack0.unlinked,
        ensures
            Self::advances(before, stack0, after, stack1),
    {
        let node = before.node;
        assert(stack0.place_ok(node));
        assert forall|i: int| 0 <= i < stack1.chain@.len() implies #[trigger] stack1.link_ok(
            i,
        ) by {
            if i > 0 {
                assert(stack0.link_ok(i - 1));
                assert(stack1.chain@[i] == stack0.chain@[i - 1]);
            }
        }
        assert(stack1.chain@.no_duplicates()) by {
            assert forall|i: int, j: int|
                0 <= i < stack1.chain@.len() && 0 <= j < stack1.chain@.len() && i
                    != j implies stack1.chain@[i] != stack1.chain@[j] by {
                if i > 0 {
                    assert(stack0.chain@.contains(stack0.chain@[i - 1]));
                }
                if j > 0 {
                    assert(stack0.chain@.contains(stack0.chain@[j - 1]));
                }
            }
        }
        assert forall|a: usize| stack1.chain@.contains(a) <==> a == node
            || stack0.chain@.contains(a) by {
            if stack0.chain@.contains(a) {
                let i = choose|i: int| 0 <= i < stack0.chain@.len() && stack0.chain@[i] == a;
                assert(stack1.chain@[i + 1] == a);
            }
            if a == node {
                assert(stack1.chain@[0] == a);
            }
        }
        assert forall|a: usize| #[trigger] stack1.place_ok(a) by {
            assert(stack0.place_ok(a));
        }
        assert(stack1@ =~= seq![before.argument()] + stack0@);
        assert(stack1.held_nodes() =~= stack0.held_nodes().difference(before.nodes()).union(
            after.nodes(),
        ));
        assert forall|o: Self| #[trigger] o.inv(&stack0) && o.apart(&before) implies o.inv(&stack1)
            && o.apart(&after) by {
            assert(stack0.place_ok(o.node));
            if o.nodes().contains(o.node) {
                assert(before.nodes().contains(node));
                assert(o.node != node);
            }
            Self::lemma_kept(stack0, stack1, o);
        }
    }

    fn pop_reserve(&mut self, stack: &mut TreiberStack<T>)
        requires
            old(self).phase == StackPhase::PopReserve,
            old(stack).wf(),
            old(self).inv(old(stack)),
        ensures
            Self::advances(*old(self), *old(stack), *final(self), *final(stack)),
    {
        let handle = stack.hazards.allocate();
        self.handle = Some(handle);
        self.phase = StackPhase::PopLoad;
        proof {
            Self::lemma_pop_reserved(*old(self), *old(stack), *self, *stack);
        }
    }

    proof fn lemma_pop_reserved(
        before: Self,
        stack0: TreiberStack<T>,
        after: Self,
        stack1: TreiberStack<T>,
    )
        requires
            stack0.wf(),
            before.inv(&stack0),
            before.phase == StackPhase::PopReserve,
            after.phase == StackPhase::PopLoad,
            after.push == before.push,
            after.handle.is_some(),
            after.node == before.node,
            after.argument == before.argument,
            after.result == before.result,
            stack1.hazards.wf(),
            !stack0.hazards@.slots.dom().contains(after.handle.unwrap().id()),
            stack1.hazards@ == stack0.hazards@.with_slot(after.handle.unwrap().id(), crate::NULL),
            stack1.memory == stack0.memory,
            stack1.head == stack0.head,
            stack1.chain == stack0.chain,
            stack1.fresh == stack0.fresh,
            stack1.unlinked == stack0.unlinked,
        ensures
            Self::advances(before, stack0, after, stack1),
    {
        let k = after.handle.unwrap().id();
        assert forall|i: int| 0 <= i < stack1.chain@.len() implies #[trigger] stack1.link_ok(
            i,
        ) by {
            assert(stack0.link_ok(i));
        }
        assert forall|a: usize| #[trigger] stack1.place_ok(a) by {
            assert(stack0.place_ok(a));
            stack0.hazards@.lemma_protects(k, crate::NULL, a);
        }
        assert(stack1@ =~= stack0@);
        assert forall|o: Self| #[trigger] o.inv(&stack0) && o.apart(&before) implies o.inv(&stack1)
            && o.apart(&after) by {
            Self::lemma_kept(stack0, stack1, o);
        }
    }

    /// The stack after the registry has republished: `v` is what the registry
    /// held before it destroyed the cells that nothing publishes any more.
    proof fn lemma_settled(stack0: TreiberStack<T>, stack1: TreiberStack<T>, v: crate::hazard::RegistryView)
        requires
            stack0.wf(),
            v.retired == stack0.hazards@.retired,
            stack1.hazards.wf(),
            stack1.memory.wf(),
            stack1.hazards.guards(&stack1.memory),
            stack1.hazards@ == v.settled(),
            stack1.memory@ == stack0.memory@.remove_keys(v.released()),
            stack1.head == stack0.head,
            stack1.chain == stack0.chain,
            stack1.fresh == stack0.fresh,
            stack1.unlinked == stack0.unlinked,
        ensures
            stack1.wf(),
            stack1@ == stack0@,
            forall|a: usize|
                stack0.memory.is_live(a) && !(stack0.hazards@.retired.contains(a) && !v.protects(a))
                    ==> #[trigger] stack1.memory.is_live(a) && stack1.memory@[a]
                    == stack0.memory@[a],
    {
        assert forall|i: int| 0 <= i < stack1.chain@.len() implies #[trigger] stack1.link_ok(
            i,
        ) by {
            assert(stack0.link_ok(i));
            assert(stack0.place_ok(stack0.chain@[i]));
            assert(stack0.chain@.contains(stack0.chain@[i]));
            if i + 1 < stack0.chain@.len() {
                assert(stack0.chain@.contains(stack0.chain@[i + 1]));
            }
        }
        assert forall|a: usize| #[trigger] stack1.place_ok(a) by {
            assert(stack0.place_ok(a));
        }
        assert(stack1@ =~= stack0@) by {
            assert forall|i: int| 0 <= i < stack0.chain@.len() implies stack1@[i] == stack0@[i] by {
                assert(stack0.place_ok(stack0.chain@[i]));
                assert(stack0.chain@.contains(stack0.chain@[i]));
            }
        }
    }

    fn pop_load(&mut self, stack: &mut TreiberStack<T>)
        requires
            old(self).phase == StackPhase::PopLoad,
            old(stack).wf(),
            old(self).inv(old(stack)),
        ensures
            Self::advances(*old(self), *old(stack), *final(self), *final(stack)),
    {
        let head = stack.head.load(MemoryOrder::Acquire);
        if head == crate::NULL {
            self.result = None;
            self.phase = StackPhase::PopRelease;
            proof {
                stack.memory.lemma_null_is_not_live();
                if stack.chain@.len() > 0 {
                    assert(stack.link_ok(0));
                }
            }
        } else {
            self.node = head;
            self.phase = StackPhase::PopPublish;
        }
    }

    fn pop_publish(&mut self, stack: &mut TreiberStack<T>)
        requires
            old(self).phase == StackPhase::PopPublish,
            old(stack).wf(),
            old(self).inv(old(stack)),
        ensures
            Self::advances(*old(self), *old(stack), *final(self), *final(stack)),
    {
        if let Some(handle) = &self.handle {
            stack.hazards.publish(handle, self.node, &mut stack.memory);
        }
        self.phase = StackPhase::PopValidate;
        proof {
            Self::lemma_pop_published(*old(self), *old(stack), *self, *stack);
        }
    }

    proof fn lemma_pop_published(
        before: Self,
        stack0: TreiberStack<T>,
        after: Self,
        stack1: TreiberStack<T>,
    )
        requires
            stack0.wf(),
            before.inv(&stack0),
            before.phase == StackPhase::PopPublish,
            after.phase == StackPhase::PopValidate,
            after.push == before.push,
            after.handle == before.handle,
            after.node == before.node,
            after.argument == before.argument,
            after.result == before.result,
            stack1.hazards.wf(),
            stack1.memory.wf(),
            stack1.hazards.guards(&stack1.memory),
            stack1.hazards@ == stack0.hazards@.with_slot(
                before.handle.unwrap().id(),
                before.node,
            ).settled(),
            stack1.memory@ == stack0.memory@.remove_keys(
                stack0.hazards@.with_slot(before.handle.unwrap().id(), before.node).released(),
            ),
            stack1.head == stack0.head,
            stack1.chain == stack0.chain,
            stack1.fresh == stack0.fresh,
            stack1.unlinked == stack0.unlinked,
        ensures
            Self::advances(before, stack0, after, stack1),
    {
        let k = before.handle.unwrap().id();
        let v = stack0.hazards@.with_slot(k, before.node);
        Self::lemma_settled(stack0, stack1, v);
        assert(stack1.hazards@.slots.dom().contains(k) && stack1.hazards@.slots[k] == before.node);
        assert(stack1.reserved_slots() =~= stack0.reserved_slots().difference(
            before.slots(),
        ).union(after.slots()));
        assert forall|o: Self| #[trigger] o.inv(&stack0) && o.apart(&before) implies o.inv(&stack1)
            && o.apart(&after) by {
            Self::lemma_apart_kept(stack0, stack1, v, k, o);
        }
    }

    fn pop_validate(&mut self, stack: &mut TreiberStack<T>)
        requires
            old(self).phase == StackPhase::PopValidate,
            old(stack).wf(),
            old(self).inv(old(stack)),
        ensures
            Self::advances(*old(self), *old(stack), *final(self), *final(stack)),
    {
        let head = stack.head.load(MemoryOrder::Acquire);
        if head == self.node {
            self.phase = StackPhase::PopReadNext;
            proof {
                assert(stack.link_ok(0));
                assert(stack.chain@.contains(stack.chain@[0]));
                assert(stack.place_ok(self.node));
            }
        } else {
            self.phase = StackPhase::PopLoad;
        }
    }

    /// Another operation keeps what it relies on when the registry republishes
    /// for slot `k`, which is not one of its own.
    proof fn lemma_apart_kept(
        stack0: TreiberStack<T>,
        stack1: TreiberStack<T>,
        v: crate::hazard::RegistryView,
        k: int,
        o: Self,
    )
        requires
            stack0.wf(),
            o.inv(&stack0),
            !o.slots().contains(k),
            forall|j: int|
                j != k && #[trigger] stack0.hazards@.slots.dom().contains(j) ==> v.slots.dom().contains(
                    j,
                ) && v.slots[j] == stack0.hazards@.slots[j],
            stack1.hazards@.slots == v.slots,
            forall|a: usize|
                stack0.memory.is_live(a) && !(stack0.hazards@.retired.contains(a) && !v.protects(a))
                    ==> #[trigger] stack1.memory.is_live(a) && stack1.memory@[a]
                    == stack0.memory@[a],
            stack1.fresh == stack0.fresh,
            stack1.unlinked == stack0.unlinked,
        ensures
            o.inv(&stack1),
    {
        assert(stack0.place_ok(o.node));
        if o.protecting(&stack0) {
            let j = o.handle.unwrap().id();
            assert(o.slots().contains(j));
            assert(v.slots.dom().contains(j) && v.slots[j] == o.node);
            assert(v.protects(o.node));
            o.lemma_protected(&stack0);
            assert(stack1.memory.is_live(o.node));
        }
        if o.handle.is_some() {
            assert(o.slots().contains(o.handle.unwrap().id()));
        }
        if o.nodes().contains(o.node) {
            assert(stack1.memory.is_live(o.node));
        }
        Self::lemma_kept(stack0, stack1, o);
    }

    fn pop_read_next(&mut self, stack: &mut TreiberStack<T>)
        requires
            old(self).phase == StackPhase::PopReadNext,
            old(stack).wf(),
            old(self).inv(old(stack)),
        ensures
            Self::advances(*old(self), *old(stack), *final(self), *final(stack)),
    {
        proof {
            self.lemma_protected(stack);
        }
        self.next = stack.memory.get(self.node).next.load(MemoryOrder::Relaxed);
        self.phase = StackPhase::PopUnlink;
    }

    fn pop_unlink(&mut self, stack: &mut TreiberStack<T>)
        requires
            old(self).phase == StackPhase::PopUnlink,
            old(stack).wf(),
            old(self).inv(old(stack)),
        ensures
            Self::advances(*old(self), *old(stack), *final(self), *final(stack)),
    {
        proof {
            self.lemma_protected(stack);
        }
        match stack.head.compare_exchange(
            self.node,
            self.next,
            MemoryOrder::Release,
            MemoryOrder::Relaxed,
        ) {
            Ok(_) => {
                self.phase = StackPhase::PopTake;
                proof {
                    self.expected@ = stack.memory@[self.node].data;
                    stack.chain@ = stack.chain@.skip(1);
                    stack.unlinked@ = stack.unlinked@.insert(self.node);
                    Self::lemma_pop_unlinked(*old(self), *old(stack), *self, *stack);
                }
            },
            Err(_) => {
                self.phase = StackPhase::PopLoad;
            },
        }
    }

    proof fn lemma_pop_unlinked(
        before: Self,
        stack0: TreiberStack<T>,
        after: Self,
        stack1: TreiberStack<T>,
    )
        requires
            stack0.wf(),
            before.inv(&stack0),
            before.phase == StackPhase::PopUnlink,
            after.phase == StackPhase::PopTake,
            after.push == before.push,
            after.handle == before.handle,
            after.node == before.node,
            after.argument == before.argument,
            after.expected@ == stack0.memory@[before.node].data,
            stack0.head@ == before.node,
            stack1.head@ == before.next,
            stack1.memory == stack0.memory,
            stack1.hazards == stack0.hazards,
            stack1.chain@ == stack0.chain@.skip(1),
            stack1.fresh == stack0.fresh,
            stack1.unlinked@ == stack0.unlinked@.insert(before.node),
        ensures
            Self::advances(before, stack0, after, stack1),
    {
        let node = before.node;
        before.lemma_protected(&stack0);
        assert(stack0.place_ok(node));
        if stack0.chain@.len() == 0 {
            assert(false);
        }
        assert(stack0.link_ok(0));
        assert(stack0.chain@[0] == node);
        assert forall|a: usize| #[trigger]
            stack1.hazards@.retired.contains(a) implies stack1.memory.is_live(a) by {
            assert(stack0.memory.is_live(a));
        }
        assert forall|a: usize| stack1.chain@.contains(a) <==> a != node
            && stack0.chain@.contains(a) by {
            if stack1.chain@.contains(a) {
                let i = choose|i: int| 0 <= i < stack1.chain@.len() && stack1.chain@[i] == a;
                assert(stack0.chain@[i + 1] == a);
            }
            if a != node && stack0.chain@.contains(a) {
                let i = choose|i: int| 0 <= i < stack0.chain@.len() && stack0.chain@[i] == a;
                assert(stack1.chain@[i - 1] == a);
            }
        }
        assert forall|i: int| 0 <= i < stack1.chain@.len() implies #[trigger] stack1.link_ok(
            i,
        ) by {
            assert(stack0.link_ok(i + 1));
            assert(stack1.chain@[i] == stack0.chain@[i + 1]);
            assert(stack1.chain@.contains(stack1.chain@[i]));
        }
        assert forall|a: usize| #[trigger] stack1.place_ok(a) by {
            assert(stack0.place_ok(a));
        }
        assert(stack1@ =~= stack0@.skip(1)) by {
            assert forall|i: int| 0 <= i < stack1.chain@.len() implies stack1@[i] == stack0@[i
                + 1] by {
                assert(stack1.chain@[i] == stack0.chain@[i + 1]);
                assert(stack1.chain@.contains(stack1.chain@[i]));
            }
        }
        assert(after.expected@ == Some(stack0@[0]));
        assert(stack1.held_nodes() =~= stack0.held_nodes().difference(before.nodes()).union(
            after.nodes(),
        ));
        assert forall|o: Self| #[trigger] o.inv(&stack0) && o.apart(&before) implies o.inv(&stack1)
            && o.apart(&after) by {
            assert(stack0.place_ok(o.node));
            Self::lemma_kept(stack0, stack1, o);
        }
    }

    fn pop_take(&mut self, stack: &mut TreiberStack<T>)
        requires
            old(self).phase == StackPhase::PopTake,
            old(stack).wf(),
            old(self).inv(old(stack)),
        ensures
            Self::advances(*old(self), *old(stack), *final(self), *final(stack)),
    {
        proof {
            self.lemma_protected(stack);
        }
        let node = stack.memory.get_mut(self.node);
        self.result = node.data.take();
        self.phase = StackPhase::PopRetire;
        proof {
            Self::lemma_pop_taken(*old(self), *old(stack), *self, *stack);
        }
    }

    proof fn lemma_pop_taken(
        before: Self,
        stack0: TreiberStack<T>,
        after: Self,
        stack1: TreiberStack<T>,
    )
        requires
            stack0.wf(),
            before.inv(&stack0),
            before.phase == StackPhase::PopTake,
            after.phase == StackPhase::PopRetire,
            after.push == before.push,
            after.handle == before.handle,
            after.node == before.node,
            after.argument == before.argument,
            after.result == stack0.memory@[before.node].data,
            stack1.head == stack0.head,
            stack1.memory.wf(),
            stack1.memory@.dom() =~= stack0.memory@.dom(),
            stack1.memory@[before.node].next == stack0.memory@[before.node].next,
            forall|a: usize|
                a != before.node ==> #[trigger] stack1.memory@[a] == stack0.memory@[a],
            stack1.hazards == stack0.hazards,
            stack1.chain == stack0.chain,
            stack1.fresh == stack0.fresh,
            stack1.unlinked == stack0.unlinked,
        ensures
            Self::advances(before, stack0, after, stack1),
    {
        let node = before.node;
        before.lemma_protected(&stack0);
        assert(stack0.place_ok(node));
        assert forall|a: usize| #[trigger]
            stack1.hazards@.retired.contains(a) implies stack1.memory.is_live(a) by {
            assert(stack0.memory.is_live(a));
        }
        assert forall|i: int| 0 <= i < stack1.chain@.len() implies #[trigger] stack1.link_ok(
            i,
        ) by {
            assert(stack0.link_ok(i));
            assert(stack0.chain@.contains(stack0.chain@[i]));
        }
        assert forall|a: usize| #[trigger] stack1.place_ok(a) by {
            assert(stack0.place_ok(a));
        }
        assert(stack1@ =~= stack0@) by {
            assert forall|i: int| 0 <= i < stack0.chain@.len() implies stack1@[i] == stack0@[i] by {
                assert(stack0.chain@.contains(stack0.chain@[i]));
            }
        }
        assert forall|o: Self| #[trigger] o.inv(&stack0) && o.apart(&before) implies o.inv(&stack1)
            && o.apart(&after) by {
            assert(stack0.place_ok(o.node));
            if o.nodes().contains(o.node) {
                assert(before.nodes().contains(node));
            }
            Self::lemma_kept(stack0, stack1, o);
        }
    }

    fn pop_retire(&mut self, stack: &mut TreiberStack<T>)
        requires
            old(self).phase == StackPhase::PopRetire,
            old(stack).wf(),
            old(self).inv(old(stack)),
        ensures
            Self::advances(*old(self), *old(stack), *final(self), *final(stack)),
    {
        proof {
            self.lemma_protected(stack);
            assert(stack.place_ok(self.node));
        }
        stack.hazards.retire(self.node, &mut stack.memory);
        self.phase = StackPhase::PopRelease;
        proof {
            stack.unlinked@ = stack.unlinked@.remove(self.node);
            Self::lemma_pop_retired(*old(self), *old(stack), *self, *stack);
        }
    }

    proof fn lemma_pop_retired(
        before: Self,
        stack0: TreiberStack<T>,
        after: Self,
        stack1: TreiberStack<T>,
    )
        requires
            stack0.wf(),
            before.inv(&stack0),
            before.phase == StackPhase::PopRetire,
            after.phase == StackPhase::PopRelease,
            after.push == before.push,
            after.handle == before.handle,
            after.node == before.node,
            after.argument == before.argument,
            after.result == before.result,
            stack1.hazards.wf(),
            stack1.memory.wf(),
            stack1.hazards.guards(&stack1.memory),
            stack1.hazards@ == stack0.hazards@.with_retired(before.node).settled(),
            stack1.memory@ == stack0.memory@.remove_keys(
                stack0.hazards@.with_retired(before.node).released(),
            ),
            stack1.head == stack0.head,
            stack1.chain == stack0.chain,
            stack1.fresh == stack0.fresh,
            stack1.unlinked@ == stack0.unlinked@.remove(before.node),
        ensures
            Self::advances(before, stack0, after, stack1),
    {
        let node = before.node;
        let v = stack0.hazards@.with_retired(node);
        before.lemma_protected(&stack0);
        assert(stack0.place_ok(node));
        assert forall|a: usize| !v.released().contains(a) by {
            if a != node && v.retired.contains(a) {
                stack0.hazards.lemma_retired_is_protected(a);
            }
        }
        assert(v.released() =~= Set::<usize>::empty());
        assert forall|a: usize| v.waiting().contains(a) <==> stack0.hazards@.retired.insert(
            node,
        ).contains(a) by {
            if a != node && stack0.hazards@.retired.contains(a) {
                stack0.hazards.lemma_retired_is_protected(a);
            }
        }
        assert(v.waiting() =~= stack0.hazards@.retired.insert(node));
        assert(stack1.memory@ =~= stack0.memory@);
        assert forall|i: int| 0 <= i < stack1.chain@.len() implies #[trigger] stack1.link_ok(
            i,
        ) by {
            assert(stack0.link_ok(i));
        }
        assert forall|a: usize| #[trigger] stack1.place_ok(a) by {
            assert(stack0.place_ok(a));
        }
        assert(stack1@ =~= stack0@);
        assert(stack1.held_nodes() =~= stack0.held_nodes().difference(before.nodes()).union(
            after.nodes(),
        ));
        assert forall|o: Self| #[trigger] o.inv(&stack0) && o.apart(&before) implies o.inv(&stack1)
            && o.apart(&after) by {
            assert(stack0.place_ok(o.node));
            if o.nodes().contains(o.node) {
                assert(before.nodes().contains(node));
            }
            Self::lemma_kept(stack0, stack1, o);
        }
    }

    fn pop_release(&mut self, stack: &mut TreiberStack<T>)
        requires
            old(self).phase == StackPhase::PopRelease,
            old(stack).wf(),
            old(self).inv(old(stack)),
        ensures
            Self::advances(*old(self), *old(stack), *final(self), *final(stack)),
    {
        if let Some(handle) = self.handle.take() {
            stack.hazards.free(handle, &mut stack.memory);
        }
        self.phase = StackPhase::Done;
        proof {
            Self::lemma_pop_released(*old(self), *old(stack), *self, *stack);
        }
    }

    proof fn lemma_pop_released(
        before: Self,
        stack0: TreiberStack<T>,
        after: Self,
        stack1: TreiberStack<T>,
    )
        requires
            stack0.wf(),
            before.inv(&stack0),
            before.phase == StackPhase::PopRelease,
            after.phase == StackPhase::Done,
            after.push == before.push,
            after.handle.is_none(),
            after.argument == before.argument,
            after.result == before.result,
            stack1.hazards.wf(),
            stack1.memory.wf(),
            stack1.hazards.guards(&stack1.memory),
            stack1.hazards@ == stack0.hazards@.without_slot(before.handle.unwrap().id()).settled(),
            stack1.memory@ == stack0.memory@.remove_keys(
                stack0.hazards@.without_slot(before.handle.unwrap().id()).released(),
            ),
            stack1.head == stack0.head,
            stack1.chain == stack0.chain,
            stack1.fresh == stack0.fresh,
            stack1.unlinked == stack0.unlinked,
        ensures
            Self::advances(before, stack0, after, stack1),
    {
        let k = before.handle.unwrap().id();
        let v = stack0.hazards@.without_slot(k);
        Self::lemma_settled(stack0, stack1, v);
        assert(stack1.reserved_slots() =~= stack0.reserved_slots().difference(
            before.slots(),
        ).union(after.slots()));
        assert forall|o: Self| #[trigger] o.inv(&stack0) && o.apart(&before) implies o.inv(&stack1)
            && o.apart(&after) by {
            assert(before.slots().contains(k));
            Self::lemma_apart_kept(stack0, stack1, v, k, o);
        }
    }

    /// Starts a pop. Nothing is accessed yet.
    pub fn pop(stack: &TreiberStack<T>) -> (op: StackOp<T>)
        ensures
            op.inv(stack),
            !op.is_push(),
            op.pending(),
            op.slots() =~= Set::<int>::empty(),
            op.nodes() =~= Set::<usize>::empty(),
    {
        StackOp {
            push: false,
            phase: StackPhase::PopReserve,
            handle: None,
            node: crate::NULL,
            next: crate::NULL,
            result: None,
            argument: Ghost(None),
            expected: Ghost(None),
        }
    }

    /// Whether the operation has made its last step.
    pub fn is_done(&self) -> (done: bool)
        ensures
            done == self.done(),
    {
        self.phase == StackPhase::Done
    }

    /// Where the operation stands: the access that its next step makes.
    pub closed spec fn stage(&self) -> StackPhase {
        self.phase
    }

    /// The access that the next step makes.
    pub fn phase(&self) -> (phase: StackPhase)
        ensures
            phase == self.stage(),
            (phase == StackPhase::Done) == self.done(),
    {
        self.phase
    }

    /// What the operation returns: for a pop the payload taken, if there was one.
    pub fn into_outcome(self) -> (outcome: Option<T>)
        requires
            self.done(),
        ensures
            outcome == self.outcome(),
    {
        self.result
    }

    /// A finished operation holds nothing.
    pub proof fn lemma_done_holds_nothing(&self, stack: &TreiberStack<T>)
        requires
            self.done(),
            self.inv(stack),
        ensures
            !self.pending(),
            self.slots() =~= Set::<int>::empty(),
            self.nodes() =~= Set::<usize>::empty(),
    {
    }

    /// Makes the one access that is due.
    pub fn step(&mut self, stack: &mut TreiberStack<T>)
        requires
            old(stack).wf(),
            old(self).inv(old(stack)),
            !old(self).done(),
        ensures
            Self::advances(*old(self), *old(stack), *final(self), *final(stack)),
    {
        match self.phase {
            StackPhase::PushLoad => self.push_load(stack),
            StackPhase::PushLink => self.push_link(stack),
            StackPhase::PopReserve => self.pop_reserve(stack),
            StackPhase::PopLoad => self.pop_load(stack),
            StackPhase::PopPublish => self.pop_publish(stack),
            StackPhase::PopValidate => self.pop_validate(stack),
            StackPhase::PopReadNext => self.pop_read_next(stack),
            StackPhase::PopUnlink => self.pop_unlink(stack),
            StackPhase::PopTake => self.pop_take(stack),
            StackPhase::PopRetire => self.pop_retire(stack),
            StackPhase::PopRelease => self.pop_release(stack),
            StackPhase::Done => {},
        }
    }
}

impl<T> TreiberStack<T> {
    /// Pushes a value on top of the stack.
    pub fn push(&mut self, value: T)
        requires
            old(self).wf(),
        ensures
            final(self).wf(),
            lifo(Effect::Pushed(value), old(self)@, final(self)@),
            old(self).quiet() ==> final(self).quiet(),
    {
        let mut op = StackOp::push(self, value);
        while !op.is_done()
            invariant
                self.wf(),
                op.inv(self),
                op.is_push(),
                op.argument() == value,
                op.pending() ==> self@ == old(self)@,
                !op.pending() ==> self@ == seq![value] + old(self)@,
                old(self).quiet() ==> self.reserved_slots() =~= op.slots() && self.held_nodes()
                    =~= op.nodes(),
            decreases op.fuel(self),
        {
            op.step(self);
        }
        proof {
            op.lemma_done_holds_nothing(self);
        }
    }

    /// Attempts to pop the top element from the stack.
    ///
    /// Returns `None` if the stack is empty.
    pub fn pop(&mut self) -> (top: Option<T>)
        requires
            old(self).wf(),
        ensures
            final(self).wf(),
            lifo(taking(top), old(self)@, final(self)@),
            old(self).quiet() ==> final(self).quiet(),
    {
        let mut op = StackOp::pop(self);
        while !op.is_done()
            invariant
                self.wf(),
                op.inv(self),
                !op.is_push(),
                op.pending() ==> self@ == old(self)@,
                !op.pending() ==> match op.outcome() {
                    Some(payload) => old(self)@.len() > 0 && payload == old(self)@[0] && self@
                        == old(self)@.skip(1),
                    None => old(self)@.len() == 0 && self@ == old(self)@,
                },
                old(self).quiet() ==> self.reserved_slots() =~= op.slots() && self.held_nodes()
                    =~= op.nodes(),
            decreases op.fuel(self),
        {
            op.step(self);
        }
        proof {
            op.lemma_done_holds_nothing(self);
        }
        op.into_outcome()
    }

    /// In a quiet stack the live nodes are those of the list.
    proof fn lemma_quiet_and_empty_is_vacant(&self)
        requires
            self.wf(),
            self.quiet(),
            self@.len() == 0,
        ensures
            self.vacant(),
    {
        assert forall|a: usize| !self.memory@.dom().contains(a) by {
            assert(self.place_ok(a));
            if self.hazards@.retired.contains(a) {
                self.hazards.lemma_retired_is_protected(a);
                let k = choose|k: int| self.hazards@.slots.dom().contains(k);
                assert(self.reserved_slots().contains(k));
            }
            if self.fresh@.contains(a) || self.unlinked@.contains(a) {
                assert(self.held_nodes().contains(a));
            }
        }
    }

    /// Pops until the stack is empty, as dropping the stack does. If no
    /// operation is in progress, no node is left.
    pub fn drain(&mut self)
        requires
            old(self).wf(),
        ensures
            final(self).wf(),
            final(self)@.len() == 0,
            old(self).quiet() ==> final(self).quiet() && final(self).vacant(),
    {
        loop
            invariant
                self.wf(),
                old(self).quiet() ==> self.quiet(),
            ensures
                self@.len() == 0,
            decreases self@.len(),
        {
            if self.pop().is_none() {
                break;
            }
        }
        proof {
            if old(self).quiet() {
                self.lemma_quiet_and_empty_is_vacant();
            }
        }
    }
}

impl<T> StackOp<T> {
    /// However the steps of operations are mixed: when operations that are
    /// apart hold what they rely on, then after a step of one of them they
    /// all do, and are apart. So every step finds the cells live that it
    /// reads, writes or frees.
    pub proof fn lemma_step_keeps_all(
        ops: Seq<Self>,
        i: int,
        stack0: TreiberStack<T>,
        after: Self,
        stack1: TreiberStack<T>,
    )
        requires
            0 <= i < ops.len(),
            forall|j: int| 0 <= j < ops.len() ==> (#[trigger] ops[j]).inv(&stack0),
            forall|j: int, k: int|
                0 <= j < ops.len() && 0 <= k < ops.len() && j != k ==> #[trigger] ops[j].apart(
                    &ops[k],
                ),
            Self::advances(ops[i], stack0, after, stack1),
        ensures
            stack1.wf(),
            forall|j: int| 0 <= j < ops.len() ==> (#[trigger] ops.update(i, after)[j]).inv(&stack1),
            forall|j: int, k: int|
                0 <= j < ops.len() && 0 <= k < ops.len() && j != k ==> #[trigger] ops.update(
                    i,
                    after,
                )[j].apart(&ops.update(i, after)[k]),
    {
        let next = ops.update(i, after);
        assert forall|j: int| 0 <= j < ops.len() implies (#[trigger] next[j]).inv(&stack1) by {
            if j != i {
                assert(ops[j].inv(&stack0) && ops[j].apart(&ops[i]));
            }
        }
        assert forall|j: int, k: int|
            0 <= j < ops.len() && 0 <= k < ops.len() && j != k implies #[trigger] next[j].apart(
            &next[k],
        ) by {
            if j == i {
                assert(ops[k].inv(&stack0) && ops[k].apart(&ops[i]));
                assert(ops[k].apart(&after));
            } else if k == i {
                assert(ops[j].inv(&stack0) && ops[j].apart(&ops[i]));
                assert(ops[j].apart(&after));
            } else {
                assert(ops[j].apart(&ops[k]));
            }
        }
    }

    /// The effects of the steps from `befores` to `afters`, one by one.
    pub open spec fn effects(befores: Seq<Self>, afters: Seq<Self>) -> Seq<Effect<T>> {
        Seq::new(befores.len(), |i: int| Self::effect(befores[i], afters[i]))
    }

    /// The contents of the states that a run of steps goes through.
    pub open spec fn contents(states: Seq<TreiberStack<T>>) -> Seq<Seq<T>> {
        Seq::new(states.len(), |i: int| states[i]@)
    }

    /// Conservation, for every order in which the steps of operations come:
    /// what was there and what was pushed is, counted with multiplicity,
    /// what was popped and what is left. No more is popped than was there or
    /// pushed.
    pub proof fn lemma_conservation(
        befores: Seq<Self>,
        afters: Seq<Self>,
        states: Seq<TreiberStack<T>>,
    )
        requires
            afters.len() == befores.len(),
            states.len() == befores.len() + 1,
            forall|i: int|
                0 <= i < befores.len() ==> Self::advances(
                    #[trigger] befores[i],
                    states[i],
                    afters[i],
                    states[i + 1],
                ),
        ensures
            states[0]@.to_multiset().add(pushes(Self::effects(befores, afters)).to_multiset())
                == pops(Self::effects(befores, afters)).to_multiset().add(
                states.last()@.to_multiset(),
            ),
            pops(Self::effects(befores, afters)).len() <= states[0]@.len() + pushes(
                Self::effects(befores, afters),
            ).len(),
    {
        let effects = Self::effects(befores, afters);
        let contents = Self::contents(states);
        assert forall|i: int| 0 <= i < effects.len() implies lifo(
            #[trigger] effects[i],
            contents[i],
            contents[i + 1],
        ) by {
            assert(Self::advances(befores[i], states[i], afters[i], states[i + 1]));
        }
        lemma_lifo_conserves(effects, contents);
    }
}

impl<T> StackOp<T> {
    /// The slots that the operations have reserved, taken together.
    pub open spec fn all_slots(ops: Seq<Self>) -> Set<int> {
        Set::new(|x: int| exists|j: int| 0 <= j < ops.len() && #[trigger] ops[j].slots().contains(x))
    }

    /// The nodes that the operations hold outside the list, taken together.
    pub open spec fn all_nodes(ops: Seq<Self>) -> Set<usize> {
        Set::new(|x: usize| exists|j: int| 0 <= j < ops.len() && #[trigger] ops[j].nodes().contains(x))
    }
}

impl<T> TreiberStack<T> {
    /// The operations are apart from each other and each holds what it relies
    /// on.
    pub open spec fn runs(&self, ops: Seq<StackOp<T>>) -> bool {
        &&& self.wf()
        &&& forall|j: int| 0 <= j < ops.len() ==> (#[trigger] ops[j]).inv(self)
        &&& forall|j: int, k: int|
            0 <= j < ops.len() && 0 <= k < ops.len() && j != k ==> #[trigger] ops[j].apart(&ops[k])
    }

    /// What is held in the container is held by the operations `ops`, and by
    /// no operation else.
    pub open spec fn accounts(&self, ops: Seq<StackOp<T>>) -> bool {
        &&& self.reserved_slots() =~= StackOp::all_slots(ops)
        &&& self.held_nodes() =~= StackOp::all_nodes(ops)
    }

    /// The operations `later` are the operations `earlier` after some steps.
    pub open spec fn follows(earlier: Seq<StackOp<T>>, later: Seq<StackOp<T>>) -> bool {
        &&& later.len() == earlier.len()
        &&& forall|j: int|
            0 <= j < earlier.len() ==> {
                &&& (#[trigger] later[j]).is_push() == earlier[j].is_push()
                &&& later[j].argument() == earlier[j].argument()
                &&& later[j].pending() ==> earlier[j].pending()
                &&& !earlier[j].pending() ==> later[j].outcome() == earlier[j].outcome()
            }
    }

    /// One turn of a schedule: the operation that `pick` names makes its next
    /// step, if there is such an operation and it is not finished;
    /// else nothing changes.
    pub open spec fn turn(
        ops0: Seq<StackOp<T>>,
        stack0: Self,
        pick: usize,
        ops1: Seq<StackOp<T>>,
        stack1: Self,
    ) -> bool {
        if pick < ops0.len() && !ops0[pick as int].done() {
            &&& ops1.len() == ops0.len()
            &&& ops1 == ops0.update(pick as int, ops1[pick as int])
            &&& StackOp::advances(ops0[pick as int], stack0, ops1[pick as int], stack1)
        } else {
            ops1 == ops0 && stack1 == stack0
        }
    }

    /// The operations and the container before, between and after the turns
    /// of `schedule`, from `ops0` and `stack0` on.
    pub open spec fn trace(
        ops0: Seq<StackOp<T>>,
        stack0: Self,
        schedule: Seq<usize>,
        opss: Seq<Seq<StackOp<T>>>,
        states: Seq<Self>,
    ) -> bool {
        &&& opss.len() == schedule.len() + 1
        &&& states.len() == schedule.len() + 1
        &&& opss[0] == ops0
        &&& states[0] == stack0
        &&& forall|i: int|
            0 <= i < schedule.len() ==> Self::turn(
                #[trigger] opss[i],
                states[i],
                schedule[i],
                opss[i + 1],
                states[i + 1],
            )
    }

    /// One more operation, which is apart from the others and has left them
    /// what they rely on.
    pub proof fn lemma_runs_more(stack0: Self, ops: Seq<StackOp<T>>, stack1: Self, op: StackOp<T>)
        requires
            stack0.runs(ops),
            stack1.wf(),
            op.inv(&stack1),
            forall|j: int|
                0 <= j < ops.len() ==> (#[trigger] ops[j]).inv(&stack1) && ops[j].apart(&op),
        ensures
            stack1.runs(ops.push(op)),
    {
        let more = ops.push(op);
        assert forall|j: int, k: int|
            0 <= j < more.len() && 0 <= k < more.len() && j != k implies #[trigger] more[j].apart(
            &more[k],
        ) by {
            if j < ops.len() && k < ops.len() {
                assert(ops[j].apart(&ops[k]));
            } else if j < ops.len() {
                assert(ops[j].apart(&op));
            } else {
                assert(ops[k].apart(&op));
            }
        }
    }

    /// No operation holds anything in a container on which none is in progress.
    pub proof fn lemma_accounts_none(&self)
        requires
            self.quiet(),
        ensures
            self.accounts(Seq::<StackOp<T>>::empty()),
    {
    }

    /// One more operation, which holds what the container holds more.
    pub proof fn lemma_accounts_more(stack0: Self, ops: Seq<StackOp<T>>, stack1: Self, op: StackOp<T>)
        requires
            stack0.accounts(ops),
            stack1.reserved_slots() =~= stack0.reserved_slots().union(op.slots()),
            stack1.held_nodes() =~= stack0.held_nodes().union(op.nodes()),
        ensures
            stack1.accounts(ops.push(op)),
    {
        let more = ops.push(op);
        assert forall|x: int| stack1.reserved_slots().contains(x) <==> StackOp::all_slots(more).contains(x) by {
            if stack0.reserved_slots().contains(x) {
                let j = choose|j: int| 0 <= j < ops.len() && #[trigger] ops[j].slots().contains(x);
                assert(more[j].slots().contains(x));
            }
            if op.slots().contains(x) {
                assert(more[ops.len() as int].slots().contains(x));
            }
            if StackOp::all_slots(more).contains(x) {
                let j = choose|j: int| 0 <= j < more.len() && #[trigger] more[j].slots().contains(x);
                if j < ops.len() {
                    assert(ops[j].slots().contains(x));
                }
            }
        }
        assert forall|x: usize| stack1.held_nodes().contains(x) <==> StackOp::all_nodes(more).contains(x) by {
            if stack0.held_nodes().contains(x) {
                let j = choose|j: int| 0 <= j < ops.len() && #[trigger] ops[j].nodes().contains(x);
                assert(more[j].nodes().contains(x));
            }
            if op.nodes().contains(x) {
                assert(more[ops.len() as int].nodes().contains(x));
            }
            if StackOp::all_nodes(more).contains(x) {
                let j = choose|j: int| 0 <= j < more.len() && #[trigger] more[j].nodes().contains(x);
                if j < ops.len() {
                    assert(ops[j].nodes().contains(x));
                }
            }
        }
    }

    /// The step of one operation leaves the account right.
    pub proof fn lemma_accounts_kept(
        ops: Seq<StackOp<T>>,
        i: int,
        stack0: Self,
        after: StackOp<T>,
        stack1: Self,
    )
        requires
            0 <= i < ops.len(),
            stack0.runs(ops),
            stack0.accounts(ops),
            StackOp::advances(ops[i], stack0, after, stack1),
        ensures
            stack1.accounts(ops.update(i, after)),
    {
        let next = ops.update(i, after);
        assert forall|x: int| stack1.reserved_slots().contains(x) <==> StackOp::all_slots(next).contains(x) by {
            if stack1.reserved_slots().contains(x) && !after.slots().contains(x) {
                assert(stack0.reserved_slots().contains(x));
                let j = choose|j: int| 0 <= j < ops.len() && #[trigger] ops[j].slots().contains(x);
                assert(next[j].slots().contains(x));
            }
            if after.slots().contains(x) {
                assert(next[i].slots().contains(x));
            }
            if StackOp::all_slots(next).contains(x) {
                let j = choose|j: int| 0 <= j < next.len() && #[trigger] next[j].slots().contains(x);
                if j != i {
                    assert(ops[j].slots().contains(x));
                    assert(ops[j].apart(&ops[i]));
                    assert(StackOp::all_slots(ops).contains(x));
                }
            }
        }
        assert forall|x: usize| stack1.held_nodes().contains(x) <==> StackOp::all_nodes(next).contains(x) by {
            if stack1.held_nodes().contains(x) && !after.nodes().contains(x) {
                assert(stack0.held_nodes().contains(x));
                let j = choose|j: int| 0 <= j < ops.len() && #[trigger] ops[j].nodes().contains(x);
                assert(next[j].nodes().contains(x));
            }
            if after.nodes().contains(x) {
                assert(next[i].nodes().contains(x));
            }
            if StackOp::all_nodes(next).contains(x) {
                let j = choose|j: int| 0 <= j < next.len() && #[trigger] next[j].nodes().contains(x);
                if j != i {
                    assert(ops[j].nodes().contains(x));
                    assert(ops[j].apart(&ops[i]));
                    assert(StackOp::all_nodes(ops).contains(x));
                }
            }
        }
    }

    /// When every operation is finished, none is in progress.
    pub proof fn lemma_all_done_is_quiet(&self, ops: Seq<StackOp<T>>)
        requires
            self.runs(ops),
            self.accounts(ops),
            forall|j: int| 0 <= j < ops.len() ==> (#[trigger] ops[j]).done(),
        ensures
            self.quiet(),
    {
        assert forall|x: int| !self.reserved_slots().contains(x) by {
            if self.reserved_slots().contains(x) {
                let j = choose|j: int| 0 <= j < ops.len() && #[trigger] ops[j].slots().contains(x);
                ops[j].lemma_done_holds_nothing(self);
            }
        }
        assert forall|x: usize| !self.held_nodes().contains(x) by {
            if self.held_nodes().contains(x) {
                let j = choose|j: int| 0 <= j < ops.len() && #[trigger] ops[j].nodes().contains(x);
                ops[j].lemma_done_holds_nothing(self);
            }
        }
    }

    /// Lets the operations take steps in the order that `schedule` gives: each
    /// entry picks the operation that makes its next step. Entries that pick
    /// no operation, or a finished one, are passed over.
    ///
    /// The result is the one that these steps lead to. Whatever the schedule,
    /// the container stays well formed, no operation loses what it relies on,
    /// the account of what is held stays right, and the payloads are
    /// conserved: what was there and what the pushes that have taken effect
    /// have added is what the pops that have taken effect have got and what
    /// is there now.
    pub fn run(&mut self, ops: &mut Vec<StackOp<T>>, schedule: &Vec<usize>)
        requires
            old(self).runs(old(ops)@),
        ensures
            exists|opss: Seq<Seq<StackOp<T>>>, states: Seq<Self>|
                #[trigger] Self::trace(old(ops)@, *old(self), schedule@, opss, states)
                    && opss.last() == final(ops)@ && states.last() == *final(self),
            final(self).runs(final(ops)@),
            old(self).accounts(old(ops)@) ==> final(self).accounts(final(ops)@),
            Self::follows(old(ops)@, final(ops)@),
            conserved(old(self)@, StackOp::effects(old(ops)@, final(ops)@), final(self)@),
    {
        proof {
            lemma_conserved_start(self@, StackOp::effects(ops@, ops@));
        }
        let ghost mut opss: Seq<Seq<StackOp<T>>> = seq![ops@];
        let ghost mut states: Seq<Self> = seq![*self];
        let mut turn: usize = 0;
        while turn < schedule.len()
            invariant
                turn <= schedule.len(),
                opss.len() == turn + 1,
                states.len() == turn + 1,
                opss[0] == old(ops)@,
                states[0] == *old(self),
                opss.last() == ops@,
                states.last() == *self,
                forall|i: int|
                    0 <= i < turn ==> Self::turn(
                        #[trigger] opss[i],
                        states[i],
                        schedule@[i],
                        opss[i + 1],
                        states[i + 1],
                    ),
                self.runs(ops@),
                old(self).accounts(old(ops)@) ==> self.accounts(ops@),
                Self::follows(old(ops)@, ops@),
                conserved(old(self)@, StackOp::effects(old(ops)@, ops@), self@),
            decreases schedule.len() - turn,
        {
            let pick = schedule[turn];
            let ghost before = ops@;
            let ghost stack0 = *self;
            if pick < ops.len() && !ops[pick].is_done() {
                ops[pick].step(self);
                proof {
                    let at = pick as int;
                    let first = old(ops)@;
                    assert(ops@ =~= before.update(at, ops@[at]));

                    StackOp::lemma_step_keeps_all(before, at, stack0, ops@[at], *self);
                    if old(self).accounts(first) {
                        Self::lemma_accounts_kept(before, at, stack0, ops@[at], *self);
                    }
                    let effects0 = StackOp::effects(first, before);
                    let effects1 = StackOp::effects(first, ops@);
                    let step = StackOp::effect(before[at], ops@[at]);
                    if before[at].pending() && !ops@[at].pending() {
                        assert(effects0[at] is Nothing);
                        assert(effects1 =~= effects0.update(at, step));
                        lemma_conserved_step(old(self)@, effects0, stack0@, at, step, self@);
                    } else {
                        assert(effects1 =~= effects0);
                    }

                }
            }
            proof {
                assert(Self::turn(before, stack0, pick, ops@, *self));
                opss = opss.push(ops@);
                states = states.push(*self);
            }
            turn += 1;
        }
        proof {
            assert(Self::trace(old(ops)@, *old(self), schedule@, opss, states));
        }
    }
}

} // verus!
