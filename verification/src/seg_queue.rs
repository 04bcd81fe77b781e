//! The segmented queue: blocks of 31 slots in a list, a head and a tail that
//! are each an index and the address of a block.
//!
//! An index counts positions, 32 to a block: the positions 0 to 30 of a block
//! are its slots, and the position 31 stands for the move to the next block.
//! The lowest bit of an index is a flag.
use crate::arena::Arena;
use crate::atomic::{AtomicWord, MemoryOrder};
use crate::contents::{
    conserved, fifo, lemma_conserved_start, lemma_conserved_step, lemma_fifo_conserves, pops, pushes,
    taking, Effect,
};
use vstd::prelude::*;

verus! {

/// Slot state: a value has been written into the slot.
pub const WRITE: usize = 1;

/// Slot state: the value has been read from the slot.
pub const READ: usize = 2;

/// Slot state: the block is being destroyed.
pub const DESTROY: usize = 4;

/// Each block covers one lap of indices.
pub const LAP: usize = 32;

/// The number of values that a block can hold.
pub const BLOCK_CAP: usize = 31;

/// How many lower bits of an index are kept for flags.
pub const SHIFT: usize = 1;

/// One position, as a difference of indices: a one above the flag bits.
pub const STEP: usize = 2;

/// Index flag of the head: the block of the head is not the last one.
pub const HAS_NEXT: usize = 1;

/// The tail index never passes this one: a push that finds the tail here waits.
pub const INDEX_LIMIT: usize = usize::MAX - 63;

/// The position that an index stands for.
pub open spec fn position(index: usize) -> int {
    index as int / 2
}

/// The block that an index falls into, counted from 0.
pub open spec fn lap_of(index: usize) -> int {
    position(index) / 32
}

/// The place of an index in its block: 0 to 30 for a slot, 31 between blocks.
pub open spec fn offset_of(index: usize) -> int {
    position(index) % 32
}

/// The number of slots before the position of an index.
pub open spec fn count_of(index: usize) -> int {
    lap_of(index) * 31 + offset_of(index)
}

/// The state has the `WRITE` bit.
pub open spec fn is_written(state: usize) -> bool {
    state & WRITE != 0
}

/// The state has the `READ` bit.
pub open spec fn is_read(state: usize) -> bool {
    state & READ != 0
}

/// The state has the `DESTROY` bit.
pub open spec fn is_doomed(state: usize) -> bool {
    state & DESTROY != 0
}

/// What setting one state bit does to the three of them.
pub proof fn lemma_state_bits(state: usize)
    ensures
        !is_written(0) && !is_read(0) && !is_doomed(0),
        is_written(state | WRITE) && is_read(state | WRITE) == is_read(state) && is_doomed(
            state | WRITE,
        ) == is_doomed(state),
        is_read(state | READ) && is_written(state | READ) == is_written(state) && is_doomed(
            state | READ,
        ) == is_doomed(state),
        is_doomed(state | DESTROY) && is_written(state | DESTROY) == is_written(state) && is_read(
            state | DESTROY,
        ) == is_read(state),
        state < 8 ==> (state | WRITE) < 8 && (state | READ) < 8 && (state | DESTROY) < 8,
{
    assert(0usize & 1 == 0 && 0usize & 2 == 0 && 0usize & 4 == 0) by (bit_vector);
    assert((state | 1) & 1 != 0 && ((state | 1) & 2 != 0) == (state & 2 != 0) && ((state | 1) & 4
        != 0) == (state & 4 != 0)) by (bit_vector);
    assert((state | 2) & 2 != 0 && ((state | 2) & 1 != 0) == (state & 1 != 0) && ((state | 2) & 4
        != 0) == (state & 4 != 0)) by (bit_vector);
    assert((state | 4) & 4 != 0 && ((state | 4) & 1 != 0) == (state & 1 != 0) && ((state | 4) & 2
        != 0) == (state & 2 != 0)) by (bit_vector);
    assert(state < 8 ==> (state | 1) < 8 && (state | 2) < 8 && (state | 4) < 8) by (bit_vector);
}

/// Shifts and masks of an index, as arithmetic.
pub proof fn lemma_index_bits(index: usize)
    ensures
        index >> 1 == index / 2,
        index & 1 == index % 2,
        index % 2 == 0 ==> index | 1 == index + 1,
        index % 2 == 1 ==> index | 1 == index,
        index & !1usize == index - index % 2,
{
    assert(index >> 1 == index / 2) by (bit_vector);
    assert(index & 1 == index % 2) by (bit_vector);
    assert(index % 2 == 0 ==> index | 1 == index + 1) by (bit_vector);
    assert(index % 2 == 1 ==> index | 1 == index) by (bit_vector);
    assert(index & !1usize == index - index % 2) by (bit_vector);
}

/// The place of `index` in its block.
pub fn offset(index: usize) -> (place: usize)
    ensures
        place == offset_of(index),
        place < 32,
{
    proof {
        lemma_index_bits(index);
    }
    (index >> SHIFT) % LAP
}

/// One payload cell and its state bits.
pub struct Slot<T> {
    value: Option<T>,
    state: AtomicWord,
}

/// A block in the list: the address of the next block and 31 slots.
pub struct Block<T> {
    next: AtomicWord,
    slots: Vec<Slot<T>>,
}

impl<T> Block<T> {
    /// No slot of the block was ever used, and no block follows.
    pub closed spec fn is_blank(&self) -> bool {
        &&& self.next@ == crate::NULL
        &&& self.slots.len() == BLOCK_CAP
        &&& forall|i: int|
            0 <= i < BLOCK_CAP ==> (#[trigger] self.slots[i]).value.is_none() && self.slots[i].state@
                == 0
    }

    /// Creates an empty block.
    pub fn new() -> (block: Block<T>)
        ensures
            block.is_blank(),
    {
        let mut slots: Vec<Slot<T>> = Vec::new();
        let mut i: usize = 0;
        while i < BLOCK_CAP
            invariant
                i <= BLOCK_CAP,
                slots.len() == i,
                forall|j: int|
                    0 <= j < i ==> (#[trigger] slots[j]).value.is_none() && slots[j].state@ == 0,
            decreases BLOCK_CAP - i,
        {
            slots.push(Slot { value: None, state: AtomicWord::new(0) });
            i += 1;
        }
        Block { next: AtomicWord::new(crate::NULL), slots }
    }
}

/// A position in the queue: an index and the block that the index falls into.
pub struct Position {
    index: AtomicWord,
    block: AtomicWord,
}

/// Where the destruction of a block stands.
pub enum Baton {
    /// Not begun: the last slot of the block has not been read.
    Idle,
    /// An operation destroys the block and has come to this slot.
    Held(int),
    /// The destruction waits for the reader of this slot, who goes on with it.
    Parked(int),
}

/// A first-in, first-out container whose payloads lie in blocks of 31 slots.
/// Its view lists the payloads from the front.
pub struct SegQueue<T> {
    head: Position,
    tail: Position,
    memory: Arena<Block<T>>,
    /// Every payload that was pushed, in the order of the slots.
    log: Ghost<Seq<T>>,
    /// The live blocks by lap.
    blocks: Ghost<Map<int, usize>>,
    /// The number of blocks that were linked into the queue so far.
    installed: Ghost<int>,
    /// The lap of each live block, by address.
    laps: Ghost<Map<usize, int>>,
    batons: Ghost<Map<int, Baton>>,
    /// The slots that a push has claimed and not marked as written.
    writers: Ghost<Set<int>>,
    /// The slots that a pop has claimed and not let go.
    readers: Ghost<Set<int>>,
    /// The first block is linked at the tail and not yet at the head.
    publishing: Ghost<bool>,
}

impl<T> View for SegQueue<T> {
    type V = Seq<T>;

    closed spec fn view(&self) -> Seq<T> {
        self.log@.skip(count_of(self.head.index@))
    }
}

/// The count of slots grows with the position.
pub proof fn lemma_count_grows(a: usize, b: usize)
    requires
        position(a) <= position(b),
    ensures
        count_of(a) <= count_of(b),
        lap_of(a) <= lap_of(b),
        position(a) < position(b) && offset_of(a) < 31 ==> count_of(a) < count_of(b),
        position(a) == position(b) ==> count_of(a) == count_of(b),
{
}

/// The lap and the place of the slot that lies at an index.
pub proof fn lemma_slot_of(index: usize)
    requires
        offset_of(index) < 31,
    ensures
        count_of(index) / 31 == lap_of(index),
        count_of(index) % 31 == offset_of(index),
        count_of(index) >= 0,
{
}

/// The index of the slot behind the slot of an index: two further, and two
/// more where a block ends.
pub open spec fn index_after(index: usize) -> int {
    if offset_of(index) == 30 {
        index + 4
    } else {
        index + 2
    }
}

/// The tail after one more slot is taken.
pub proof fn lemma_index_after(before: usize, after: usize)
    requires
        before % 2 == 0,
        after % 2 == 0,
        offset_of(before) < 31,
        offset_of(after) < 31,
        count_of(after) == count_of(before) + 1,
    ensures
        after == index_after(before),
{
}

/// What moving an index forward by one position does.
pub proof fn lemma_step_index(index: usize, moved: usize)
    requires
        position(moved) == position(index) + 1,
    ensures
        offset_of(index) < 31 ==> lap_of(moved) == lap_of(index) && offset_of(moved) == offset_of(
            index,
        ) + 1 && count_of(moved) == count_of(index) + 1,
        offset_of(index) == 31 ==> lap_of(moved) == lap_of(index) + 1 && offset_of(moved) == 0
            && count_of(moved) == count_of(index),
{
}

impl<T> SegQueue<T> {
    closed spec fn pushed(&self) -> int {
        count_of(self.tail.index@)
    }

    closed spec fn popped(&self) -> int {
        count_of(self.head.index@)
    }

    closed spec fn cell(&self, lap: int, place: int) -> Slot<T> {
        self.memory@[self.blocks@[lap]].slots[place]
    }

    closed spec fn next_of(&self, lap: int) -> usize {
        self.memory@[self.blocks@[lap]].next@
    }

    /// The slot `place` of the block `lap`, which is the slot number
    /// `31 * lap + place` of the queue.
    closed spec fn slot_ok(&self, lap: int, place: int) -> bool {
        let n = 31 * lap + place;
        let state = self.cell(lap, place).state@;
        let value = self.cell(lap, place).value;
        &&& state < 8
        &&& value.is_some() ==> n < self.pushed() && value == Some(self.log@[n])
        &&& n >= self.pushed() ==> state == 0
        &&& n < self.pushed() ==> (is_written(state) <==> !self.writers@.contains(n))
        &&& is_written(state) && n >= self.popped() ==> value.is_some()
        &&& place < 30 ==> (is_read(state) <==> n < self.popped() && !self.readers@.contains(n))
        &&& place == 30 ==> !is_read(state) && !is_doomed(state)
        &&& n < self.popped() && !self.readers@.contains(n) ==> is_written(state)
        &&& is_doomed(state) && !is_read(state) ==> self.batons@[lap] == Baton::Parked(place)
        &&& match self.batons@[lap] {
            Baton::Idle => !is_doomed(state),
            Baton::Held(at) => place < at ==> is_read(state),
            Baton::Parked(at) => place < at ==> is_read(state),
        }
    }

    /// The block `lap`: its slots, its link, and where its destruction stands.
    closed spec fn block_ok(&self, lap: int) -> bool {
        let addr = self.blocks@[lap];
        let last = 31 * lap + 30;
        &&& 0 <= lap < self.installed@
        &&& self.memory.is_live(addr)
        &&& self.laps@[addr] == lap
        &&& self.batons@.dom().contains(lap)
        &&& self.memory@[addr].slots.len() == BLOCK_CAP
        &&& self.next_of(lap) != crate::NULL ==> {
            &&& lap < lap_of(self.tail.index@)
            &&& self.blocks@.dom().contains(lap + 1) ==> self.next_of(lap) == self.blocks@[lap
                + 1]
        }
        &&& self.next_of(lap) == crate::NULL && lap + 1 < self.installed@ ==> {
            &&& self.writers@.contains(last)
            &&& lap_of(self.head.index@) <= lap
        }
        &&& match self.batons@[lap] {
            Baton::Idle => last >= self.popped() || self.readers@.contains(last),
            Baton::Held(at) => 0 <= at <= 30 && last < self.popped() && !self.readers@.contains(
                last,
            ),
            Baton::Parked(at) => {
                &&& 0 <= at < 30
                &&& last < self.popped()
                &&& !self.readers@.contains(last)
                &&& is_doomed(self.cell(lap, at).state@)
                &&& !is_read(self.cell(lap, at).state@)
            },
        }
        &&& forall|place: int| 0 <= place < 31 ==> #[trigger] self.slot_ok(lap, place)
    }

    /// Every live cell is the block of one lap.
    closed spec fn home_ok(&self, addr: usize) -> bool {
        self.memory.is_live(addr) ==> self.blocks@.dom().contains(self.laps@[addr])
            && self.blocks@[self.laps@[addr]] == addr
    }

    /// A claimed slot lies in a live block.
    closed spec fn claim_ok(&self, n: int) -> bool {
        &&& self.writers@.contains(n) ==> 0 <= n < self.pushed() && self.blocks@.dom().contains(
            n / 31,
        )
        &&& self.readers@.contains(n) ==> 0 <= n < self.popped() && self.blocks@.dom().contains(
            n / 31,
        )
    }

    closed spec fn indexes_ok(&self) -> bool {
        let tail = self.tail.index@;
        let head = self.head.index@;
        &&& tail % 2 == 0
        &&& tail <= INDEX_LIMIT
        &&& position(head) <= position(tail)
        &&& self.log@.len() == self.pushed()
        &&& head % 2 == 1 ==> lap_of(head) < lap_of(tail)
        &&& offset_of(tail) == 31 ==> self.writers@.contains(self.pushed() - 1)
        &&& offset_of(head) == 31 ==> self.readers@.contains(self.popped() - 1)
    }

    closed spec fn pointers_ok(&self) -> bool {
        let tail = self.tail.index@;
        let head = self.head.index@;
        let installed = self.installed@;
        &&& installed >= 0
        &&& installed == 0 ==> self.tail.block@ == crate::NULL && self.head.block@ == crate::NULL
            && tail == 0
        &&& installed > 0 ==> {
            &&& self.tail.block@ == self.blocks@[installed - 1]
            &&& installed == lap_of(tail) + 1 || (installed == lap_of(tail) + 2 && offset_of(tail)
                == 31)
        }
        &&& self.publishing@ <==> installed > 0 && self.head.block@ == crate::NULL
        &&& self.head.block@ == crate::NULL ==> head == 0
        &&& self.head.block@ != crate::NULL ==> {
            ||| self.head.block@ == self.blocks@[lap_of(head)]
            ||| offset_of(head) == 31 && lap_of(head) + 1 < installed && self.head.block@
                == self.blocks@[lap_of(head) + 1]
        }
    }

    closed spec fn blocks_ok(&self) -> bool {
        &&& self.blocks@.dom() =~= self.batons@.dom()
        &&& forall|lap: int| #[trigger] self.blocks@.dom().contains(lap) ==> self.block_ok(lap)
        &&& forall|lap: int|
            lap_of(self.head.index@) <= lap < self.installed@
                ==> #[trigger] self.blocks@.dom().contains(lap)
        &&& forall|addr: usize| #[trigger] self.home_ok(addr)
        &&& forall|n: int| #[trigger] self.claim_ok(n)
    }

    /// The head is not ahead of the tail, every block from the head on is
    /// live, the state of each slot says whether it was claimed, written and
    /// read, and a block whose destruction has begun has its last slot read.
    pub closed spec fn wf(&self) -> bool {
        &&& self.memory.wf()
        &&& self.indexes_ok()
        &&& self.pointers_ok()
        &&& self.blocks_ok()
    }

    /// The slots that pushes in progress have claimed and not marked as written.
    pub closed spec fn writers(&self) -> Set<int> {
        self.writers@
    }

    /// The slots that pops in progress have claimed and not let go.
    pub closed spec fn readers(&self) -> Set<int> {
        self.readers@
    }

    /// The blocks that an operation in progress is destroying.
    pub closed spec fn held_batons(&self) -> Set<int> {
        Set::new(|lap: int| self.batons@.dom().contains(lap) && self.batons@[lap] is Held)
    }

    /// A push in progress has linked the first block at the tail and not yet
    /// at the head.
    pub closed spec fn publishing(&self) -> bool {
        self.publishing@
    }

    /// No operation is in progress.
    pub open spec fn quiet(&self) -> bool {
        &&& self.writers() =~= Set::<int>::empty()
        &&& self.readers() =~= Set::<int>::empty()
        &&& self.held_batons() =~= Set::<int>::empty()
        &&& !self.publishing()
    }

    /// The tail has come to the last index that a push can take.
    pub open spec fn is_full(&self) -> bool {
        self.tail_index() > INDEX_LIMIT - 4
    }

    /// No block is live.
    pub closed spec fn vacant(&self) -> bool {
        self.memory@.dom() =~= Set::<usize>::empty()
    }

    /// Creates a new, empty queue. No block is allocated yet.
    pub fn new() -> (queue: SegQueue<T>)
        ensures
            queue.wf(),
            queue@ == Seq::<T>::empty(),
            queue.quiet(),
            queue.vacant(),
            queue.tail_index() == 0,
            queue.head_index() == 0,
            !queue.is_full(),
    {
        let queue = SegQueue {
            head: Position { index: AtomicWord::new(0), block: AtomicWord::new(crate::NULL) },
            tail: Position { index: AtomicWord::new(0), block: AtomicWord::new(crate::NULL) },
            memory: Arena::new(),
            log: Ghost(Seq::empty()),
            blocks: Ghost(Map::empty()),
            installed: Ghost(0),
            laps: Ghost(Map::empty()),
            batons: Ghost(Map::empty()),
            writers: Ghost(Set::empty()),
            readers: Ghost(Set::empty()),
            publishing: Ghost(false),
        };
        proof {
            assert(queue@ =~= Seq::<T>::empty());
            assert forall|n: int| #[trigger] queue.claim_ok(n) by {}
            assert forall|addr: usize| #[trigger] queue.home_ok(addr) by {}
        }
        queue
    }

    /// The number of payloads is the number of slots between head and tail.
    proof fn lemma_len(&self)
        requires
            self.wf(),
        ensures
            self@.len() == self.pushed() - self.popped(),
            0 <= self.popped() <= self.pushed(),
    {
        lemma_count_grows(self.head.index@, self.tail.index@);
    }

    /// The index of the head, with its flag.
    pub closed spec fn head_index(&self) -> usize {
        self.head.index@
    }

    /// The index of the tail.
    pub closed spec fn tail_index(&self) -> usize {
        self.tail.index@
    }

    /// The head is never ahead of the tail, and the payloads are those of the
    /// slots between the two.
    pub proof fn lemma_head_behind_tail(&self)
        requires
            self.wf(),
        ensures
            position(self.head_index()) <= position(self.tail_index()),
            self@.len() == count_of(self.tail_index()) - count_of(self.head_index()),
            self.tail_index() <= INDEX_LIMIT,
            self.tail_index() % 2 == 0,
            self.writers() =~= Set::<int>::empty() ==> offset_of(self.tail_index()) < 31,
            self.readers() =~= Set::<int>::empty() ==> offset_of(self.head_index()) < 31,
    {
        self.lemma_len();
        if offset_of(self.tail.index@) == 31 {
            assert(self.writers@.contains(self.pushed() - 1));
        }
        if offset_of(self.head.index@) == 31 {
            assert(self.readers@.contains(self.popped() - 1));
        }
    }

    /// Once a block is installed, the tail block is the last one installed,
    /// and live.
    proof fn lemma_tail_block(&self)
        requires
            self.wf(),
        ensures
            self.installed@ > 0 ==> self.tail.block@ != crate::NULL && self.blocks@.dom().contains(
                self.installed@ - 1,
            ) && self.memory.is_live(self.tail.block@),
            self.installed@ > 0 && offset_of(self.tail.index@) < 31 ==> self.installed@ - 1
                == lap_of(self.tail.index@),
            self.installed@ == 0 <==> self.tail.block@ == crate::NULL,
    {
        self.memory.lemma_null_is_not_live();
        lemma_count_grows(self.head.index@, self.tail.index@);
        if self.installed@ > 0 {
            assert(self.blocks@.dom().contains(self.installed@ - 1));
            assert(self.block_ok(self.installed@ - 1));
        }
    }

    /// Returns `true` if the queue is empty. While a pop is moving the head to
    /// the next block, the answer can be `false` for an empty queue.
    pub fn is_empty(&self) -> (empty: bool)
        requires
            self.wf(),
        ensures
            empty ==> self@.len() == 0,
            self.readers() =~= Set::<int>::empty() ==> empty == (self@.len() == 0),
    {
        let head = self.head.index.load(MemoryOrder::SeqCst);
        let tail = self.tail.index.load(MemoryOrder::SeqCst);
        proof {
            lemma_index_bits(head);
            lemma_index_bits(tail);
            lemma_count_grows(head, tail);
            self.lemma_len();
            if offset_of(head) == 31 {
                assert(self.readers@.contains(self.popped() - 1));
            }
        }
        head >> SHIFT == tail >> SHIFT
    }

    /// Returns the number of payloads in the queue.
    pub fn len(&self) -> (len: usize)
        requires
            self.wf(),
        ensures
            len == self@.len(),
    {
        loop
            invariant
                self.wf(),
            decreases 1int,
        {
            // Load the tail index, then load the head index.
            let mut tail = self.tail.index.load(MemoryOrder::SeqCst);
            let mut head = self.head.index.load(MemoryOrder::SeqCst);
            // If the tail index didn't change, the indices are consistent.
            if self.tail.index.load(MemoryOrder::SeqCst) == tail {
                proof {
                    self.lemma_len();
                    lemma_index_bits(tail);
                    lemma_index_bits(head);
                    lemma_count_grows(head, tail);
                }
                let ghost tail0 = tail;
                let ghost head0 = head;
                // Erase the lower bits.
                tail = tail & !HAS_NEXT;
                head = head & !HAS_NEXT;
                // Fix up indices if they fall onto block ends.
                if offset(tail) == LAP - 1 {
                    tail = tail + STEP;
                }
                if offset(head) == LAP - 1 {
                    head = head + STEP;
                }
                proof {
                    lemma_index_bits(tail);
                    lemma_index_bits(head);
                    assert(count_of(tail) == count_of(tail0));
                    assert(count_of(head) == count_of(head0));
                    assert(offset_of(tail) < 31 && offset_of(head) < 31);
                    assert(position(head) <= position(tail));
                }
                // Rotate indices so that head falls into the first block.
                let lap = (head >> SHIFT) / LAP;
                let turn = lap * LAP * STEP;
                tail = tail - turn;
                head = head - turn;
                proof {
                    lemma_index_bits(tail);
                    lemma_index_bits(head);
                }
                // Remove the lower bits.
                tail = tail >> SHIFT;
                head = head >> SHIFT;
                // The difference, minus the number of blocks between tail and head.
                return tail - head - tail / LAP;
            }
            proof {
                assert(false);
            }
        }
    }

    /// Whether the tail has come to the last index that a push can take.
    pub fn full(&self) -> (full: bool)
        ensures
            full == self.is_full(),
    {
        self.tail.index.load(MemoryOrder::SeqCst) > INDEX_LIMIT - 4
    }

    /// Whether no block is live.
    pub fn is_vacant(&self) -> (vacant: bool)
        requires
            self.wf(),
        ensures
            vacant == self.vacant(),
    {
        self.memory.is_vacant()
    }
}

/// Where an operation on the segmented queue stands: the access that its
/// next step makes.
#[derive(Clone, Copy, Debug, PartialEq, Eq, Structural)]
pub enum SegPhase {
    /// Push: load the tail index. Waits while a block is being installed, and
    /// for good when the queue is full.
    PushLoadIndex,
    /// Push: load the tail block.
    PushLoadBlock,
    /// Push: there is no block yet; link a first one at the tail.
    PushInstallFirst,
    /// Push: link the first block at the head.
    PushPublishFirst,
    /// Push: move the tail index forward by one position, which claims a slot.
    PushClaim,
    /// Push: the last slot of the block is claimed; store the next block at the tail.
    PushInstallBlock,
    /// Push: store the first index of the next block at the tail.
    PushInstallIndex,
    /// Push: store the next block in the block that is full.
    PushLinkBlock,
    /// Push: write the payload into the claimed slot.
    PushWrite,
    /// Push: mark the slot as written.
    PushMark,
    /// Pop: load the head index. Waits while the head moves to the next block.
    PopLoadIndex,
    /// Pop: load the head block.
    PopLoadBlock,
    /// Pop: load the tail index and compare.
    PopLoadTail,
    /// Pop: load the head block again. Waits until there is one.
    PopAwaitBlock,
    /// Pop: move the head index forward by one position, which claims a slot.
    PopClaim,
    /// Pop: the last slot of the block is claimed; load the next block.
    /// Waits until it is linked.
    PopWaitNext,
    /// Pop: load the successor of the next block.
    PopPeekNext,
    /// Pop: store the next block at the head.
    PopStoreBlock,
    /// Pop: store the first index of the next block at the head.
    PopStoreIndex,
    /// Pop: load the state of the claimed slot. Waits until it is written.
    PopWaitWrite,
    /// Pop: move the payload out of the slot.
    PopRead,
    /// Pop: mark the slot as read.
    PopMarkRead,
    /// Destruction of a block: load the state of the slot that is next.
    DestroyCheck,
    /// Destruction of a block: mark the slot, whose reader is still at work.
    DestroyMark,
    /// Destruction of a block: every slot is read; free the block.
    DestroyFree,
    Done,
}

impl SegPhase {
    /// The order of the steps: from this access, `next` can be the access that
    /// follows. A step that has lost a race leads back to the load with which the
    /// attempt began.
    pub open spec fn succeeds(self, next: SegPhase) -> bool {
        match self {
            SegPhase::PushLoadIndex => next == SegPhase::PushLoadBlock,
            SegPhase::PushLoadBlock => next == SegPhase::PushInstallFirst || next == SegPhase::PushClaim,
            SegPhase::PushInstallFirst => next == SegPhase::PushPublishFirst || next == SegPhase::PushLoadIndex,
            SegPhase::PushPublishFirst => next == SegPhase::PushClaim,
            SegPhase::PushClaim => next == SegPhase::PushInstallBlock || next == SegPhase::PushWrite || next == SegPhase::PushLoadIndex || next == SegPhase::PushLoadBlock,
            SegPhase::PushInstallBlock => next == SegPhase::PushInstallIndex,
            SegPhase::PushInstallIndex => next == SegPhase::PushLinkBlock,
            SegPhase::PushLinkBlock => next == SegPhase::PushWrite,
            SegPhase::PushWrite => next == SegPhase::PushMark,
            SegPhase::PushMark => next == SegPhase::Done,
            SegPhase::PopLoadIndex => next == SegPhase::PopLoadBlock,
            SegPhase::PopLoadBlock => next == SegPhase::PopLoadTail || next == SegPhase::PopAwaitBlock || next == SegPhase::PopClaim,
            SegPhase::PopLoadTail => next == SegPhase::Done || next == SegPhase::PopAwaitBlock || next == SegPhase::PopClaim,
            SegPhase::PopAwaitBlock => next == SegPhase::PopLoadIndex,
            SegPhase::PopClaim => next == SegPhase::PopWaitNext || next == SegPhase::PopWaitWrite || next == SegPhase::PopLoadIndex || next == SegPhase::PopLoadBlock,
            SegPhase::PopWaitNext => next == SegPhase::PopPeekNext,
            SegPhase::PopPeekNext => next == SegPhase::PopStoreBlock,
            SegPhase::PopStoreBlock => next == SegPhase::PopStoreIndex,
            SegPhase::PopStoreIndex => next == SegPhase::PopWaitWrite,
            SegPhase::PopWaitWrite => next == SegPhase::PopRead,
            SegPhase::PopRead => next == SegPhase::DestroyCheck || next == SegPhase::PopMarkRead,
            SegPhase::PopMarkRead => next == SegPhase::DestroyFree || next == SegPhase::DestroyCheck || next == SegPhase::Done,
            SegPhase::DestroyCheck => next == SegPhase::DestroyFree || next == SegPhase::DestroyCheck || next == SegPhase::DestroyMark,
            SegPhase::DestroyMark => next == SegPhase::Done || next == SegPhase::DestroyFree || next == SegPhase::DestroyCheck,
            SegPhase::DestroyFree => next == SegPhase::Done,
            SegPhase::Done => false,
        }
    }
}

/// One push or pop in progress. Each call of [`SegOp::step`] makes one access
/// to the queue; steps of several operations can be mixed in any order.
pub struct SegOp<T> {
    push: bool,
    phase: SegPhase,
    index: usize,
    block: usize,
    target: usize,
    next: usize,
    next_index: usize,
    at: usize,
    spare: Option<Block<T>>,
    value: Option<T>,
    argument: Ghost<Option<T>>,
    expected: Ghost<Option<T>>,
}

impl<T> SegOp<T> {
    /// The operation is a push, not a pop.
    pub closed spec fn is_push(&self) -> bool {
        self.push
    }

    /// The payload that a push is to add.
    pub closed spec fn argument(&self) -> T {
        self.argument@.unwrap()
    }

    /// What a pop that has taken effect returns.
    pub closed spec fn outcome(&self) -> Option<T> {
        self.expected@
    }

    /// The operation has not taken effect on the contents yet.
    pub closed spec fn pending(&self) -> bool {
        match self.phase {
            SegPhase::PushLoadIndex
            | SegPhase::PushLoadBlock
            | SegPhase::PushInstallFirst
            | SegPhase::PushPublishFirst
            | SegPhase::PushClaim
            | SegPhase::PopLoadIndex
            | SegPhase::PopLoadBlock
            | SegPhase::PopLoadTail
            | SegPhase::PopAwaitBlock
            | SegPhase::PopClaim => true,
            _ => false,
        }
    }

    /// The operation has made its last step.
    pub closed spec fn done(&self) -> bool {
        self.phase == SegPhase::Done
    }

    spec fn lap(&self) -> int {
        lap_of(self.index)
    }

    spec fn place(&self) -> int {
        offset_of(self.index)
    }

    spec fn number(&self) -> int {
        count_of(self.index)
    }

    spec fn writing(&self) -> bool {
        match self.phase {
            SegPhase::PushInstallBlock
            | SegPhase::PushInstallIndex
            | SegPhase::PushLinkBlock
            | SegPhase::PushWrite
            | SegPhase::PushMark => true,
            _ => false,
        }
    }

    spec fn reading(&self) -> bool {
        match self.phase {
            SegPhase::PopWaitNext
            | SegPhase::PopPeekNext
            | SegPhase::PopStoreBlock
            | SegPhase::PopStoreIndex
            | SegPhase::PopWaitWrite
            | SegPhase::PopRead
            | SegPhase::PopMarkRead => true,
            _ => false,
        }
    }

    spec fn destroying(&self) -> bool {
        match self.phase {
            SegPhase::DestroyCheck | SegPhase::DestroyMark | SegPhase::DestroyFree => true,
            _ => false,
        }
    }

    /// The slot that the push has claimed and not marked as written.
    pub closed spec fn writes(&self) -> Set<int> {
        if self.writing() {
            set![self.number()]
        } else {
            Set::empty()
        }
    }

    /// The slot that the pop has claimed and not let go.
    pub closed spec fn reads(&self) -> Set<int> {
        if self.reading() {
            set![self.number()]
        } else {
            Set::empty()
        }
    }

    /// The block that the operation is destroying.
    pub closed spec fn batons(&self) -> Set<int> {
        if self.destroying() {
            set![self.lap()]
        } else {
            Set::empty()
        }
    }

    /// The push has linked the first block at the tail and not yet at the head.
    pub closed spec fn publishes(&self) -> bool {
        self.phase == SegPhase::PushPublishFirst
    }

    /// The two operations hold no slot and no block in common.
    pub open spec fn apart(&self, other: &Self) -> bool {
        &&& self.writes().disjoint(other.writes())
        &&& self.reads().disjoint(other.reads())
        &&& self.batons().disjoint(other.batons())
        &&& !(self.publishes() && other.publishes())
    }

    /// The operation holds what the queue says is held, and nothing else is.
    pub open spec fn alone(&self, queue: &SegQueue<T>) -> bool {
        &&& queue.writers() =~= self.writes()
        &&& queue.readers() =~= self.reads()
        &&& queue.held_batons() =~= self.batons()
        &&& queue.publishing() == self.publishes()
    }

    /// The next step waits for another operation, or for room.
    pub closed spec fn blocked(&self, queue: &SegQueue<T>) -> bool {
        match self.phase {
            SegPhase::PushLoadIndex => offset_of(queue.tail.index@) == 31 || queue.is_full(),
            SegPhase::PopLoadIndex => offset_of(queue.head.index@) == 31,
            SegPhase::PopAwaitBlock => queue.head.block@ == crate::NULL,
            SegPhase::PopWaitNext => queue.next_of(self.lap()) == crate::NULL,
            SegPhase::PopWaitWrite => !is_written(queue.cell(self.lap(), self.place()).state@),
            _ => false,
        }
    }

    /// A bound on the steps that the operation still takes if no other operation
    /// takes a step in between.
    pub closed spec fn fuel(&self, queue: &SegQueue<T>) -> nat {
        let at_tail = queue.tail.index@ == self.index;
        let at_head = queue.head.index@ == self.index;
        match self.phase {
            SegPhase::Done => 0,
            SegPhase::PushMark => 1,
            SegPhase::PushWrite => 2,
            SegPhase::PushLinkBlock => 3,
            SegPhase::PushInstallIndex => 4,
            SegPhase::PushInstallBlock => 5,
            SegPhase::PushClaim => if at_tail {
                6
            } else {
                20
            },
            SegPhase::PushPublishFirst => if at_tail {
                7
            } else {
                21
            },
            SegPhase::PushInstallFirst => if queue.tail.block@ != crate::NULL {
                12
            } else if at_tail {
                8
            } else {
                22
            },
            SegPhase::PushLoadBlock => if !at_tail {
                23
            } else if queue.tail.block@ == crate::NULL {
                9
            } else {
                7
            },
            SegPhase::PushLoadIndex => 11,
            SegPhase::DestroyFree => 1,
            SegPhase::DestroyMark => (2 * (30 - self.at) + 1) as nat,
            SegPhase::DestroyCheck => (2 * (30 - self.at) + 2) as nat,
            SegPhase::PopMarkRead => 64,
            SegPhase::PopRead => 65,
            SegPhase::PopWaitWrite => 66,
            SegPhase::PopStoreIndex => 67,
            SegPhase::PopStoreBlock => 68,
            SegPhase::PopPeekNext => 69,
            SegPhase::PopWaitNext => 70,
            SegPhase::PopClaim => if at_head {
                71
            } else {
                100
            },
            SegPhase::PopAwaitBlock => 80,
            SegPhase::PopLoadTail => if at_head && self.block != crate::NULL {
                72
            } else {
                101
            },
            SegPhase::PopLoadBlock => if at_head && queue.head.block@ != crate::NULL {
                73
            } else {
                102
            },
            SegPhase::PopLoadIndex => if queue.head.block@ != crate::NULL {
                74
            } else {
                103
            },
        }
    }

    spec fn spare_ok(&self) -> bool {
        match self.spare {
            Some(block) => block.is_blank(),
            None => true,
        }
    }

    spec fn carrying(&self) -> bool {
        &&& self.push
        &&& self.value.is_some()
        &&& self.value == self.argument@
        &&& self.spare_ok()
    }

    spec fn tail_seen(&self, queue: &SegQueue<T>) -> bool {
        &&& self.index % 2 == 0
        &&& self.place() < 31
        &&& self.index <= queue.tail.index@
        &&& self.index <= INDEX_LIMIT - 4
    }

    spec fn ready_to_install(&self) -> bool {
        self.place() == 30 ==> self.spare.is_some()
    }

    spec fn tail_pair(&self, queue: &SegQueue<T>) -> bool {
        &&& self.block != crate::NULL
        &&& queue.tail.index@ == self.index ==> queue.tail.block@ == self.block
    }

    spec fn head_seen(&self, queue: &SegQueue<T>) -> bool {
        &&& self.place() < 31
        &&& self.index <= queue.head.index@
        &&& self.index % 2 == 1 ==> self.lap() < lap_of(queue.tail.index@)
    }

    spec fn head_pair(&self, queue: &SegQueue<T>) -> bool {
        &&& self.block != crate::NULL
        &&& queue.head.block@ != crate::NULL
        &&& queue.head.index@ == self.index ==> queue.head.block@ == self.block
    }

    spec fn target_ok(&self, queue: &SegQueue<T>) -> bool {
        &&& self.target == self.index + 2 || (self.index % 2 == 0 && self.target == self.index
            + 3)
        &&& self.target % 2 == 1 ==> self.lap() < lap_of(queue.tail.index@)
    }

    spec fn write_claim(&self, queue: &SegQueue<T>) -> bool {
        &&& self.push
        &&& self.index % 2 == 0
        &&& self.place() < 31
        &&& queue.writers@.contains(self.number())
        &&& queue.blocks@[self.lap()] == self.block
        &&& self.argument@ == Some(queue.log@[self.number()])
        &&& self.spare_ok()
    }

    /// A push that has claimed the last slot of a block has linked the next block.
    spec fn installed_next(&self, queue: &SegQueue<T>) -> bool {
        self.place() == 30 ==> queue.tail.index@ > self.index + 2 && queue.next_of(self.lap())
            != crate::NULL
    }

    spec fn read_claim(&self, queue: &SegQueue<T>) -> bool {
        &&& !self.push
        &&& self.place() < 31
        &&& queue.readers@.contains(self.number())
        &&& queue.blocks@[self.lap()] == self.block
        &&& self.expected@ == Some(queue.log@[self.number()])
    }

    /// The payload of the claimed slot is still in it, if it was written.
    spec fn unread(&self, queue: &SegQueue<T>) -> bool {
        is_written(queue.cell(self.lap(), self.place()).state@) ==> queue.cell(
            self.lap(),
            self.place(),
        ).value.is_some()
    }

    spec fn is_crossing(&self) -> bool {
        match self.phase {
            SegPhase::PopWaitNext
            | SegPhase::PopPeekNext
            | SegPhase::PopStoreBlock
            | SegPhase::PopStoreIndex => true,
            _ => false,
        }
    }

    spec fn crossing(&self, queue: &SegQueue<T>) -> bool {
        &&& self.read_claim(queue)
        &&& self.unread(queue)
        &&& self.place() == 30
        &&& self.target_ok(queue)
        &&& queue.head.index@ == self.target
    }

    /// A pop that has claimed the last slot of a block has moved the head on.
    spec fn crossed(&self, queue: &SegQueue<T>) -> bool {
        self.place() == 30 ==> position(queue.head.index@) > position(self.index) + 1
    }

    spec fn next_index_ok(&self, queue: &SegQueue<T>) -> bool {
        &&& self.next_index == self.target - self.target % 2 + 2 || self.next_index
            == self.target - self.target % 2 + 3
        &&& self.next_index % 2 == 1 ==> self.lap() + 1 < lap_of(queue.tail.index@)
    }

    spec fn baton_claim(&self, queue: &SegQueue<T>) -> bool {
        &&& !self.push
        &&& self.place() < 31
        &&& queue.blocks@.dom().contains(self.lap())
        &&& queue.blocks@[self.lap()] == self.block
        &&& queue.batons@[self.lap()] == Baton::Held(self.at as int)
        &&& self.value == self.expected@
        &&& self.expected@.is_some()
    }

    /// What the operation relies on between its steps.
    pub closed spec fn inv(&self, queue: &SegQueue<T>) -> bool {
        match self.phase {
            SegPhase::PushLoadIndex => self.carrying(),
            SegPhase::PushLoadBlock => self.carrying() && self.tail_seen(queue),
            SegPhase::PushInstallFirst => {
                &&& self.carrying()
                &&& self.tail_seen(queue)
                &&& self.ready_to_install()
            },
            SegPhase::PushPublishFirst => {
                &&& self.carrying()
                &&& self.tail_seen(queue)
                &&& self.ready_to_install()
                &&& self.tail_pair(queue)
                &&& queue.publishing@
                &&& queue.blocks@[0] == self.block
            },
            SegPhase::PushClaim => {
                &&& self.carrying()
                &&& self.tail_seen(queue)
                &&& self.ready_to_install()
                &&& self.tail_pair(queue)
            },
            SegPhase::PushInstallBlock => {
                &&& self.write_claim(queue)
                &&& self.carrying()
                &&& self.place() == 30
                &&& self.spare.is_some()
                &&& queue.tail.index@ == self.index + 2
                &&& queue.installed@ == self.lap() + 1
            },
            SegPhase::PushInstallIndex => {
                &&& self.write_claim(queue)
                &&& self.carrying()
                &&& self.place() == 30
                &&& queue.tail.index@ == self.index + 2
                &&& queue.installed@ == self.lap() + 2
                &&& queue.blocks@[self.lap() + 1] == self.next
                &&& self.next != crate::NULL
            },
            SegPhase::PushLinkBlock => {
                &&& self.write_claim(queue)
                &&& self.carrying()
                &&& self.place() == 30
                &&& queue.tail.index@ > self.index + 2
                &&& queue.installed@ >= self.lap() + 2
                &&& queue.blocks@[self.lap() + 1] == self.next
                &&& self.next != crate::NULL
                &&& queue.next_of(self.lap()) == crate::NULL
            },
            SegPhase::PushWrite => {
                &&& self.write_claim(queue)
                &&& self.carrying()
                &&& self.installed_next(queue)
            },
            SegPhase::PushMark => {
                &&& self.write_claim(queue)
                &&& self.installed_next(queue)
                &&& queue.cell(self.lap(), self.place()).value == self.argument@
            },
            SegPhase::PopLoadIndex => !self.push,
            SegPhase::PopAwaitBlock => !self.push && queue.installed@ > 0,
            SegPhase::PopLoadBlock => !self.push && self.head_seen(queue),
            SegPhase::PopLoadTail => {
                &&& !self.push
                &&& self.head_seen(queue)
                &&& self.index % 2 == 0
                &&& self.target == self.index + 2
                &&& self.block != crate::NULL ==> self.head_pair(queue)
            },
            SegPhase::PopClaim => {
                &&& !self.push
                &&& self.head_seen(queue)
                &&& self.head_pair(queue)
                &&& self.target_ok(queue)
                &&& position(self.index) < position(queue.tail.index@)
            },
            SegPhase::PopWaitNext => self.crossing(queue) && queue.head.block@ == self.block,
            SegPhase::PopPeekNext | SegPhase::PopStoreBlock => {
                &&& self.crossing(queue)
                &&& queue.head.block@ == self.block
                &&& self.next != crate::NULL
                &&& self.next == queue.next_of(self.lap())
                &&& self.phase == SegPhase::PopStoreBlock ==> self.next_index_ok(queue)
            },
            SegPhase::PopStoreIndex => {
                &&& self.crossing(queue)
                &&& self.next_index_ok(queue)
                &&& self.lap() + 1 < queue.installed@
                &&& queue.head.block@ == queue.blocks@[self.lap() + 1]
                &&& queue.next_of(self.lap()) != crate::NULL
            },
            SegPhase::PopWaitWrite => {
                &&& self.read_claim(queue)
                &&& self.crossed(queue)
                &&& self.unread(queue)
            },
            SegPhase::PopRead => {
                &&& self.read_claim(queue)
                &&& self.crossed(queue)
                &&& is_written(queue.cell(self.lap(), self.place()).state@)
                &&& queue.cell(self.lap(), self.place()).value.is_some()
            },
            SegPhase::PopMarkRead => {
                &&& self.read_claim(queue)
                &&& self.place() < 30
                &&& self.value == self.expected@
                &&& is_written(queue.cell(self.lap(), self.place()).state@)
            },
            SegPhase::DestroyCheck | SegPhase::DestroyMark => self.baton_claim(queue) && self.at
                < 30,
            SegPhase::DestroyFree => self.baton_claim(queue) && self.at == 30,
            SegPhase::Done => !self.push ==> self.value == self.expected@,
        }
    }

    /// What the step from `before` to `after` does to the contents: the effect
    /// of the operation, in the step in which it takes effect.
    pub open spec fn effect(before: Self, after: Self) -> Effect<T> {
        if before.pending() && !after.pending() {
            if before.is_push() {
                Effect::Pushed(before.argument())
            } else {
                taking(after.outcome())
            }
        } else {
            Effect::Nothing
        }
    }

    /// What one step of `before` on `queue0` has made of both.
    ///
    /// The contents change once, when the operation takes effect, and as the
    /// operation run alone would change them. Every other operation in progress,
    /// `o`, keeps what it relies on.
    pub open spec fn advances(
        before: Self,
        queue0: SegQueue<T>,
        after: Self,
        queue1: SegQueue<T>,
    ) -> bool {
        &&& queue1.wf()
        &&& after.inv(&queue1)
        &&& before.stage().succeeds(after.stage())
        &&& after.is_push() == before.is_push()
        &&& after.argument() == before.argument()
        &&& after.fuel(&queue1) < before.fuel(&queue0)
        &&& fifo(Self::effect(before, after), queue0@, queue1@)
        &&& after.pending() ==> before.pending()
        &&& !before.pending() ==> after.outcome() == before.outcome()
        &&& queue0.tail_index() <= queue1.tail_index() <= queue0.tail_index() + 2
        &&& after.pending() || !after.is_push() ==> queue1.tail_index() == queue0.tail_index()
        &&& before.is_push() ==> queue1.head_index() == queue0.head_index()
        &&& queue1.writers() =~= queue0.writers().difference(before.writes()).union(after.writes())
        &&& queue1.readers() =~= queue0.readers().difference(before.reads()).union(after.reads())
        &&& queue1.held_batons() =~= queue0.held_batons().difference(before.batons()).union(
            after.batons(),
        )
        &&& queue1.publishing() == ((queue0.publishing() && !before.publishes())
            || after.publishes())
        &&& forall|o: Self| #[trigger]
            o.inv(&queue0) && o.apart(&before) ==> o.inv(&queue1) && o.apart(&after)
    }

    /// How one step can move the queue: indexes grow, a block pointer changes
    /// only with its index or from null, the log grows, a live block stays
    /// where it is.
    spec fn drifts(queue0: SegQueue<T>, queue1: SegQueue<T>) -> bool {
        &&& queue1.tail.index@ >= queue0.tail.index@
        &&& queue1.head.index@ >= queue0.head.index@
        &&& queue1.tail.index@ == queue0.tail.index@ && queue0.tail.block@ != crate::NULL
            && offset_of(queue0.tail.index@) < 31 ==> queue1.tail.block@ == queue0.tail.block@
        &&& queue1.head.index@ == queue0.head.index@ && queue0.head.block@ != crate::NULL
            && offset_of(queue0.head.index@) < 31 ==> queue1.head.block@ == queue0.head.block@
        &&& queue0.head.block@ != crate::NULL ==> queue1.head.block@ != crate::NULL
        &&& queue1.installed@ >= queue0.installed@
        &&& queue1.log@.len() >= queue0.log@.len()
        &&& forall|n: int|
            0 <= n < queue0.log@.len() ==> #[trigger] queue1.log@[n] == queue0.log@[n]
        &&& forall|lap: int|
            queue0.blocks@.dom().contains(lap) && #[trigger] queue1.blocks@.dom().contains(lap)
                ==> queue1.blocks@[lap] == queue0.blocks@[lap]
    }

    /// What a step of another operation leaves as it is for `o`.
    spec fn keeps(queue0: SegQueue<T>, queue1: SegQueue<T>, o: Self) -> bool {
        let n = o.number();
        let lap = o.lap();
        let place = o.place();
        let cell0 = queue0.cell(lap, place);
        let cell1 = queue1.cell(lap, place);
        &&& o.writing() && queue0.writers@.contains(n) ==> {
            &&& queue1.writers@.contains(n)
            &&& cell1.value == cell0.value
            &&& place == 30 ==> {
                &&& queue1.next_of(lap) == queue0.next_of(lap)
                &&& queue0.tail.index@ == o.index + 2 ==> queue1.tail.index@
                    == queue0.tail.index@ && queue1.installed@ == queue0.installed@
            }
        }
        &&& o.reading() && queue0.readers@.contains(n) ==> {
            &&& queue1.readers@.contains(n)
            &&& is_written(cell0.state@) ==> is_written(cell1.state@) && (cell0.value.is_some()
                ==> cell1.value == cell0.value)
            &&& is_written(cell1.state@) && !is_written(cell0.state@) ==> cell1.value.is_some()
            &&& o.is_crossing() && queue0.head.index@ == o.target ==> queue1.head.index@
                == queue0.head.index@ && queue1.head.block@ == queue0.head.block@
            &&& queue0.next_of(lap) != crate::NULL ==> queue1.next_of(lap) == queue0.next_of(lap)
        }
        &&& o.destroying() && queue0.blocks@.dom().contains(lap) && queue0.batons@[lap] is Held
            ==> queue1.blocks@.dom().contains(lap) && queue1.batons@[lap] == queue0.batons@[lap]
        &&& o.publishes() && queue0.publishing@ ==> queue1.publishing@
    }

    proof fn lemma_kept(queue0: SegQueue<T>, queue1: SegQueue<T>, o: Self)
        requires
            queue0.wf(),
            queue1.wf(),
            o.inv(&queue0),
            Self::drifts(queue0, queue1),
            Self::keeps(queue0, queue1, o),
        ensures
            o.inv(&queue1),
    {
        let n = o.number();
        let lap = o.lap();
        assert(queue0.claim_ok(n));
        assert(queue1.claim_ok(n));
        if o.place() < 31 {
            lemma_slot_of(o.index);
        }
        lemma_count_grows(queue0.tail.index@, queue1.tail.index@);
        lemma_count_grows(queue0.head.index@, queue1.head.index@);
        lemma_count_grows(queue0.head.index@, queue0.tail.index@);
        lemma_count_grows(queue1.head.index@, queue1.tail.index@);
        if o.writing() || o.reading() {
            assert(queue0.blocks@.dom().contains(lap));
            assert(queue1.blocks@.dom().contains(lap));
            assert(queue0.block_ok(lap));
            assert(queue1.block_ok(lap));
            assert(queue0.slot_ok(lap, o.place()));
            assert(queue1.slot_ok(lap, o.place()));
        }
        if o.phase == SegPhase::PushPublishFirst {
            assert(queue0.blocks@.dom().contains(0));
            assert(queue1.blocks@.dom().contains(0));
        }
        if o.phase == SegPhase::PushInstallIndex || o.phase == SegPhase::PushLinkBlock {
            assert(queue0.blocks@.dom().contains(lap + 1));
            assert(queue1.blocks@.dom().contains(lap + 1));
        }
        if o.phase == SegPhase::PopStoreIndex {
            assert(queue0.blocks@.dom().contains(lap + 1));
            assert(queue1.blocks@.dom().contains(lap + 1));
        }
    }

    /// What one call of a step has done: nothing, if the operation had to
    /// wait, and else one access.
    pub open spec fn stepped(
        before: Self,
        queue0: SegQueue<T>,
        progressed: bool,
        after: Self,
        queue1: SegQueue<T>,
    ) -> bool {
        &&& progressed == !before.blocked(&queue0)
        &&& progressed ==> Self::advances(before, queue0, after, queue1)
        &&& !progressed ==> after == before && queue1 == queue0
    }

    /// Starts a push of `value`. Nothing is accessed yet.
    pub fn push(queue: &SegQueue<T>, value: T) -> (op: SegOp<T>)
        ensures
            op.inv(queue),
            op.is_push(),
            op.pending(),
            op.argument() == value,
            op.writes() =~= Set::<int>::empty(),
            op.reads() =~= Set::<int>::empty(),
            op.batons() =~= Set::<int>::empty(),
            !op.publishes(),
    {
        SegOp {
            push: true,
            phase: SegPhase::PushLoadIndex,
            index: 0,
            block: crate::NULL,
            target: 0,
            next: crate::NULL,
            next_index: 0,
            at: 0,
            spare: None,
            value: Some(value),
            argument: Ghost(Some(value)),
            expected: Ghost(None),
        }
    }

    /// Starts a pop. Nothing is accessed yet.
    pub fn pop(queue: &SegQueue<T>) -> (op: SegOp<T>)
        ensures
            op.inv(queue),
            !op.is_push(),
            op.pending(),
            op.writes() =~= Set::<int>::empty(),
            op.reads() =~= Set::<int>::empty(),
            op.batons() =~= Set::<int>::empty(),
            !op.publishes(),
    {
        SegOp {
            push: false,
            phase: SegPhase::PopLoadIndex,
            index: 0,
            block: crate::NULL,
            target: 0,
            next: crate::NULL,
            next_index: 0,
            at: 0,
            spare: None,
            value: None,
            argument: Ghost(None),
            expected: Ghost(None),
        }
    }

    fn push_load_index(&mut self, queue: &mut SegQueue<T>) -> (progressed: bool)
        requires
            old(self).phase == SegPhase::PushLoadIndex,
            old(queue).wf(),
            old(self).inv(old(queue)),
        ensures
            Self::stepped(*old(self), *old(queue), progressed, *final(self), *final(queue)),
    {
        let tail = queue.tail.index.load(MemoryOrder::Acquire);
        if offset(tail) == BLOCK_CAP || tail > INDEX_LIMIT - 4 {
            return false;
        }
        self.index = tail;
        self.phase = SegPhase::PushLoadBlock;
        true
    }

    fn push_load_block(&mut self, queue: &mut SegQueue<T>) -> (progressed: bool)
        requires
            old(self).phase == SegPhase::PushLoadBlock,
            old(queue).wf(),
            old(self).inv(old(queue)),
        ensures
            Self::stepped(*old(self), *old(queue), progressed, *final(self), *final(queue)),
    {
        let block = queue.tail.block.load(MemoryOrder::Acquire);
        self.block = block;
        // The next block is made ahead of the claim that needs it.
        if offset(self.index) + 1 == BLOCK_CAP && self.spare.is_none() {
            self.spare = Some(Block::new());
        }
        if block == crate::NULL {
            self.phase = SegPhase::PushInstallFirst;
        } else {
            self.phase = SegPhase::PushClaim;
        }
        true
    }

    /// The queue after a step that has written no cell anew.
    proof fn lemma_unchanged(queue0: SegQueue<T>, queue1: SegQueue<T>)
        requires
            queue0.wf(),
            queue1.memory.wf(),
            queue1.memory@ == queue0.memory@,
            queue1.head == queue0.head,
            queue1.tail == queue0.tail,
            queue1.log == queue0.log,
            queue1.blocks == queue0.blocks,
            queue1.installed == queue0.installed,
            queue1.laps == queue0.laps,
            queue1.batons == queue0.batons,
            queue1.writers == queue0.writers,
            queue1.readers == queue0.readers,
            queue1.publishing == queue0.publishing,
        ensures
            queue1.wf(),
            queue1@ == queue0@,
            Self::drifts(queue0, queue1),
            queue1.held_batons() == queue0.held_batons(),
            forall|o: Self| #[trigger] o.inv(&queue0) ==> o.inv(&queue1),
    {
        assert forall|lap: int| #[trigger] queue1.blocks@.dom().contains(lap) implies queue1.block_ok(
            lap,
        ) by {
            assert(queue0.block_ok(lap));
            assert forall|place: int| 0 <= place < 31 implies #[trigger] queue1.slot_ok(
                lap,
                place,
            ) by {
                assert(queue0.slot_ok(lap, place));
            }
        }
        assert forall|addr: usize| #[trigger] queue1.home_ok(addr) by {
            assert(queue0.home_ok(addr));
        }
        assert forall|n: int| #[trigger] queue1.claim_ok(n) by {
            assert(queue0.claim_ok(n));
        }
        assert forall|o: Self| #[trigger] o.inv(&queue0) implies o.inv(&queue1) by {
            Self::lemma_kept(queue0, queue1, o);
        }
    }

    fn push_install_first(&mut self, queue: &mut SegQueue<T>) -> (progressed: bool)
        requires
            old(self).phase == SegPhase::PushInstallFirst,
            old(queue).wf(),
            old(self).inv(old(queue)),
        ensures
            Self::stepped(*old(self), *old(queue), progressed, *final(self), *final(queue)),
    {
        let new = queue.memory.allocate(Block::new());
        let linked = queue.tail.block.compare_exchange(
            crate::NULL,
            new,
            MemoryOrder::Release,
            MemoryOrder::Relaxed,
        );
        if linked.is_ok() {
            self.block = new;
            self.phase = SegPhase::PushPublishFirst;
            proof {
                queue.installed@ = 1;
                queue.blocks@ = queue.blocks@.insert(0, new);
                queue.laps@ = queue.laps@.insert(new, 0);
                queue.batons@ = queue.batons@.insert(0, Baton::Idle);
                queue.publishing@ = true;
                Self::lemma_first_installed(*old(self), *old(queue), *self, *queue);
            }
        } else {
            // The block that is not needed now serves as the next one.
            let block = queue.memory.free(new);
            self.spare = Some(block);
            self.phase = SegPhase::PushLoadIndex;
            proof {
                assert(queue.memory@ =~= old(queue).memory@);
                Self::lemma_unchanged(*old(queue), *queue);
            }
        }
        true
    }

    proof fn lemma_first_installed(
        before: Self,
        queue0: SegQueue<T>,
        after: Self,
        queue1: SegQueue<T>,
    )
        requires
            queue0.wf(),
            before.inv(&queue0),
            before.phase == SegPhase::PushInstallFirst,
            after.phase == SegPhase::PushPublishFirst,
            after.push == before.push,
            after.index == before.index,
            after.spare == before.spare,
            after.value == before.value,
            after.argument == before.argument,
            after.expected == before.expected,
            after.block != crate::NULL,
            !queue0.memory.is_live(after.block),
            queue0.tail.block@ == crate::NULL,
            queue1.tail.block@ == after.block,
            queue1.tail.index == queue0.tail.index,
            queue1.head == queue0.head,
            queue1.memory.wf(),
            queue1.memory@.dom() =~= queue0.memory@.dom().insert(after.block),
            queue1.memory@[after.block].is_blank(),
            forall|a: usize|
                queue0.memory.is_live(a) ==> #[trigger] queue1.memory@[a] == queue0.memory@[a],
            queue1.log == queue0.log,
            queue1.installed@ == 1,
            queue1.blocks@ == queue0.blocks@.insert(0, after.block),
            queue1.laps@ == queue0.laps@.insert(after.block, 0),
            queue1.batons@ == queue0.batons@.insert(0, Baton::Idle),
            queue1.writers == queue0.writers,
            queue1.readers == queue0.readers,
            queue1.publishing@,
        ensures
            Self::advances(before, queue0, after, queue1),
    {
        queue0.lemma_tail_block();
        assert(queue0.installed@ == 0);
        assert forall|lap: int| !queue0.blocks@.dom().contains(lap) by {
            if queue0.blocks@.dom().contains(lap) {
                assert(queue0.block_ok(lap));
            }
        }
        assert forall|n: int| !queue0.writers@.contains(n) && !queue0.readers@.contains(n) by {
            assert(queue0.claim_ok(n));
            lemma_count_grows(queue0.head.index@, queue0.tail.index@);
        }
        lemma_count_grows(queue0.head.index@, queue0.tail.index@);
        assert forall|lap: int| #[trigger] queue1.blocks@.dom().contains(lap) implies queue1.block_ok(
            lap,
        ) by {
            assert(lap == 0);
            assert forall|place: int| 0 <= place < 31 implies #[trigger] queue1.slot_ok(
                lap,
                place,
            ) by {
                lemma_state_bits(0);
            }
        }
        assert forall|addr: usize| #[trigger] queue1.home_ok(addr) by {
            assert(queue0.home_ok(addr));
        }
        assert forall|n: int| #[trigger] queue1.claim_ok(n) by {}
        assert(queue1.wf());
        assert(queue1@ =~= queue0@);
        assert(queue1.held_batons() =~= queue0.held_batons());
        assert(Self::drifts(queue0, queue1));
        assert forall|o: Self| #[trigger] o.inv(&queue0) && o.apart(&before) implies o.inv(&queue1)
            && o.apart(&after) by {
            assert(!queue0.publishing@);
            Self::lemma_kept(queue0, queue1, o);
        }
    }

    fn push_publish_first(&mut self, queue: &mut SegQueue<T>) -> (progressed: bool)
        requires
            old(self).phase == SegPhase::PushPublishFirst,
            old(queue).wf(),
            old(self).inv(old(queue)),
        ensures
            Self::stepped(*old(self), *old(queue), progressed, *final(self), *final(queue)),
    {
        queue.head.block.store(self.block, MemoryOrder::Release);
        self.phase = SegPhase::PushClaim;
        proof {
            queue.publishing@ = false;
            Self::lemma_first_published(*old(self), *old(queue), *self, *queue);
        }
        true
    }

    proof fn lemma_first_published(
        before: Self,
        queue0: SegQueue<T>,
        after: Self,
        queue1: SegQueue<T>,
    )
        requires
            queue0.wf(),
            before.inv(&queue0),
            before.phase == SegPhase::PushPublishFirst,
            after.phase == SegPhase::PushClaim,
            after.push == before.push,
            after.index == before.index,
            after.block == before.block,
            after.spare == before.spare,
            after.value == before.value,
            after.argument == before.argument,
            after.expected == before.expected,
            queue1.head.block@ == before.block,
            queue1.head.index == queue0.head.index,
            queue1.tail == queue0.tail,
            queue1.memory == queue0.memory,
            queue1.log == queue0.log,
            queue1.installed == queue0.installed,
            queue1.blocks == queue0.blocks,
            queue1.laps == queue0.laps,
            queue1.batons == queue0.batons,
            queue1.writers == queue0.writers,
            queue1.readers == queue0.readers,
            !queue1.publishing@,
        ensures
            Self::advances(before, queue0, after, queue1),
    {
        assert(queue0.head.block@ == crate::NULL);
        assert(queue0.head.index@ == 0);
        assert forall|n: int| !queue0.readers@.contains(n) by {
            assert(queue0.claim_ok(n));
        }
        assert forall|lap: int| #[trigger] queue1.blocks@.dom().contains(lap) implies queue1.block_ok(
            lap,
        ) by {
            assert(queue0.block_ok(lap));
            assert forall|place: int| 0 <= place < 31 implies #[trigger] queue1.slot_ok(
                lap,
                place,
            ) by {
                assert(queue0.slot_ok(lap, place));
            }
        }
        assert forall|addr: usize| #[trigger] queue1.home_ok(addr) by {
            assert(queue0.home_ok(addr));
        }
        assert forall|n: int| #[trigger] queue1.claim_ok(n) by {
            assert(queue0.claim_ok(n));
        }
        assert(queue1.wf());
        assert(queue1@ =~= queue0@);
        assert(queue1.held_batons() =~= queue0.held_batons());
        assert(Self::drifts(queue0, queue1));
        assert forall|o: Self| #[trigger] o.inv(&queue0) && o.apart(&before) implies o.inv(&queue1)
            && o.apart(&after) by {
            Self::lemma_kept(queue0, queue1, o);
        }
    }

    fn push_claim(&mut self, queue: &mut SegQueue<T>) -> (progressed: bool)
        requires
            old(self).phase == SegPhase::PushClaim,
            old(queue).wf(),
            old(self).inv(old(queue)),
        ensures
            Self::stepped(*old(self), *old(queue), progressed, *final(self), *final(queue)),
    {
        let new_tail = self.index + STEP;
        // Try advancing the tail forward.
        match queue.tail.index.compare_exchange(
            self.index,
            new_tail,
            MemoryOrder::SeqCst,
            MemoryOrder::Acquire,
        ) {
            Ok(_) => {
                if offset(self.index) + 1 == BLOCK_CAP {
                    self.phase = SegPhase::PushInstallBlock;
                } else {
                    self.phase = SegPhase::PushWrite;
                }
                proof {
                    queue.log@ = queue.log@.push(self.argument());
                    queue.writers@ = queue.writers@.insert(self.number());
                    Self::lemma_push_claimed(*old(self), *old(queue), *self, *queue);
                }
            },
            Err(tail) => {
                if offset(tail) == BLOCK_CAP || tail > INDEX_LIMIT - 4 {
                    self.phase = SegPhase::PushLoadIndex;
                } else {
                    self.index = tail;
                    self.phase = SegPhase::PushLoadBlock;
                }
            },
        }
        true
    }

    proof fn lemma_push_claimed(
        before: Self,
        queue0: SegQueue<T>,
        after: Self,
        queue1: SegQueue<T>,
    )
        requires
            queue0.wf(),
            before.inv(&queue0),
            before.phase == SegPhase::PushClaim,
            after.phase == if before.place() == 30 {
                SegPhase::PushInstallBlock
            } else {
                SegPhase::PushWrite
            },
            after.push == before.push,
            after.index == before.index,
            after.block == before.block,
            after.spare == before.spare,
            after.value == before.value,
            after.argument == before.argument,
            after.expected == before.expected,
            queue0.tail.index@ == before.index,
            queue1.tail.index@ == before.index + 2,
            queue1.tail.block == queue0.tail.block,
            queue1.head == queue0.head,
            queue1.memory == queue0.memory,
            queue1.log@ == queue0.log@.push(before.argument()),
            queue1.installed == queue0.installed,
            queue1.blocks == queue0.blocks,
            queue1.laps == queue0.laps,
            queue1.batons == queue0.batons,
            queue1.writers@ == queue0.writers@.insert(before.number()),
            queue1.readers == queue0.readers,
            queue1.publishing == queue0.publishing,
        ensures
            Self::advances(before, queue0, after, queue1),
    {
        let n = before.number();
        let lap = before.lap();
        lemma_slot_of(before.index);
        lemma_step_index(before.index, queue1.tail.index@);
        lemma_count_grows(queue0.head.index@, queue0.tail.index@);
        lemma_count_grows(queue0.head.index@, queue1.tail.index@);
        queue0.lemma_tail_block();
        assert(queue0.claim_ok(n));
        assert(queue0.blocks@.dom().contains(lap));
        assert forall|m: int| #[trigger] queue1.blocks@.dom().contains(m) implies queue1.block_ok(
            m,
        ) by {
            assert(queue0.block_ok(m));
            assert(queue0.claim_ok(31 * m + 30));
            assert forall|place: int| 0 <= place < 31 implies #[trigger] queue1.slot_ok(
                m,
                place,
            ) by {
                assert(queue0.slot_ok(m, place));
                assert(queue0.claim_ok(31 * m + place));
                lemma_state_bits(0);
            }
        }
        assert forall|addr: usize| #[trigger] queue1.home_ok(addr) by {
            assert(queue0.home_ok(addr));
        }
        assert forall|m: int| #[trigger] queue1.claim_ok(m) by {
            assert(queue0.claim_ok(m));
        }
        assert(queue1.indexes_ok());
        assert(queue1.pointers_ok());
        assert(queue1.wf());
        assert(queue1@ =~= queue0@.push(before.argument()));
        assert(queue1.held_batons() =~= queue0.held_batons());
        assert(Self::drifts(queue0, queue1));
        assert(after.inv(&queue1));
        assert forall|o: Self| #[trigger] o.inv(&queue0) && o.apart(&before) implies o.inv(&queue1)
            && o.apart(&after) by {
            assert(queue0.claim_ok(o.number()));
            Self::lemma_kept(queue0, queue1, o);
        }
    }

    fn push_install_block(&mut self, queue: &mut SegQueue<T>) -> (progressed: bool)
        requires
            old(self).phase == SegPhase::PushInstallBlock,
            old(queue).wf(),
            old(self).inv(old(queue)),
        ensures
            Self::stepped(*old(self), *old(queue), progressed, *final(self), *final(queue)),
    {
        if let Some(block) = self.spare.take() {
            let next = queue.memory.allocate(block);
            queue.tail.block.store(next, MemoryOrder::Release);
            self.next = next;
            proof {
                queue.blocks@ = queue.blocks@.insert(self.lap() + 1, next);
                queue.laps@ = queue.laps@.insert(next, self.lap() + 1);
                queue.batons@ = queue.batons@.insert(self.lap() + 1, Baton::Idle);
                queue.installed@ = queue.installed@ + 1;
            }
        }
        self.phase = SegPhase::PushInstallIndex;
        proof {
            Self::lemma_block_installed(*old(self), *old(queue), *self, *queue);
        }
        true
    }

    proof fn lemma_block_installed(
        before: Self,
        queue0: SegQueue<T>,
        after: Self,
        queue1: SegQueue<T>,
    )
        requires
            queue0.wf(),
            before.inv(&queue0),
            before.phase == SegPhase::PushInstallBlock,
            after.phase == SegPhase::PushInstallIndex,
            after.push == before.push,
            after.index == before.index,
            after.block == before.block,
            after.spare.is_none(),
            after.value == before.value,
            after.argument == before.argument,
            after.expected == before.expected,
            after.next != crate::NULL,
            !queue0.memory.is_live(after.next),
            queue1.tail.block@ == after.next,
            queue1.tail.index == queue0.tail.index,
            queue1.head == queue0.head,
            queue1.memory.wf(),
            queue1.memory@.dom() =~= queue0.memory@.dom().insert(after.next),
            queue1.memory@[after.next].is_blank(),
            forall|a: usize|
                queue0.memory.is_live(a) ==> #[trigger] queue1.memory@[a] == queue0.memory@[a],
            queue1.log == queue0.log,
            queue1.installed@ == queue0.installed@ + 1,
            queue1.blocks@ == queue0.blocks@.insert(before.lap() + 1, after.next),
            queue1.laps@ == queue0.laps@.insert(after.next, before.lap() + 1),
            queue1.batons@ == queue0.batons@.insert(before.lap() + 1, Baton::Idle),
            queue1.writers == queue0.writers,
            queue1.readers == queue0.readers,
            queue1.publishing == queue0.publishing,
        ensures
            Self::advances(before, queue0, after, queue1),
    {
        let n = before.number();
        let lap = before.lap();
        let fresh = lap + 1;
        lemma_slot_of(before.index);
        lemma_step_index(before.index, queue0.tail.index@);
        lemma_count_grows(queue0.head.index@, queue0.tail.index@);
        queue0.lemma_tail_block();
        assert(queue0.claim_ok(n));
        assert(!queue0.blocks@.dom().contains(fresh)) by {
            if queue0.blocks@.dom().contains(fresh) {
                assert(queue0.block_ok(fresh));
            }
        }
        assert forall|m: int| #[trigger] queue1.blocks@.dom().contains(m) implies queue1.block_ok(
            m,
        ) by {
            if m == fresh {
                assert forall|place: int| 0 <= place < 31 implies #[trigger] queue1.slot_ok(
                    m,
                    place,
                ) by {
                    lemma_state_bits(0);
                    assert(queue0.claim_ok(31 * m + place));
                }
                assert(queue0.claim_ok(31 * m + 30));
            } else {
                assert(queue0.block_ok(m));
                assert(queue0.home_ok(queue0.blocks@[m]));
                assert(queue0.claim_ok(31 * m + 30));
                assert forall|place: int| 0 <= place < 31 implies #[trigger] queue1.slot_ok(
                    m,
                    place,
                ) by {
                    assert(queue0.slot_ok(m, place));
                    assert(queue0.claim_ok(31 * m + place));
                }
            }
        }
        assert forall|addr: usize| #[trigger] queue1.home_ok(addr) by {
            assert(queue0.home_ok(addr));
        }
        assert forall|m: int| #[trigger] queue1.claim_ok(m) by {
            assert(queue0.claim_ok(m));
        }
        assert(queue1.indexes_ok());
        assert(queue1.pointers_ok());
        assert(queue1.wf());
        assert(queue1@ =~= queue0@);
        assert(queue1.held_batons() =~= queue0.held_batons());
        assert(Self::drifts(queue0, queue1));
        assert(after.inv(&queue1));
        assert forall|o: Self| #[trigger] o.inv(&queue0) && o.apart(&before) implies o.inv(&queue1)
            && o.apart(&after) by {
            assert(queue0.claim_ok(o.number()));
            if o.writing() {
                assert(before.writes().contains(n));
                assert(o.number() != n);
                lemma_slot_of(o.index);
            }
            if o.reading() {
                lemma_slot_of(o.index);
            }
            if (o.writing() || o.reading()) {
                assert(queue0.block_ok(o.lap()));
                assert(queue0.home_ok(queue0.blocks@[o.lap()]));
            }
            Self::lemma_kept(queue0, queue1, o);
        }
    }

    fn push_install_index(&mut self, queue: &mut SegQueue<T>) -> (progressed: bool)
        requires
            old(self).phase == SegPhase::PushInstallIndex,
            old(queue).wf(),
            old(self).inv(old(queue)),
        ensures
            Self::stepped(*old(self), *old(queue), progressed, *final(self), *final(queue)),
    {
        let next_index = self.index + STEP + STEP;
        queue.tail.index.store(next_index, MemoryOrder::Release);
        self.phase = SegPhase::PushLinkBlock;
        proof {
            Self::lemma_index_installed(*old(self), *old(queue), *self, *queue);
        }
        true
    }

    proof fn lemma_index_installed(
        before: Self,
        queue0: SegQueue<T>,
        after: Self,
        queue1: SegQueue<T>,
    )
        requires
            queue0.wf(),
            before.inv(&queue0),
            before.phase == SegPhase::PushInstallIndex,
            after.phase == SegPhase::PushLinkBlock,
            after.push == before.push,
            after.index == before.index,
            after.block == before.block,
            after.next == before.next,
            after.spare == before.spare,
            after.value == before.value,
            after.argument == before.argument,
            after.expected == before.expected,
            queue1.tail.index@ == before.index + 4,
            queue1.tail.block == queue0.tail.block,
            queue1.head == queue0.head,
            queue1.memory == queue0.memory,
            queue1.log == queue0.log,
            queue1.installed == queue0.installed,
            queue1.blocks == queue0.blocks,
            queue1.laps == queue0.laps,
            queue1.batons == queue0.batons,
            queue1.writers == queue0.writers,
            queue1.readers == queue0.readers,
            queue1.publishing == queue0.publishing,
        ensures
            Self::advances(before, queue0, after, queue1),
    {
        let n = before.number();
        let lap = before.lap();
        lemma_slot_of(before.index);
        lemma_step_index(before.index, queue0.tail.index@);
        lemma_step_index(queue0.tail.index@, queue1.tail.index@);
        lemma_count_grows(queue0.head.index@, queue0.tail.index@);
        lemma_count_grows(queue0.head.index@, queue1.tail.index@);
        assert(queue0.claim_ok(n));
        assert(queue0.block_ok(lap));
        assert forall|m: int| #[trigger] queue1.blocks@.dom().contains(m) implies queue1.block_ok(
            m,
        ) by {
            assert(queue0.block_ok(m));
            assert(queue0.claim_ok(31 * m + 30));
            assert forall|place: int| 0 <= place < 31 implies #[trigger] queue1.slot_ok(
                m,
                place,
            ) by {
                assert(queue0.slot_ok(m, place));
                assert(queue0.claim_ok(31 * m + place));
            }
        }
        assert forall|addr: usize| #[trigger] queue1.home_ok(addr) by {
            assert(queue0.home_ok(addr));
        }
        assert forall|m: int| #[trigger] queue1.claim_ok(m) by {
            assert(queue0.claim_ok(m));
        }
        assert(queue1.indexes_ok());
        assert(queue1.pointers_ok());
        assert(queue1.wf());
        assert(queue1@ =~= queue0@);
        assert(queue1.held_batons() =~= queue0.held_batons());
        assert(Self::drifts(queue0, queue1));
        assert(after.inv(&queue1));
        assert forall|o: Self| #[trigger] o.inv(&queue0) && o.apart(&before) implies o.inv(&queue1)
            && o.apart(&after) by {
            assert(queue0.claim_ok(o.number()));
            if o.writing() {
                assert(before.writes().contains(n));
                assert(o.number() != n);
                lemma_slot_of(o.index);
            }
            Self::lemma_kept(queue0, queue1, o);
        }
    }

    fn push_link_block(&mut self, queue: &mut SegQueue<T>) -> (progressed: bool)
        requires
            old(self).phase == SegPhase::PushLinkBlock,
            old(queue).wf(),
            old(self).inv(old(queue)),
        ensures
            Self::stepped(*old(self), *old(queue), progressed, *final(self), *final(queue)),
    {
        proof {
            lemma_slot_of(self.index);
            assert(queue.claim_ok(self.number()));
            assert(queue.block_ok(self.lap()));
        }
        let block = queue.memory.get_mut(self.block);
        block.next.store(self.next, MemoryOrder::Release);
        self.phase = SegPhase::PushWrite;
        proof {
            Self::lemma_block_linked(*old(self), *old(queue), *self, *queue);
        }
        true
    }

    proof fn lemma_block_linked(
        before: Self,
        queue0: SegQueue<T>,
        after: Self,
        queue1: SegQueue<T>,
    )
        requires
            queue0.wf(),
            before.inv(&queue0),
            before.phase == SegPhase::PushLinkBlock,
            after.phase == SegPhase::PushWrite,
            after.push == before.push,
            after.index == before.index,
            after.block == before.block,
            after.spare == before.spare,
            after.value == before.value,
            after.argument == before.argument,
            after.expected == before.expected,
            queue1.memory.wf(),
            queue1.memory@.dom() =~= queue0.memory@.dom(),
            queue1.memory@[before.block].next@ == before.next,
            queue1.memory@[before.block].slots == queue0.memory@[before.block].slots,
            forall|a: usize| a != before.block ==> #[trigger] queue1.memory@[a] == queue0.memory@[a],
            queue1.tail == queue0.tail,
            queue1.head == queue0.head,
            queue1.log == queue0.log,
            queue1.installed == queue0.installed,
            queue1.blocks == queue0.blocks,
            queue1.laps == queue0.laps,
            queue1.batons == queue0.batons,
            queue1.writers == queue0.writers,
            queue1.readers == queue0.readers,
            queue1.publishing == queue0.publishing,
        ensures
            Self::advances(before, queue0, after, queue1),
    {
        let n = before.number();
        let lap = before.lap();
        lemma_slot_of(before.index);
        lemma_count_grows(queue0.head.index@, queue0.tail.index@);
        assert(queue0.claim_ok(n));
        assert(queue0.block_ok(lap));
        assert(position(queue0.tail.index@) >= position(before.index) + 2);
        assert forall|m: int| #[trigger] queue1.blocks@.dom().contains(m) implies queue1.block_ok(
            m,
        ) by {
            assert(queue0.block_ok(m));
            assert(queue0.claim_ok(31 * m + 30));
            assert forall|place: int| 0 <= place < 31 implies #[trigger] queue1.slot_ok(
                m,
                place,
            ) by {
                assert(queue0.slot_ok(m, place));
                assert(queue0.claim_ok(31 * m + place));
            }
        }
        assert forall|addr: usize| #[trigger] queue1.home_ok(addr) by {
            assert(queue0.home_ok(addr));
        }
        assert forall|m: int| #[trigger] queue1.claim_ok(m) by {
            assert(queue0.claim_ok(m));
        }
        assert(queue1.wf());
        assert(queue1@ =~= queue0@);
        assert(queue1.held_batons() =~= queue0.held_batons());
        assert(Self::drifts(queue0, queue1));
        assert(after.inv(&queue1));
        assert forall|o: Self| #[trigger] o.inv(&queue0) && o.apart(&before) implies o.inv(&queue1)
            && o.apart(&after) by {
            assert(queue0.claim_ok(o.number()));
            if o.writing() {
                assert(before.writes().contains(n));
                assert(o.number() != n);
                lemma_slot_of(o.index);
            }
            if o.reading() {
                lemma_slot_of(o.index);
            }
            if (o.writing() || o.reading()) {
                assert(queue0.block_ok(o.lap()));
            }
            Self::lemma_kept(queue0, queue1, o);
        }
    }

    /// The claimed slot lies in a live block, at the place that the index says.
    proof fn lemma_claimed_slot(&self, queue: &SegQueue<T>)
        requires
            queue.wf(),
            self.place() < 31,
            queue.writers@.contains(self.number()) || queue.readers@.contains(self.number()),
        ensures
            queue.blocks@.dom().contains(self.lap()),
            queue.block_ok(self.lap()),
            queue.slot_ok(self.lap(), self.place()),
            queue.memory.is_live(queue.blocks@[self.lap()]),
            queue.memory@[queue.blocks@[self.lap()]].slots.len() == BLOCK_CAP,
            31 * self.lap() + self.place() == self.number(),
            0 <= self.place(),
            0 <= self.number() < queue.log@.len(),
    {
        lemma_slot_of(self.index);
        lemma_count_grows(queue.head.index@, queue.tail.index@);
        assert(queue.claim_ok(self.number()));
        assert(queue.block_ok(self.lap()));
        assert(queue.slot_ok(self.lap(), self.place()));
    }

    fn push_write(&mut self, queue: &mut SegQueue<T>) -> (progressed: bool)
        requires
            old(self).phase == SegPhase::PushWrite,
            old(queue).wf(),
            old(self).inv(old(queue)),
        ensures
            Self::stepped(*old(self), *old(queue), progressed, *final(self), *final(queue)),
    {
        proof {
            self.lemma_claimed_slot(queue);
        }
        let place = offset(self.index);
        let block = queue.memory.get_mut(self.block);
        // Write the value into the slot.
        block.slots[place].value = self.value.take();
        self.phase = SegPhase::PushMark;
        proof {
            Self::lemma_slot_changed(*old(self), *old(queue), *self, *queue);
        }
        true
    }

    fn push_mark(&mut self, queue: &mut SegQueue<T>) -> (progressed: bool)
        requires
            old(self).phase == SegPhase::PushMark,
            old(queue).wf(),
            old(self).inv(old(queue)),
        ensures
            Self::stepped(*old(self), *old(queue), progressed, *final(self), *final(queue)),
    {
        proof {
            self.lemma_claimed_slot(queue);
        }
        let place = offset(self.index);
        let block = queue.memory.get_mut(self.block);
        block.slots[place].state.fetch_or(WRITE, MemoryOrder::Release);
        self.phase = SegPhase::Done;
        proof {
            queue.writers@ = queue.writers@.remove(self.number());
            Self::lemma_slot_changed(*old(self), *old(queue), *self, *queue);
        }
        true
    }

    /// The queue after a push has written its payload into its slot, or has
    /// marked the slot as written.
    proof fn lemma_slot_changed(before: Self, queue0: SegQueue<T>, after: Self, queue1: SegQueue<T>)
        requires
            queue0.wf(),
            before.inv(&queue0),
            before.phase == SegPhase::PushWrite || before.phase == SegPhase::PushMark,
            after.phase == if before.phase == SegPhase::PushWrite {
                SegPhase::PushMark
            } else {
                SegPhase::Done
            },
            after.push == before.push,
            after.index == before.index,
            after.block == before.block,
            after.spare == before.spare,
            after.argument == before.argument,
            after.expected == before.expected,
            queue1.memory.wf(),
            queue1.memory@.dom() =~= queue0.memory@.dom(),
            queue1.memory@[before.block].next == queue0.memory@[before.block].next,
            queue1.memory@[before.block].slots.len() == BLOCK_CAP,
            forall|place: int|
                0 <= place < 31 && place != before.place()
                    ==> #[trigger] queue1.memory@[before.block].slots[place]
                    == queue0.memory@[before.block].slots[place],
            before.phase == SegPhase::PushWrite ==> queue1.cell(
                before.lap(),
                before.place(),
            ).value == before.argument@ && queue1.cell(before.lap(), before.place()).state
                == queue0.cell(before.lap(), before.place()).state,
            before.phase == SegPhase::PushMark ==> queue1.cell(before.lap(), before.place()).value
                == queue0.cell(before.lap(), before.place()).value && queue1.cell(
                before.lap(),
                before.place(),
            ).state@ == queue0.cell(before.lap(), before.place()).state@ | WRITE,
            forall|a: usize| a != before.block ==> #[trigger] queue1.memory@[a] == queue0.memory@[a],
            queue1.tail == queue0.tail,
            queue1.head == queue0.head,
            queue1.log == queue0.log,
            queue1.installed == queue0.installed,
            queue1.blocks == queue0.blocks,
            queue1.laps == queue0.laps,
            queue1.batons == queue0.batons,
            queue1.writers@ == if before.phase == SegPhase::PushWrite {
                queue0.writers@
            } else {
                queue0.writers@.remove(before.number())
            },
            queue1.readers == queue0.readers,
            queue1.publishing == queue0.publishing,
        ensures
            Self::advances(before, queue0, after, queue1),
    {
        let n = before.number();
        let lap = before.lap();
        let place = before.place();
        before.lemma_claimed_slot(&queue0);
        lemma_count_grows(queue0.head.index@, queue0.tail.index@);
        lemma_state_bits(queue0.cell(lap, place).state@);
        lemma_step_index(before.index, (before.index + 2) as usize);
        assert forall|m: int| #[trigger] queue1.blocks@.dom().contains(m) implies queue1.block_ok(
            m,
        ) by {
            assert(queue0.block_ok(m));
            assert(queue0.claim_ok(31 * m + 30));
            assert forall|at: int| 0 <= at < 31 implies #[trigger] queue1.slot_ok(m, at) by {
                assert(queue0.slot_ok(m, at));
                assert(queue0.claim_ok(31 * m + at));
            }
            if let Baton::Parked(at) = queue0.batons@[m] {
                assert(queue0.slot_ok(m, at));
            }
        }
        assert forall|addr: usize| #[trigger] queue1.home_ok(addr) by {
            assert(queue0.home_ok(addr));
        }
        assert forall|m: int| #[trigger] queue1.claim_ok(m) by {
            assert(queue0.claim_ok(m));
        }
        assert(queue1.indexes_ok());
        assert(queue1.wf());
        assert(queue1@ =~= queue0@);
        assert(queue1.held_batons() =~= queue0.held_batons());
        assert(Self::drifts(queue0, queue1));
        assert(after.inv(&queue1));
        assert forall|o: Self| #[trigger] o.inv(&queue0) && o.apart(&before) implies o.inv(&queue1)
            && o.apart(&after) by {
            assert(queue0.claim_ok(o.number()));
            if o.writing() {
                assert(before.writes().contains(n));
                assert(o.number() != n);
                o.lemma_claimed_slot(&queue0);
            }
            if o.reading() {
                o.lemma_claimed_slot(&queue0);
            }
            Self::lemma_kept(queue0, queue1, o);
        }
    }

    fn pop_load_index(&mut self, queue: &mut SegQueue<T>) -> (progressed: bool)
        requires
            old(self).phase == SegPhase::PopLoadIndex,
            old(queue).wf(),
            old(self).inv(old(queue)),
        ensures
            Self::stepped(*old(self), *old(queue), progressed, *final(self), *final(queue)),
    {
        let head = queue.head.index.load(MemoryOrder::Acquire);
        if offset(head) == BLOCK_CAP {
            return false;
        }
        self.index = head;
        self.phase = SegPhase::PopLoadBlock;
        true
    }

    fn pop_load_block(&mut self, queue: &mut SegQueue<T>) -> (progressed: bool)
        requires
            old(self).phase == SegPhase::PopLoadBlock,
            old(queue).wf(),
            old(self).inv(old(queue)),
        ensures
            Self::stepped(*old(self), *old(queue), progressed, *final(self), *final(queue)),
    {
        proof {
            lemma_count_grows(queue.head.index@, queue.tail.index@);
            lemma_count_grows(self.index, queue.head.index@);
            lemma_index_bits((self.index + 2) as usize);
        }
        let block = queue.head.block.load(MemoryOrder::Acquire);
        self.block = block;
        let new_head = self.index + STEP;
        self.target = new_head;
        if new_head & HAS_NEXT == 0 {
            self.phase = SegPhase::PopLoadTail;
        } else if block == crate::NULL {
            self.phase = SegPhase::PopAwaitBlock;
        } else {
            self.phase = SegPhase::PopClaim;
        }
        true
    }

    fn pop_load_tail(&mut self, queue: &mut SegQueue<T>) -> (progressed: bool)
        requires
            old(self).phase == SegPhase::PopLoadTail,
            old(queue).wf(),
            old(self).inv(old(queue)),
        ensures
            Self::stepped(*old(self), *old(queue), progressed, *final(self), *final(queue)),
    {
        let tail = queue.tail.index.load(MemoryOrder::Relaxed);
        proof {
            lemma_index_bits(self.index);
            lemma_index_bits(tail);
            lemma_index_bits(self.target);
            lemma_count_grows(queue.head.index@, queue.tail.index@);
            lemma_count_grows(self.index, queue.head.index@);
            queue.lemma_len();
        }
        // If the tail equals the head, that means the queue is empty.
        if self.index >> SHIFT == tail >> SHIFT {
            self.value = None;
            self.expected = Ghost(None);
            self.phase = SegPhase::Done;
            return true;
        }
        // If head and tail are not in the same block, set `HAS_NEXT` in head.
        if (self.index >> SHIFT) / LAP != (tail >> SHIFT) / LAP {
            self.target = self.target | HAS_NEXT;
        }
        if self.block == crate::NULL {
            self.phase = SegPhase::PopAwaitBlock;
        } else {
            self.phase = SegPhase::PopClaim;
        }
        true
    }

    fn pop_await_block(&mut self, queue: &mut SegQueue<T>) -> (progressed: bool)
        requires
            old(self).phase == SegPhase::PopAwaitBlock,
            old(queue).wf(),
            old(self).inv(old(queue)),
        ensures
            Self::stepped(*old(self), *old(queue), progressed, *final(self), *final(queue)),
    {
        let block = queue.head.block.load(MemoryOrder::Acquire);
        if block == crate::NULL {
            return false;
        }
        self.phase = SegPhase::PopLoadIndex;
        true
    }

    fn pop_claim(&mut self, queue: &mut SegQueue<T>) -> (progressed: bool)
        requires
            old(self).phase == SegPhase::PopClaim,
            old(queue).wf(),
            old(self).inv(old(queue)),
        ensures
            Self::stepped(*old(self), *old(queue), progressed, *final(self), *final(queue)),
    {
        // Try moving the head index forward.
        match queue.head.index.compare_exchange(
            self.index,
            self.target,
            MemoryOrder::SeqCst,
            MemoryOrder::Acquire,
        ) {
            Ok(_) => {
                if offset(self.index) + 1 == BLOCK_CAP {
                    self.phase = SegPhase::PopWaitNext;
                } else {
                    self.phase = SegPhase::PopWaitWrite;
                }
                proof {
                    self.expected@ = Some(queue.log@[self.number()]);
                    queue.readers@ = queue.readers@.insert(self.number());
                    Self::lemma_pop_claimed(*old(self), *old(queue), *self, *queue);
                }
            },
            Err(head) => {
                if offset(head) == BLOCK_CAP {
                    self.phase = SegPhase::PopLoadIndex;
                } else {
                    proof {
                        lemma_count_grows(queue.head.index@, queue.tail.index@);
                    }
                    self.index = head;
                    self.phase = SegPhase::PopLoadBlock;
                }
            },
        }
        true
    }

    proof fn lemma_pop_claimed(before: Self, queue0: SegQueue<T>, after: Self, queue1: SegQueue<T>)
        requires
            queue0.wf(),
            before.inv(&queue0),
            before.phase == SegPhase::PopClaim,
            after.phase == if before.place() == 30 {
                SegPhase::PopWaitNext
            } else {
                SegPhase::PopWaitWrite
            },
            after.push == before.push,
            after.index == before.index,
            after.block == before.block,
            after.target == before.target,
            after.spare == before.spare,
            after.argument == before.argument,
            after.value == before.value,
            after.expected@ == Some(queue0.log@[before.number()]),
            queue0.head.index@ == before.index,
            queue1.head.index@ == before.target,
            queue1.head.block == queue0.head.block,
            queue1.tail == queue0.tail,
            queue1.memory == queue0.memory,
            queue1.log == queue0.log,
            queue1.installed == queue0.installed,
            queue1.blocks == queue0.blocks,
            queue1.laps == queue0.laps,
            queue1.batons == queue0.batons,
            queue1.writers == queue0.writers,
            queue1.publishing == queue0.publishing,
            queue1.readers@ == queue0.readers@.insert(before.number()),
        ensures
            Self::advances(before, queue0, after, queue1),
    {
        let n = before.number();
        let lap = before.lap();
        lemma_slot_of(before.index);
        lemma_step_index(before.index, queue1.head.index@);
        lemma_count_grows(queue0.head.index@, queue0.tail.index@);
        lemma_count_grows(queue1.head.index@, queue0.tail.index@);
        queue0.lemma_len();
        queue0.lemma_tail_block();
        assert(queue0.claim_ok(n));
        assert(queue0.blocks@.dom().contains(lap));
        assert(queue0.block_ok(lap));
        assert(queue0.slot_ok(lap, before.place()));
        assert forall|m: int| #[trigger] queue1.blocks@.dom().contains(m) implies queue1.block_ok(
            m,
        ) by {
            assert(queue0.block_ok(m));
            assert(queue0.claim_ok(31 * m + 30));
            assert forall|at: int| 0 <= at < 31 implies #[trigger] queue1.slot_ok(m, at) by {
                assert(queue0.slot_ok(m, at));
                assert(queue0.claim_ok(31 * m + at));
            }
            if let Baton::Parked(at) = queue0.batons@[m] {
                assert(queue0.slot_ok(m, at));
            }
        }
        assert forall|addr: usize| #[trigger] queue1.home_ok(addr) by {
            assert(queue0.home_ok(addr));
        }
        assert forall|m: int| #[trigger] queue1.claim_ok(m) by {
            assert(queue0.claim_ok(m));
        }
        assert(queue1.indexes_ok());
        assert(queue1.pointers_ok());
        assert(queue1.wf());
        assert(queue1@ =~= queue0@.skip(1));
        assert(queue0@[0] == queue0.log@[n]);
        assert(queue1.held_batons() =~= queue0.held_batons());
        assert(Self::drifts(queue0, queue1));
        assert(after.inv(&queue1));
        assert forall|o: Self| #[trigger] o.inv(&queue0) && o.apart(&before) implies o.inv(&queue1)
            && o.apart(&after) by {
            assert(queue0.claim_ok(o.number()));
            if o.writing() || o.reading() {
                o.lemma_claimed_slot(&queue0);
            }
            if o.reading() && before.reading() {
                assert(before.reads().contains(before.number()));
                assert(o.number() != before.number());
                if o.is_crossing() && before.is_crossing() && queue0.head.index@ == o.target {
                    lemma_step_index(o.index, o.target);
                    lemma_step_index(before.index, before.target);
                    assert(false);
                }
            }
            if o.destroying() && before.destroying() {
                assert(before.batons().contains(before.lap()));
                assert(o.lap() != before.lap());
            }
            Self::lemma_kept(queue0, queue1, o);
        }
    }

    fn pop_wait_next(&mut self, queue: &mut SegQueue<T>) -> (progressed: bool)
        requires
            old(self).phase == SegPhase::PopWaitNext,
            old(queue).wf(),
            old(self).inv(old(queue)),
        ensures
            Self::stepped(*old(self), *old(queue), progressed, *final(self), *final(queue)),
    {
        proof {
            self.lemma_claimed_slot(queue);
        }
        let next = queue.memory.get(self.block).next.load(MemoryOrder::Acquire);
        if next == crate::NULL {
            return false;
        }
        self.next = next;
        self.phase = SegPhase::PopPeekNext;
        true
    }

    /// The block behind the block of a pop that moves the head on.
    proof fn lemma_next_block(&self, queue: &SegQueue<T>)
        requires
            queue.wf(),
            self.crossing(queue),
            queue.next_of(self.lap()) != crate::NULL,
        ensures
            queue.blocks@.dom().contains(self.lap() + 1),
            queue.blocks@[self.lap() + 1] == queue.next_of(self.lap()),
            queue.block_ok(self.lap() + 1),
            self.lap() + 1 < queue.installed@,
            self.lap() < lap_of(queue.tail.index@),
            lap_of(queue.head.index@) == self.lap(),
            offset_of(queue.head.index@) == 31,
    {
        self.lemma_claimed_slot(queue);
        lemma_step_index(self.index, queue.head.index@);
        queue.lemma_tail_block();
        assert(queue.blocks@.dom().contains(self.lap() + 1));
        assert(queue.block_ok(self.lap() + 1));
    }

    fn pop_peek_next(&mut self, queue: &mut SegQueue<T>) -> (progressed: bool)
        requires
            old(self).phase == SegPhase::PopPeekNext,
            old(queue).wf(),
            old(self).inv(old(queue)),
        ensures
            Self::stepped(*old(self), *old(queue), progressed, *final(self), *final(queue)),
    {
        proof {
            self.lemma_next_block(queue);
            lemma_index_bits(self.target);
            lemma_count_grows(queue.head.index@, queue.tail.index@);
        }
        let after_next = queue.memory.get(self.next).next.load(MemoryOrder::Relaxed);
        let mut next_index = (self.target & !HAS_NEXT) + STEP;
        if after_next != crate::NULL {
            proof {
                lemma_index_bits(next_index);
            }
            next_index = next_index | HAS_NEXT;
        }
        self.next_index = next_index;
        self.phase = SegPhase::PopStoreBlock;
        true
    }

    fn pop_store_block(&mut self, queue: &mut SegQueue<T>) -> (progressed: bool)
        requires
            old(self).phase == SegPhase::PopStoreBlock,
            old(queue).wf(),
            old(self).inv(old(queue)),
        ensures
            Self::stepped(*old(self), *old(queue), progressed, *final(self), *final(queue)),
    {
        queue.head.block.store(self.next, MemoryOrder::Release);
        self.phase = SegPhase::PopStoreIndex;
        proof {
            Self::lemma_head_stored(*old(self), *old(queue), *self, *queue);
        }
        true
    }

    fn pop_store_index(&mut self, queue: &mut SegQueue<T>) -> (progressed: bool)
        requires
            old(self).phase == SegPhase::PopStoreIndex,
            old(queue).wf(),
            old(self).inv(old(queue)),
        ensures
            Self::stepped(*old(self), *old(queue), progressed, *final(self), *final(queue)),
    {
        queue.head.index.store(self.next_index, MemoryOrder::Release);
        self.phase = SegPhase::PopWaitWrite;
        proof {
            Self::lemma_head_stored(*old(self), *old(queue), *self, *queue);
        }
        true
    }

    /// The queue after a pop has stored the next block, or the first index of
    /// the next block, at the head.
    proof fn lemma_head_stored(before: Self, queue0: SegQueue<T>, after: Self, queue1: SegQueue<T>)
        requires
            queue0.wf(),
            before.inv(&queue0),
            before.phase == SegPhase::PopStoreBlock || before.phase == SegPhase::PopStoreIndex,
            after.phase == if before.phase == SegPhase::PopStoreBlock {
                SegPhase::PopStoreIndex
            } else {
                SegPhase::PopWaitWrite
            },
            after.push == before.push,
            after.index == before.index,
            after.block == before.block,
            after.target == before.target,
            after.spare == before.spare,
            after.argument == before.argument,
            after.next == before.next,
            after.next_index == before.next_index,
            after.value == before.value,
            after.expected == before.expected,
            before.phase == SegPhase::PopStoreBlock ==> queue1.head.block@ == before.next
                && queue1.head.index == queue0.head.index,
            before.phase == SegPhase::PopStoreIndex ==> queue1.head.index@ == before.next_index
                && queue1.head.block == queue0.head.block,
            queue1.tail == queue0.tail,
            queue1.memory == queue0.memory,
            queue1.log == queue0.log,
            queue1.installed == queue0.installed,
            queue1.blocks == queue0.blocks,
            queue1.laps == queue0.laps,
            queue1.batons == queue0.batons,
            queue1.writers == queue0.writers,
            queue1.readers == queue0.readers,
            queue1.publishing == queue0.publishing,
        ensures
            Self::advances(before, queue0, after, queue1),
    {
        let n = before.number();
        let lap = before.lap();
        before.lemma_claimed_slot(&queue0);
        before.lemma_next_block(&queue0);
        lemma_step_index(before.index, before.target);
        lemma_count_grows(queue0.head.index@, queue0.tail.index@);
        if before.phase == SegPhase::PopStoreIndex {
            lemma_step_index(before.target, before.next_index);
            lemma_count_grows(before.next_index, queue0.tail.index@);
        }
        assert forall|m: int| #[trigger] queue1.blocks@.dom().contains(m) implies queue1.block_ok(
            m,
        ) by {
            assert(queue0.block_ok(m));
            assert(queue0.claim_ok(31 * m + 30));
            assert forall|at: int| 0 <= at < 31 implies #[trigger] queue1.slot_ok(m, at) by {
                assert(queue0.slot_ok(m, at));
                assert(queue0.claim_ok(31 * m + at));
            }
            if let Baton::Parked(at) = queue0.batons@[m] {
                assert(queue0.slot_ok(m, at));
            }
        }
        assert forall|addr: usize| #[trigger] queue1.home_ok(addr) by {
            assert(queue0.home_ok(addr));
        }
        assert forall|m: int| #[trigger] queue1.claim_ok(m) by {
            assert(queue0.claim_ok(m));
        }
        assert(queue1.indexes_ok());
        assert(queue1.pointers_ok());
        assert(queue1.wf());
        assert(queue1@ =~= queue0@);
        assert(queue1.held_batons() =~= queue0.held_batons());
        assert(Self::drifts(queue0, queue1));
        assert(after.inv(&queue1));
        assert forall|o: Self| #[trigger] o.inv(&queue0) && o.apart(&before) implies o.inv(&queue1)
            && o.apart(&after) by {
            assert(queue0.claim_ok(o.number()));
            if o.writing() || o.reading() {
                o.lemma_claimed_slot(&queue0);
            }
            if o.reading() && before.reading() {
                assert(before.reads().contains(before.number()));
                assert(o.number() != before.number());
                if o.is_crossing() && before.is_crossing() && queue0.head.index@ == o.target {
                    lemma_step_index(o.index, o.target);
                    lemma_step_index(before.index, before.target);
                    assert(false);
                }
            }
            if o.destroying() && before.destroying() {
                assert(before.batons().contains(before.lap()));
                assert(o.lap() != before.lap());
            }
            Self::lemma_kept(queue0, queue1, o);
        }
    }

    fn pop_wait_write(&mut self, queue: &mut SegQueue<T>) -> (progressed: bool)
        requires
            old(self).phase == SegPhase::PopWaitWrite,
            old(queue).wf(),
            old(self).inv(old(queue)),
        ensures
            Self::stepped(*old(self), *old(queue), progressed, *final(self), *final(queue)),
    {
        proof {
            self.lemma_claimed_slot(queue);
        }
        let place = offset(self.index);
        let state = queue.memory.get(self.block).slots[place].state.load(MemoryOrder::Acquire);
        if state & WRITE == 0 {
            return false;
        }
        self.phase = SegPhase::PopRead;
        true
    }

    fn pop_read(&mut self, queue: &mut SegQueue<T>) -> (progressed: bool)
        requires
            old(self).phase == SegPhase::PopRead,
            old(queue).wf(),
            old(self).inv(old(queue)),
        ensures
            Self::stepped(*old(self), *old(queue), progressed, *final(self), *final(queue)),
    {
        proof {
            self.lemma_claimed_slot(queue);
        }
        let place = offset(self.index);
        let block = queue.memory.get_mut(self.block);
        // Read the value.
        self.value = block.slots[place].value.take();
        if place + 1 == BLOCK_CAP {
            // The last slot is read: the block can go.
            self.at = 0;
            self.phase = SegPhase::DestroyCheck;
            proof {
                queue.readers@ = queue.readers@.remove(self.number());
                queue.batons@ = queue.batons@.insert(self.lap(), Baton::Held(0));
            }
        } else {
            self.phase = SegPhase::PopMarkRead;
        }
        proof {
            Self::lemma_read(*old(self), *old(queue), *self, *queue);
        }
        true
    }

    proof fn lemma_read(before: Self, queue0: SegQueue<T>, after: Self, queue1: SegQueue<T>)
        requires
            queue0.wf(),
            before.inv(&queue0),
            before.phase == SegPhase::PopRead,
            after.phase == if before.place() == 30 {
                SegPhase::DestroyCheck
            } else {
                SegPhase::PopMarkRead
            },
            after.push == before.push,
            after.index == before.index,
            after.block == before.block,
            after.target == before.target,
            after.spare == before.spare,
            after.argument == before.argument,
            after.expected == before.expected,
            after.value == queue0.cell(before.lap(), before.place()).value,
            before.place() == 30 ==> after.at == 0,
            queue1.cell(before.lap(), before.place()).value.is_none(),
            queue1.cell(before.lap(), before.place()).state == queue0.cell(
                before.lap(),
                before.place(),
            ).state,
            queue1.memory.wf(),
            queue1.memory@.dom() =~= queue0.memory@.dom(),
            queue1.memory@[before.block].next == queue0.memory@[before.block].next,
            queue1.memory@[before.block].slots.len() == BLOCK_CAP,
            forall|place: int|
                0 <= place < 31 && place != before.place()
                    ==> #[trigger] queue1.memory@[before.block].slots[place]
                    == queue0.memory@[before.block].slots[place],
            forall|a: usize| a != before.block ==> #[trigger] queue1.memory@[a] == queue0.memory@[a],
            queue1.tail == queue0.tail,
            queue1.head == queue0.head,
            queue1.log == queue0.log,
            queue1.installed == queue0.installed,
            queue1.blocks == queue0.blocks,
            queue1.laps == queue0.laps,
            queue1.writers == queue0.writers,
            queue1.publishing == queue0.publishing,
            queue1.readers@ == if before.place() == 30 {
                queue0.readers@.remove(before.number())
            } else {
                queue0.readers@
            },
            queue1.batons@ == if before.place() == 30 {
                queue0.batons@.insert(before.lap(), Baton::Held(0))
            } else {
                queue0.batons@
            },
        ensures
            Self::advances(before, queue0, after, queue1),
    {
        let n = before.number();
        let lap = before.lap();
        before.lemma_claimed_slot(&queue0);
        lemma_count_grows(queue0.head.index@, queue0.tail.index@);
        assert forall|m: int| #[trigger] queue1.blocks@.dom().contains(m) implies queue1.block_ok(
            m,
        ) by {
            assert(queue0.block_ok(m));
            assert(queue0.claim_ok(31 * m + 30));
            assert forall|at: int| 0 <= at < 31 implies #[trigger] queue1.slot_ok(m, at) by {
                assert(queue0.slot_ok(m, at));
                assert(queue0.claim_ok(31 * m + at));
            }
            if let Baton::Parked(at) = queue0.batons@[m] {
                assert(queue0.slot_ok(m, at));
            }
        }
        assert forall|addr: usize| #[trigger] queue1.home_ok(addr) by {
            assert(queue0.home_ok(addr));
        }
        assert forall|m: int| #[trigger] queue1.claim_ok(m) by {
            assert(queue0.claim_ok(m));
        }
        assert(queue1.indexes_ok()) by {
            if offset_of(queue0.head.index@) == 31 && before.place() == 30 {
                lemma_slot_of(before.index);
            }
        }
        assert(queue1.wf());
        assert(queue1@ =~= queue0@);
        assert(queue1.held_batons() =~= queue0.held_batons().difference(before.batons()).union(
            after.batons(),
        ));
        assert(Self::drifts(queue0, queue1));
        assert(after.inv(&queue1));
        assert forall|o: Self| #[trigger] o.inv(&queue0) && o.apart(&before) implies o.inv(&queue1)
            && o.apart(&after) by {
            assert(queue0.claim_ok(o.number()));
            if o.writing() || o.reading() {
                o.lemma_claimed_slot(&queue0);
            }
            if o.reading() && before.reading() {
                assert(before.reads().contains(before.number()));
                assert(o.number() != before.number());
            }
            if o.destroying() && before.destroying() {
                assert(before.batons().contains(before.lap()));
                assert(o.lap() != before.lap());
            }
            if o.destroying() {
                assert(queue0.block_ok(o.lap()));
            }
            Self::lemma_kept(queue0, queue1, o);
        }
    }

    fn pop_mark_read(&mut self, queue: &mut SegQueue<T>) -> (progressed: bool)
        requires
            old(self).phase == SegPhase::PopMarkRead,
            old(queue).wf(),
            old(self).inv(old(queue)),
        ensures
            Self::stepped(*old(self), *old(queue), progressed, *final(self), *final(queue)),
    {
        proof {
            self.lemma_claimed_slot(queue);
        }
        let place = offset(self.index);
        let block = queue.memory.get_mut(self.block);
        let state = block.slots[place].state.fetch_or(READ, MemoryOrder::AcqRel);
        if state & DESTROY != 0 {
            // Another pop wanted to destroy the block and could not: go on for it.
            self.at = place + 1;
            self.phase = if self.at == BLOCK_CAP - 1 {
                SegPhase::DestroyFree
            } else {
                SegPhase::DestroyCheck
            };
            proof {
                queue.batons@ = queue.batons@.insert(self.lap(), Baton::Held(self.at as int));
            }
        } else {
            self.phase = SegPhase::Done;
        }
        proof {
            queue.readers@ = queue.readers@.remove(self.number());
            Self::lemma_marked(*old(self), *old(queue), *self, *queue);
        }
        true
    }

    /// The queue after a pop has marked its slot as read, or a destroying
    /// operation has looked at a slot or marked it.
    proof fn lemma_marked(before: Self, queue0: SegQueue<T>, after: Self, queue1: SegQueue<T>)
        requires
            queue0.wf(),
            before.inv(&queue0),
            before.phase == SegPhase::PopMarkRead || before.phase == SegPhase::DestroyCheck
                || before.phase == SegPhase::DestroyMark,
            after.push == before.push,
            after.index == before.index,
            after.block == before.block,
            after.target == before.target,
            after.spare == before.spare,
            after.argument == before.argument,
            after.expected == before.expected,
            after.value == before.value,
            ({
                let place = if before.phase == SegPhase::PopMarkRead {
                    before.place()
                } else {
                    before.at as int
                };
                let state0 = queue0.cell(before.lap(), place).state@;
                let state1 = queue1.cell(before.lap(), place).state@;
                let passed = if after.at == 30 {
                    SegPhase::DestroyFree
                } else {
                    SegPhase::DestroyCheck
                };
                &&& queue1.cell(before.lap(), place).value == queue0.cell(before.lap(), place).value
                &&& forall|other: int|
                    0 <= other < 31 && other != place
                        ==> #[trigger] queue1.memory@[before.block].slots[other]
                        == queue0.memory@[before.block].slots[other]
                &&& match before.phase {
                    SegPhase::PopMarkRead => {
                        &&& state1 == state0 | READ
                        &&& queue1.readers@ == queue0.readers@.remove(before.number())
                        &&& if is_doomed(state0) {
                            &&& after.at == place + 1
                            &&& after.phase == passed
                            &&& queue1.batons@ == queue0.batons@.insert(
                                before.lap(),
                                Baton::Held(after.at as int),
                            )
                        } else {
                            after.phase == SegPhase::Done && queue1.batons == queue0.batons
                        }
                    },
                    SegPhase::DestroyCheck => {
                        &&& state1 == state0
                        &&& queue1.readers == queue0.readers
                        &&& if is_read(state0) {
                            &&& after.at == place + 1
                            &&& after.phase == passed
                            &&& queue1.batons@ == queue0.batons@.insert(
                                before.lap(),
                                Baton::Held(after.at as int),
                            )
                        } else {
                            &&& after.at == before.at
                            &&& after.phase == SegPhase::DestroyMark
                            &&& queue1.batons == queue0.batons
                        }
                    },
                    _ => {
                        &&& state1 == state0 | DESTROY
                        &&& queue1.readers == queue0.readers
                        &&& if is_read(state0) {
                            &&& after.at == place + 1
                            &&& after.phase == passed
                            &&& queue1.batons@ == queue0.batons@.insert(
                                before.lap(),
                                Baton::Held(after.at as int),
                            )
                        } else {
                            &&& after.phase == SegPhase::Done
                            &&& queue1.batons@ == queue0.batons@.insert(
                                before.lap(),
                                Baton::Parked(place),
                            )
                        }
                    },
                }
            }),
            queue1.memory.wf(),
            queue1.memory@.dom() =~= queue0.memory@.dom(),
            queue1.memory@[before.block].next == queue0.memory@[before.block].next,
            queue1.memory@[before.block].slots.len() == BLOCK_CAP,
            forall|a: usize| a != before.block ==> #[trigger] queue1.memory@[a] == queue0.memory@[a],
            queue1.tail == queue0.tail,
            queue1.head == queue0.head,
            queue1.log == queue0.log,
            queue1.installed == queue0.installed,
            queue1.blocks == queue0.blocks,
            queue1.laps == queue0.laps,
            queue1.writers == queue0.writers,
            queue1.publishing == queue0.publishing,
        ensures
            Self::advances(before, queue0, after, queue1),
    {
        let n = before.number();
        let lap = before.lap();
        let place = if before.phase == SegPhase::PopMarkRead {
            before.place()
        } else {
            before.at as int
        };
        if before.phase == SegPhase::PopMarkRead {
            before.lemma_claimed_slot(&queue0);
        } else {
            lemma_slot_of(before.index);
        }
        assert(queue0.block_ok(lap));
        assert(queue0.slot_ok(lap, place));
        lemma_state_bits(queue0.cell(lap, place).state@);
        lemma_count_grows(queue0.head.index@, queue0.tail.index@);
        assert forall|m: int| #[trigger] queue1.blocks@.dom().contains(m) implies queue1.block_ok(
            m,
        ) by {
            assert(queue0.block_ok(m));
            assert(queue0.claim_ok(31 * m + 30));
            assert forall|at: int| 0 <= at < 31 implies #[trigger] queue1.slot_ok(m, at) by {
                assert(queue0.slot_ok(m, at));
                assert(queue0.claim_ok(31 * m + at));
            }
            if let Baton::Parked(at) = queue0.batons@[m] {
                assert(queue0.slot_ok(m, at));
            }
        }
        assert forall|addr: usize| #[trigger] queue1.home_ok(addr) by {
            assert(queue0.home_ok(addr));
        }
        assert forall|m: int| #[trigger] queue1.claim_ok(m) by {
            assert(queue0.claim_ok(m));
        }
        assert(queue1.indexes_ok()) by {
            if offset_of(queue0.head.index@) == 31 && before.phase == SegPhase::PopMarkRead {
                lemma_slot_of(before.index);
            }
        }
        assert(queue1.wf());
        assert(queue1@ =~= queue0@);
        assert(queue1.held_batons() =~= queue0.held_batons().difference(before.batons()).union(
            after.batons(),
        ));
        assert(Self::drifts(queue0, queue1));
        assert(after.inv(&queue1));
        assert forall|o: Self| #[trigger] o.inv(&queue0) && o.apart(&before) implies o.inv(&queue1)
            && o.apart(&after) by {
            assert(queue0.claim_ok(o.number()));
            if o.writing() || o.reading() {
                o.lemma_claimed_slot(&queue0);
            }
            if o.reading() && before.reading() {
                assert(before.reads().contains(before.number()));
                assert(o.number() != before.number());
            }
            if o.destroying() && before.destroying() {
                assert(before.batons().contains(before.lap()));
                assert(o.lap() != before.lap());
            }
            if o.destroying() {
                assert(queue0.block_ok(o.lap()));
            }
            Self::lemma_kept(queue0, queue1, o);
        }
    }

    fn destroy_check(&mut self, queue: &mut SegQueue<T>) -> (progressed: bool)
        requires
            old(self).phase == SegPhase::DestroyCheck,
            old(queue).wf(),
            old(self).inv(old(queue)),
        ensures
            Self::stepped(*old(self), *old(queue), progressed, *final(self), *final(queue)),
    {
        proof {
            assert(queue.block_ok(self.lap()));
        }
        let state = queue.memory.get(self.block).slots[self.at].state.load(MemoryOrder::Acquire);
        if state & READ != 0 {
            self.at = self.at + 1;
            self.phase = if self.at == BLOCK_CAP - 1 {
                SegPhase::DestroyFree
            } else {
                SegPhase::DestroyCheck
            };
            proof {
                queue.batons@ = queue.batons@.insert(self.lap(), Baton::Held(self.at as int));
            }
        } else {
            self.phase = SegPhase::DestroyMark;
        }
        proof {
            assert(queue.memory@ =~= old(queue).memory@);
            Self::lemma_marked(*old(self), *old(queue), *self, *queue);
        }
        true
    }

    fn destroy_mark(&mut self, queue: &mut SegQueue<T>) -> (progressed: bool)
        requires
            old(self).phase == SegPhase::DestroyMark,
            old(queue).wf(),
            old(self).inv(old(queue)),
        ensures
            Self::stepped(*old(self), *old(queue), progressed, *final(self), *final(queue)),
    {
        proof {
            assert(queue.block_ok(self.lap()));
        }
        let block = queue.memory.get_mut(self.block);
        // Mark the `DESTROY` bit if a pop is still using the slot.
        let state = block.slots[self.at].state.fetch_or(DESTROY, MemoryOrder::AcqRel);
        if state & READ == 0 {
            // The pop that is using the slot goes on with the destruction.
            self.phase = SegPhase::Done;
            proof {
                queue.batons@ = queue.batons@.insert(self.lap(), Baton::Parked(self.at as int));
            }
        } else {
            self.at = self.at + 1;
            self.phase = if self.at == BLOCK_CAP - 1 {
                SegPhase::DestroyFree
            } else {
                SegPhase::DestroyCheck
            };
            proof {
                queue.batons@ = queue.batons@.insert(self.lap(), Baton::Held(self.at as int));
            }
        }
        proof {
            Self::lemma_marked(*old(self), *old(queue), *self, *queue);
        }
        true
    }

    fn destroy_free(&mut self, queue: &mut SegQueue<T>) -> (progressed: bool)
        requires
            old(self).phase == SegPhase::DestroyFree,
            old(queue).wf(),
            old(self).inv(old(queue)),
        ensures
            Self::stepped(*old(self), *old(queue), progressed, *final(self), *final(queue)),
    {
        proof {
            assert(queue.block_ok(self.lap()));
        }
        // No pop is using the block: now it is safe to destroy it.
        let _block = queue.memory.free(self.block);
        self.phase = SegPhase::Done;
        proof {
            queue.blocks@ = queue.blocks@.remove(self.lap());
            queue.batons@ = queue.batons@.remove(self.lap());
            queue.laps@ = queue.laps@.remove(self.block);
            Self::lemma_freed(*old(self), *old(queue), *self, *queue);
        }
        true
    }

    proof fn lemma_freed(before: Self, queue0: SegQueue<T>, after: Self, queue1: SegQueue<T>)
        requires
            queue0.wf(),
            before.inv(&queue0),
            before.phase == SegPhase::DestroyFree,
            after.phase == SegPhase::Done,
            after.push == before.push,
            after.index == before.index,
            after.block == before.block,
            after.target == before.target,
            after.spare == before.spare,
            after.argument == before.argument,
            after.expected == before.expected,
            after.value == before.value,
            queue1.memory.wf(),
            queue1.memory@ == queue0.memory@.remove(before.block),
            queue1.tail == queue0.tail,
            queue1.head == queue0.head,
            queue1.log == queue0.log,
            queue1.installed == queue0.installed,
            queue1.blocks@ == queue0.blocks@.remove(before.lap()),
            queue1.batons@ == queue0.batons@.remove(before.lap()),
            queue1.laps@ == queue0.laps@.remove(before.block),
            queue1.writers == queue0.writers,
            queue1.readers == queue0.readers,
            queue1.publishing == queue0.publishing,
        ensures
            Self::advances(before, queue0, after, queue1),
    {
        let lap = before.lap();
        let last = 31 * lap + 30;
        lemma_slot_of(before.index);
        assert(queue0.block_ok(lap));
        lemma_count_grows(queue0.head.index@, queue0.tail.index@);
        queue0.lemma_tail_block();
        assert(lap_of(queue0.head.index@) > lap) by {
            if lap_of(queue0.head.index@) <= lap {
                assert(offset_of(queue0.head.index@) == 31);
            }
        }
        assert forall|place: int| 0 <= place < 31 && #[trigger] queue0.slot_ok(lap, place)
            implies !queue0.writers@.contains(31 * lap + place) && !queue0.readers@.contains(
            31 * lap + place,
        ) by {}
        assert forall|m: int| #[trigger] queue1.blocks@.dom().contains(m) implies queue1.block_ok(
            m,
        ) by {
            assert(queue0.block_ok(m));
            assert(queue0.home_ok(queue0.blocks@[m]));
            assert(queue0.claim_ok(31 * m + 30));
            assert forall|at: int| 0 <= at < 31 implies #[trigger] queue1.slot_ok(m, at) by {
                assert(queue0.slot_ok(m, at));
                assert(queue0.claim_ok(31 * m + at));
            }
            if let Baton::Parked(at) = queue0.batons@[m] {
                assert(queue0.slot_ok(m, at));
            }
        }
        assert forall|addr: usize| #[trigger] queue1.home_ok(addr) by {
            assert(queue0.home_ok(addr));
        }
        assert forall|m: int| #[trigger] queue1.claim_ok(m) by {
            assert(queue0.claim_ok(m));
            if m / 31 == lap && (queue0.writers@.contains(m) || queue0.readers@.contains(m)) {
                assert(0 <= m % 31 < 31);
                assert(m == 31 * lap + m % 31);
                assert(queue0.slot_ok(lap, m % 31));
            }
        }
        assert(queue1.pointers_ok());
        assert(queue1.wf());
        assert(queue1@ =~= queue0@);
        assert(queue1.held_batons() =~= queue0.held_batons().difference(before.batons()).union(
            after.batons(),
        ));
        assert(Self::drifts(queue0, queue1));
        assert(after.inv(&queue1));
        assert forall|o: Self| #[trigger] o.inv(&queue0) && o.apart(&before) implies o.inv(&queue1)
            && o.apart(&after) by {
            assert(queue0.claim_ok(o.number()));
            if o.writing() || o.reading() {
                o.lemma_claimed_slot(&queue0);
                assert(queue1.claim_ok(o.number()));
                assert(queue0.home_ok(queue0.blocks@[o.lap()]));
            }
            if o.destroying() {
                assert(before.batons().contains(before.lap()));
                assert(o.lap() != before.lap());
                assert(queue0.block_ok(o.lap()));
            }
            Self::lemma_kept(queue0, queue1, o);
        }
    }

    /// Whether the operation has made its last step.
    pub fn is_done(&self) -> (done: bool)
        ensures
            done == self.done(),
    {
        self.phase == SegPhase::Done
    }

    /// Where the operation stands: the access that its next step makes.
    pub closed spec fn stage(&self) -> SegPhase {
        self.phase
    }

    /// The access that the next step makes.
    pub fn phase(&self) -> (phase: SegPhase)
        ensures
            phase == self.stage(),
            (phase == SegPhase::Done) == self.done(),
    {
        self.phase
    }

    /// Whether the operation is a push.
    pub fn kind_is_push(&self) -> (push: bool)
        ensures
            push == self.is_push(),
    {
        self.push
    }

    /// What the operation returns: for a pop the payload taken, if there was one.
    pub fn into_outcome(self, queue: &SegQueue<T>) -> (outcome: Option<T>)
        requires
            self.done(),
            self.inv(queue),
            !self.is_push(),
        ensures
            outcome == self.outcome(),
    {
        self.value
    }

    /// A finished operation holds nothing.
    pub proof fn lemma_done_holds_nothing(&self)
        requires
            self.done(),
        ensures
            !self.pending(),
            self.writes() =~= Set::<int>::empty(),
            self.reads() =~= Set::<int>::empty(),
            self.batons() =~= Set::<int>::empty(),
            !self.publishes(),
    {
    }

    /// An operation that is alone does not wait, but for room.
    pub proof fn lemma_alone_runs(&self, queue: &SegQueue<T>)
        requires
            queue.wf(),
            self.inv(queue),
            self.alone(queue),
            self.is_push() && self.pending() ==> !queue.is_full(),
        ensures
            !self.blocked(queue),
    {
        lemma_count_grows(queue.head.index@, queue.tail.index@);
        queue.lemma_tail_block();
        match self.phase {
            SegPhase::PushLoadIndex => {
                if offset_of(queue.tail.index@) == 31 {
                    assert(queue.writers().contains(queue.pushed() - 1));
                }
            },
            SegPhase::PopLoadIndex => {
                if offset_of(queue.head.index@) == 31 {
                    assert(queue.readers().contains(queue.popped() - 1));
                }
            },
            SegPhase::PopAwaitBlock => {},
            SegPhase::PopWaitNext => {
                self.lemma_claimed_slot(queue);
                lemma_step_index(self.index, queue.head.index@);
                if queue.next_of(self.lap()) == crate::NULL {
                    if offset_of(queue.tail.index@) == 31 {
                        assert(queue.writers().contains(queue.pushed() - 1));
                    } else {
                        assert(queue.writers().contains(31 * self.lap() + 30));
                    }
                }
            },
            SegPhase::PopWaitWrite => {
                self.lemma_claimed_slot(queue);
                if !is_written(queue.cell(self.lap(), self.place()).state@) {
                    assert(queue.writers().contains(self.number()));
                }
            },
            _ => {},
        }
    }

    /// Makes the one access that is due. If the operation has to wait for
    /// another one, nothing is done and `false` is returned.
    pub fn step(&mut self, queue: &mut SegQueue<T>) -> (progressed: bool)
        requires
            old(queue).wf(),
            old(self).inv(old(queue)),
            !old(self).done(),
        ensures
            Self::stepped(*old(self), *old(queue), progressed, *final(self), *final(queue)),
    {
        match self.phase {
            SegPhase::PushLoadIndex => self.push_load_index(queue),
            SegPhase::PushLoadBlock => self.push_load_block(queue),
            SegPhase::PushInstallFirst => self.push_install_first(queue),
            SegPhase::PushPublishFirst => self.push_publish_first(queue),
            SegPhase::PushClaim => self.push_claim(queue),
            SegPhase::PushInstallBlock => self.push_install_block(queue),
            SegPhase::PushInstallIndex => self.push_install_index(queue),
            SegPhase::PushLinkBlock => self.push_link_block(queue),
            SegPhase::PushWrite => self.push_write(queue),
            SegPhase::PushMark => self.push_mark(queue),
            SegPhase::PopLoadIndex => self.pop_load_index(queue),
            SegPhase::PopLoadBlock => self.pop_load_block(queue),
            SegPhase::PopLoadTail => self.pop_load_tail(queue),
            SegPhase::PopAwaitBlock => self.pop_await_block(queue),
            SegPhase::PopClaim => self.pop_claim(queue),
            SegPhase::PopWaitNext => self.pop_wait_next(queue),
            SegPhase::PopPeekNext => self.pop_peek_next(queue),
            SegPhase::PopStoreBlock => self.pop_store_block(queue),
            SegPhase::PopStoreIndex => self.pop_store_index(queue),
            SegPhase::PopWaitWrite => self.pop_wait_write(queue),
            SegPhase::PopRead => self.pop_read(queue),
            SegPhase::PopMarkRead => self.pop_mark_read(queue),
            SegPhase::DestroyCheck => self.destroy_check(queue),
            SegPhase::DestroyMark => self.destroy_mark(queue),
            SegPhase::DestroyFree => self.destroy_free(queue),
            SegPhase::Done => true,
        }
    }
}

impl<T> SegQueue<T> {
    /// Pushes a value into the queue. No other operation is in progress, and
    /// the queue is not full.
    pub fn push(&mut self, value: T)
        requires
            old(self).wf(),
            old(self).quiet(),
            !old(self).is_full(),
        ensures
            final(self).wf(),
            final(self).quiet(),
            fifo(Effect::Pushed(value), old(self)@, final(self)@),
            final(self).tail_index() == index_after(old(self).tail_index()),
            final(self).head_index() == old(self).head_index(),
    {
        let mut op = SegOp::push(self, value);
        while !op.is_done()
            invariant
                self.wf(),
                op.inv(self),
                op.is_push(),
                op.argument() == value,
                op.alone(self),
                self.head_index() == old(self).head_index(),
                op.pending() ==> !self.is_full() && self@ == old(self)@,
                !op.pending() ==> self@ == old(self)@.push(value),
            decreases op.fuel(self),
        {
            proof {
                op.lemma_alone_runs(self);
            }
            op.step(self);
        }
        proof {
            op.lemma_done_holds_nothing();
            old(self).lemma_head_behind_tail();
            self.lemma_head_behind_tail();
            lemma_index_after(old(self).tail_index(), self.tail_index());
        }
    }

    /// Pushes a value into the queue, unless the queue is full: then the value
    /// comes back.
    pub fn try_push(&mut self, value: T) -> (result: Result<(), T>)
        requires
            old(self).wf(),
            old(self).quiet(),
        ensures
            final(self).wf(),
            final(self).quiet(),
            match result {
                Ok(_) => {
                    &&& !old(self).is_full()
                    &&& fifo(Effect::Pushed(value), old(self)@, final(self)@)
                    &&& final(self).tail_index() == index_after(old(self).tail_index())
                    &&& final(self).head_index() == old(self).head_index()
                },
                Err(back) => old(self).is_full() && back == value && *final(self) == *old(self),
            },
    {
        if self.full() {
            Err(value)
        } else {
            self.push(value);
            Ok(())
        }
    }

    /// Pops a value from the queue. No other operation is in progress.
    ///
    /// Returns `None` if the queue is empty.
    pub fn pop(&mut self) -> (front: Option<T>)
        requires
            old(self).wf(),
            old(self).quiet(),
        ensures
            final(self).wf(),
            final(self).quiet(),
            final(self).tail_index() == old(self).tail_index(),
            fifo(taking(front), old(self)@, final(self)@),
    {
        let mut op = SegOp::pop(self);
        while !op.is_done()
            invariant
                self.wf(),
                op.inv(self),
                !op.is_push(),
                op.alone(self),
                self.tail_index() == old(self).tail_index(),
                op.pending() ==> self@ == old(self)@,
                !op.pending() ==> match op.outcome() {
                    Some(payload) => old(self)@.len() > 0 && payload == old(self)@[0] && self@
                        == old(self)@.skip(1),
                    None => old(self)@.len() == 0 && self@ == old(self)@,
                },
            decreases op.fuel(self),
        {
            proof {
                op.lemma_alone_runs(self);
            }
            op.step(self);
        }
        proof {
            op.lemma_done_holds_nothing();
        }
        op.into_outcome(self)
    }

    /// No block is live but the one that the head is in.
    pub closed spec fn bare(&self) -> bool {
        forall|a: usize| self.memory.is_live(a) ==> a == self.head.block@
    }

    /// Whether no block is live but the one that the head is in.
    pub fn is_bare(&self) -> (bare: bool)
        requires
            self.wf(),
        ensures
            bare == self.bare(),
    {
        self.memory.holds_only(self.head.block.load(MemoryOrder::Relaxed))
    }

    /// Pops until the queue is empty, as dropping the queue does before it
    /// frees the block that is left.
    pub fn drain(&mut self)
        requires
            old(self).wf(),
            old(self).quiet(),
        ensures
            final(self).wf(),
            final(self).quiet(),
            final(self)@.len() == 0,
            final(self).bare(),
            final(self).tail_index() == old(self).tail_index(),
    {
        loop
            invariant
                self.wf(),
                self.quiet(),
                self.tail_index() == old(self).tail_index(),
            ensures
                self@.len() == 0,
            decreases self@.len(),
        {
            if self.pop().is_none() {
                break;
            }
        }
        proof {
            self.lemma_len();
            self.lemma_tail_block();
            lemma_count_grows(self.head.index@, self.tail.index@);
            if offset_of(self.head.index@) == 31 {
                assert(self.readers().contains(self.popped() - 1));
            }
            if offset_of(self.tail.index@) == 31 {
                assert(self.writers().contains(self.pushed() - 1));
            }
            assert forall|a: usize| self.memory.is_live(a) implies a == self.head.block@ by {
                self.lemma_quiet_blocks(a);
            }
        }
    }

    /// Ends the contents as dropping the queue does: drops the payloads that
    /// are left and frees every block, the last one too. The queue is then as
    /// a new one is.
    pub fn clear(&mut self)
        requires
            old(self).wf(),
            old(self).quiet(),
        ensures
            final(self).wf(),
            final(self).quiet(),
            final(self)@ == Seq::<T>::empty(),
            final(self).vacant(),
            final(self).tail_index() == 0,
            final(self).head_index() == 0,
    {
        self.drain();
        let block = self.head.block.load(MemoryOrder::Relaxed);
        let ghost drained = *self;
        proof {
            drained.lemma_len();
            drained.lemma_tail_block();
            drained.lemma_head_behind_tail();
        }
        // Deallocate the last remaining block.
        if block != crate::NULL {
            proof {
                assert(drained.blocks@.dom().contains(lap_of(drained.head.index@)));
                assert(drained.block_ok(lap_of(drained.head.index@)));
            }
            let _block = self.memory.free(block);
        }
        self.head.index.store(0, MemoryOrder::Relaxed);
        self.head.block.store(crate::NULL, MemoryOrder::Relaxed);
        self.tail.index.store(0, MemoryOrder::Relaxed);
        self.tail.block.store(crate::NULL, MemoryOrder::Relaxed);
        proof {
            self.log@ = Seq::empty();
            self.blocks@ = Map::empty();
            self.installed@ = 0;
            self.laps@ = Map::empty();
            self.batons@ = Map::empty();
            self.writers@ = Set::empty();
            self.readers@ = Set::empty();
            self.publishing@ = false;
            assert forall|a: usize| !self.memory@.dom().contains(a) by {
                if self.memory@.dom().contains(a) {
                    drained.lemma_quiet_blocks(a);
                }
            }
            assert(self@ =~= Seq::<T>::empty());
            assert forall|n: int| #[trigger] self.claim_ok(n) by {}
            assert forall|addr: usize| #[trigger] self.home_ok(addr) by {}
        }
    }

    /// Takes the payloads out, from the front.
    pub fn into_vec(self) -> (payloads: Vec<T>)
        requires
            self.wf(),
            self.quiet(),
        ensures
            payloads@ == self@,
    {
        let mut queue = self;
        let mut payloads: Vec<T> = Vec::new();
        loop
            invariant
                queue.wf(),
                queue.quiet(),
                payloads@ + queue@ == self@,
            ensures
                payloads@ == self@,
            decreases queue@.len(),
        {
            let ghost before = queue@;
            match queue.pop() {
                Some(payload) => {
                    payloads.push(payload);
                    proof {
                        assert(payloads@ + queue@ =~= self@) by {
                            assert(before =~= seq![payload] + queue@);
                        }
                    }
                },
                None => {
                    proof {
                        assert(payloads@ =~= payloads@ + queue@);
                    }
                    break;
                },
            }
        }
        payloads
    }

    /// In a quiet queue the live blocks are those from the head on.
    proof fn lemma_quiet_blocks(&self, addr: usize)
        requires
            self.wf(),
            self.quiet(),
            self.memory.is_live(addr),
        ensures
            self.blocks@.dom().contains(self.laps@[addr]),
            self.blocks@[self.laps@[addr]] == addr,
            lap_of(self.head.index@) <= self.laps@[addr] < self.installed@,
    {
        let lap = self.laps@[addr];
        assert(self.home_ok(addr));
        assert(self.block_ok(lap));
        if lap < lap_of(self.head.index@) {
            assert(self.held_batons().contains(lap) || self.batons@[lap] is Parked
                || self.batons@[lap] is Idle);
            if self.batons@[lap] is Held {
                assert(self.held_batons().contains(lap));
            } else if let Baton::Parked(at) = self.batons@[lap] {
                assert(self.slot_ok(lap, at));
                assert(self.readers().contains(31 * lap + at));
            } else {
                assert(self.readers().contains(31 * lap + 30));
            }
        }
    }
}

impl<T> SegOp<T> {
    /// However the steps of operations are mixed: when operations that are
    /// apart hold what they rely on, then after a step of one of them they
    /// all do, and are apart. So every step finds the cells live that it
    /// reads, writes or frees.
    pub proof fn lemma_step_keeps_all(
        ops: Seq<Self>,
        i: int,
        queue0: SegQueue<T>,
        after: Self,
        queue1: SegQueue<T>,
    )
        requires
            0 <= i < ops.len(),
            forall|j: int| 0 <= j < ops.len() ==> (#[trigger] ops[j]).inv(&queue0),
            forall|j: int, k: int|
                0 <= j < ops.len() && 0 <= k < ops.len() && j != k ==> #[trigger] ops[j].apart(
                    &ops[k],
                ),
            Self::advances(ops[i], queue0, after, queue1),
        ensures
            queue1.wf(),
            forall|j: int| 0 <= j < ops.len() ==> (#[trigger] ops.update(i, after)[j]).inv(&queue1),
            forall|j: int, k: int|
                0 <= j < ops.len() && 0 <= k < ops.len() && j != k ==> #[trigger] ops.update(
                    i,
                    after,
                )[j].apart(&ops.update(i, after)[k]),
    {
        let next = ops.update(i, after);
        assert forall|j: int| 0 <= j < ops.len() implies (#[trigger] next[j]).inv(&queue1) by {
            if j != i {
                assert(ops[j].inv(&queue0) && ops[j].apart(&ops[i]));
            }
        }
        assert forall|j: int, k: int|
            0 <= j < ops.len() && 0 <= k < ops.len() && j != k implies #[trigger] next[j].apart(
            &next[k],
        ) by {
            if j == i {
                assert(ops[k].inv(&queue0) && ops[k].apart(&ops[i]));
                assert(ops[k].apart(&after));
            } else if k == i {
                assert(ops[j].inv(&queue0) && ops[j].apart(&ops[i]));
                assert(ops[j].apart(&after));
            } else {
                assert(ops[j].apart(&ops[k]));
            }
        }
    }

    /// The effects of the steps from `befores` to `afters`, one by one.
    pub open spec fn effects(befores: Seq<Self>, afters: Seq<Self>) -> Seq<Effect<T>> {
        Seq::new(befores.len(), |i: int| Self::effect(befores[i], afters[i]))
    }

    /// The contents of the states that a run of steps goes through.
    pub open spec fn contents(states: Seq<SegQueue<T>>) -> Seq<Seq<T>> {
        Seq::new(states.len(), |i: int| states[i]@)
    }

    /// Conservation, for every order in which the steps of operations come:
    /// what was there and what was pushed is, in this order, what was
    /// popped and what is left. No more is popped than was there or pushed.
    pub proof fn lemma_conservation(
        befores: Seq<Self>,
        afters: Seq<Self>,
        states: Seq<SegQueue<T>>,
    )
        requires
            afters.len() == befores.len(),
            states.len() == befores.len() + 1,
            forall|i: int|
                0 <= i < befores.len() ==> Self::advances(
                    #[trigger] befores[i],
                    states[i],
                    afters[i],
                    states[i + 1],
                ),
        ensures
            states[0]@ + pushes(Self::effects(befores, afters)) == pops(
                Self::effects(befores, afters),
            ) + states.last()@,
            pops(Self::effects(befores, afters)).len() <= states[0]@.len() + pushes(
                Self::effects(befores, afters),
            ).len(),
    {
        let effects = Self::effects(befores, afters);
        let contents = Self::contents(states);
        assert forall|i: int| 0 <= i < effects.len() implies fifo(
            #[trigger] effects[i],
            contents[i],
            contents[i + 1],
        ) by {
            assert(Self::advances(befores[i], states[i], afters[i], states[i + 1]));
        }
        lemma_fifo_conserves(effects, contents);
    }
}

impl<T> SegOp<T> {
    /// The slots that the pushes among the operations have claimed and not marked as written.
    pub open spec fn all_writes(ops: Seq<Self>) -> Set<int> {
        Set::new(|x: int| exists|j: int| 0 <= j < ops.len() && #[trigger] ops[j].writes().contains(x))
    }

    /// The slots that the pops among the operations have claimed and not let go.
    pub open spec fn all_reads(ops: Seq<Self>) -> Set<int> {
        Set::new(|x: int| exists|j: int| 0 <= j < ops.len() && #[trigger] ops[j].reads().contains(x))
    }

    /// The blocks that the operations are destroying.
    pub open spec fn all_batons(ops: Seq<Self>) -> Set<int> {
        Set::new(|x: int| exists|j: int| 0 <= j < ops.len() && #[trigger] ops[j].batons().contains(x))
    }

    /// One of the operations has linked the first block at the tail and not
    /// yet at the head.
    pub open spec fn any_publishes(ops: Seq<Self>) -> bool {
        exists|j: int| 0 <= j < ops.len() && #[trigger] ops[j].publishes()
    }
}

impl<T> SegQueue<T> {
    /// The operations are apart from each other and each holds what it relies
    /// on.
    pub open spec fn runs(&self, ops: Seq<SegOp<T>>) -> bool {
        &&& self.wf()
        &&& forall|j: int| 0 <= j < ops.len() ==> (#[trigger] ops[j]).inv(self)
        &&& forall|j: int, k: int|
            0 <= j < ops.len() && 0 <= k < ops.len() && j != k ==> #[trigger] ops[j].apart(&ops[k])
    }

    /// What is held in the container is held by the operations `ops`, and by
    /// no operation else.
    pub open spec fn accounts(&self, ops: Seq<SegOp<T>>) -> bool {
        &&& self.writers() =~= SegOp::all_writes(ops)
        &&& self.readers() =~= SegOp::all_reads(ops)
        &&& self.held_batons() =~= SegOp::all_batons(ops)
        &&& self.publishing() == SegOp::any_publishes(ops)
    }

    /// The operations `later` are the operations `earlier` after some steps.
    pub open spec fn follows(earlier: Seq<SegOp<T>>, later: Seq<SegOp<T>>) -> bool {
        &&& later.len() == earlier.len()
        &&& forall|j: int|
            0 <= j < earlier.len() ==> {
                &&& (#[trigger] later[j]).is_push() == earlier[j].is_push()
                &&& later[j].argument() == earlier[j].argument()
                &&& later[j].pending() ==> earlier[j].pending()
                &&& !earlier[j].pending() ==> later[j].outcome() == earlier[j].outcome()
            }
    }

    /// One turn of a schedule: the operation that `pick` names makes its next
    /// step, if there is such an operation and it is not finished, or that has to
    /// wait;
    /// else nothing changes.
    pub open spec fn turn(
        ops0: Seq<SegOp<T>>,
        queue0: Self,
        pick: usize,
        ops1: Seq<SegOp<T>>,
        queue1: Self,
    ) -> bool {
        if pick < ops0.len() && !ops0[pick as int].done() && !ops0[pick as int].blocked(&queue0) {
            &&& ops1.len() == ops0.len()
            &&& ops1 == ops0.update(pick as int, ops1[pick as int])
            &&& SegOp::advances(ops0[pick as int], queue0, ops1[pick as int], queue1)
        } else {
            ops1 == ops0 && queue1 == queue0
        }
    }

    /// The operations and the container before, between and after the turns
    /// of `schedule`, from `ops0` and `queue0` on.
    pub open spec fn trace(
        ops0: Seq<SegOp<T>>,
        queue0: Self,
        schedule: Seq<usize>,
        opss: Seq<Seq<SegOp<T>>>,
        states: Seq<Self>,
    ) -> bool {
        &&& opss.len() == schedule.len() + 1
        &&& states.len() == schedule.len() + 1
        &&& opss[0] == ops0
        &&& states[0] == queue0
        &&& forall|i: int|
            0 <= i < schedule.len() ==> Self::turn(
                #[trigger] opss[i],
                states[i],
                schedule[i],
                opss[i + 1],
                states[i + 1],
            )
    }

    /// One more operation, which is apart from the others and has left them
    /// what they rely on.
    pub proof fn lemma_runs_more(queue0: Self, ops: Seq<SegOp<T>>, queue1: Self, op: SegOp<T>)
        requires
            queue0.runs(ops),
            queue1.wf(),
            op.inv(&queue1),
            forall|j: int|
                0 <= j < ops.len() ==> (#[trigger] ops[j]).inv(&queue1) && ops[j].apart(&op),
        ensures
            queue1.runs(ops.push(op)),
    {
        let more = ops.push(op);
        assert forall|j: int, k: int|
            0 <= j < more.len() && 0 <= k < more.len() && j != k implies #[trigger] more[j].apart(
            &more[k],
        ) by {
            if j < ops.len() && k < ops.len() {
                assert(ops[j].apart(&ops[k]));
            } else if j < ops.len() {
                assert(ops[j].apart(&op));
            } else {
                assert(ops[k].apart(&op));
            }
        }
    }

    /// No operation holds anything in a container on which none is in progress.
    pub proof fn lemma_accounts_none(&self)
        requires
            self.quiet(),
        ensures
            self.accounts(Seq::<SegOp<T>>::empty()),
    {
    }

    /// One more operation, which holds what the container holds more.
    pub proof fn lemma_accounts_more(queue0: Self, ops: Seq<SegOp<T>>, queue1: Self, op: SegOp<T>)
        requires
            queue0.accounts(ops),
            queue1.writers() =~= queue0.writers().union(op.writes()),
            queue1.readers() =~= queue0.readers().union(op.reads()),
            queue1.held_batons() =~= queue0.held_batons().union(op.batons()),
            queue1.publishing() == (queue0.publishing() || op.publishes()),
        ensures
            queue1.accounts(ops.push(op)),
    {
        let more = ops.push(op);
        assert forall|x: int| queue1.writers().contains(x) <==> SegOp::all_writes(more).contains(x) by {
            if queue0.writers().contains(x) {
                let j = choose|j: int| 0 <= j < ops.len() && #[trigger] ops[j].writes().contains(x);
                assert(more[j].writes().contains(x));
            }
            if op.writes().contains(x) {
                assert(more[ops.len() as int].writes().contains(x));
            }
            if SegOp::all_writes(more).contains(x) {
                let j = choose|j: int| 0 <= j < more.len() && #[trigger] more[j].writes().contains(x);
                if j < ops.len() {
                    assert(ops[j].writes().contains(x));
                }
            }
        }
        assert forall|x: int| queue1.readers().contains(x) <==> SegOp::all_reads(more).contains(x) by {
            if queue0.readers().contains(x) {
                let j = choose|j: int| 0 <= j < ops.len() && #[trigger] ops[j].reads().contains(x);
                assert(more[j].reads().contains(x));
            }
            if op.reads().contains(x) {
                assert(more[ops.len() as int].reads().contains(x));
            }
            if SegOp::all_reads(more).contains(x) {
                let j = choose|j: int| 0 <= j < more.len() && #[trigger] more[j].reads().contains(x);
                if j < ops.len() {
                    assert(ops[j].reads().contains(x));
                }
            }
        }
        assert forall|x: int| queue1.held_batons().contains(x) <==> SegOp::all_batons(more).contains(x) by {
            if queue0.held_batons().contains(x) {
                let j = choose|j: int| 0 <= j < ops.len() && #[trigger] ops[j].batons().contains(x);
                assert(more[j].batons().contains(x));
            }
            if op.batons().contains(x) {
                assert(more[ops.len() as int].batons().contains(x));
            }
            if SegOp::all_batons(more).contains(x) {
                let j = choose|j: int| 0 <= j < more.len() && #[trigger] more[j].batons().contains(x);
                if j < ops.len() {
                    assert(ops[j].batons().contains(x));
                }
            }
        }
        if SegOp::any_publishes(more) {
            let j = choose|j: int| 0 <= j < more.len() && #[trigger] more[j].publishes();
            if j < ops.len() {
                assert(ops[j].publishes());
            }
        }
        if queue0.publishing() {
            let j = choose|j: int| 0 <= j < ops.len() && #[trigger] ops[j].publishes();
            assert(more[j].publishes());
        }
        if op.publishes() {
            assert(more[ops.len() as int].publishes());
        }
    }

    /// The step of one operation leaves the account right.
    pub proof fn lemma_accounts_kept(
        ops: Seq<SegOp<T>>,
        i: int,
        queue0: Self,
        after: SegOp<T>,
        queue1: Self,
    )
        requires
            0 <= i < ops.len(),
            queue0.runs(ops),
            queue0.accounts(ops),
            SegOp::advances(ops[i], queue0, after, queue1),
        ensures
            queue1.accounts(ops.update(i, after)),
    {
        let next = ops.update(i, after);
        assert forall|x: int| queue1.writers().contains(x) <==> SegOp::all_writes(next).contains(x) by {
            if queue1.writers().contains(x) && !after.writes().contains(x) {
                assert(queue0.writers().contains(x));
                let j = choose|j: int| 0 <= j < ops.len() && #[trigger] ops[j].writes().contains(x);
                assert(next[j].writes().contains(x));
            }
            if after.writes().contains(x) {
                assert(next[i].writes().contains(x));
            }
            if SegOp::all_writes(next).contains(x) {
                let j = choose|j: int| 0 <= j < next.len() && #[trigger] next[j].writes().contains(x);
                if j != i {
                    assert(ops[j].writes().contains(x));
                    assert(ops[j].apart(&ops[i]));
                    assert(SegOp::all_writes(ops).contains(x));
                }
            }
        }
        assert forall|x: int| queue1.readers().contains(x) <==> SegOp::all_reads(next).contains(x) by {
            if queue1.readers().contains(x) && !after.reads().contains(x) {
                assert(queue0.readers().contains(x));
                let j = choose|j: int| 0 <= j < ops.len() && #[trigger] ops[j].reads().contains(x);
                assert(next[j].reads().contains(x));
            }
            if after.reads().contains(x) {
                assert(next[i].reads().contains(x));
            }
            if SegOp::all_reads(next).contains(x) {
                let j = choose|j: int| 0 <= j < next.len() && #[trigger] next[j].reads().contains(x);
                if j != i {
                    assert(ops[j].reads().contains(x));
                    assert(ops[j].apart(&ops[i]));
                    assert(SegOp::all_reads(ops).contains(x));
                }
            }
        }
        assert forall|x: int| queue1.held_batons().contains(x) <==> SegOp::all_batons(next).contains(x) by {
            if queue1.held_batons().contains(x) && !after.batons().contains(x) {
                assert(queue0.held_batons().contains(x));
                let j = choose|j: int| 0 <= j < ops.len() && #[trigger] ops[j].batons().contains(x);
                assert(next[j].batons().contains(x));
            }
            if after.batons().contains(x) {
                assert(next[i].batons().contains(x));
            }
            if SegOp::all_batons(next).contains(x) {
                let j = choose|j: int| 0 <= j < next.len() && #[trigger] next[j].batons().contains(x);
                if j != i {
                    assert(ops[j].batons().contains(x));
                    assert(ops[j].apart(&ops[i]));
                    assert(SegOp::all_batons(ops).contains(x));
                }
            }
        }
        if SegOp::any_publishes(next) {
            let j = choose|j: int| 0 <= j < next.len() && #[trigger] next[j].publishes();
            if j != i {
                assert(ops[j].publishes());
                assert(ops[j].apart(&ops[i]));
            }
        }
        if queue1.publishing() && !after.publishes() {
            let j = choose|j: int| 0 <= j < ops.len() && #[trigger] ops[j].publishes();
            assert(next[j].publishes());
        }
        if after.publishes() {
            assert(next[i].publishes());
        }
    }

    /// When every operation is finished, none is in progress.
    pub proof fn lemma_all_done_is_quiet(&self, ops: Seq<SegOp<T>>)
        requires
            self.runs(ops),
            self.accounts(ops),
            forall|j: int| 0 <= j < ops.len() ==> (#[trigger] ops[j]).done(),
        ensures
            self.quiet(),
    {
        assert forall|x: int| !self.writers().contains(x) by {
            if self.writers().contains(x) {
                let j = choose|j: int| 0 <= j < ops.len() && #[trigger] ops[j].writes().contains(x);
                ops[j].lemma_done_holds_nothing();
            }
        }
        assert forall|x: int| !self.readers().contains(x) by {
            if self.readers().contains(x) {
                let j = choose|j: int| 0 <= j < ops.len() && #[trigger] ops[j].reads().contains(x);
                ops[j].lemma_done_holds_nothing();
            }
        }
        assert forall|x: int| !self.held_batons().contains(x) by {
            if self.held_batons().contains(x) {
                let j = choose|j: int| 0 <= j < ops.len() && #[trigger] ops[j].batons().contains(x);
                ops[j].lemma_done_holds_nothing();
            }
        }
        if self.publishing() {
            let j = choose|j: int| 0 <= j < ops.len() && #[trigger] ops[j].publishes();
            ops[j].lemma_done_holds_nothing();
        }
    }

    /// Lets the operations take steps in the order that `schedule` gives: each
    /// entry picks the operation that makes its next step. Entries that pick
    /// no operation, or a finished one, or that has to
    /// wait, are passed over.
    ///
    /// The result is the one that these steps lead to. Whatever the schedule,
    /// the container stays well formed, no operation loses what it relies on,
    /// the account of what is held stays right, and the payloads are
    /// conserved: what was there and what the pushes that have taken effect
    /// have added is what the pops that have taken effect have got and what
    /// is there now.
    pub fn run(&mut self, ops: &mut Vec<SegOp<T>>, schedule: &Vec<usize>)
        requires
            old(self).runs(old(ops)@),
        ensures
            exists|opss: Seq<Seq<SegOp<T>>>, states: Seq<Self>|
                #[trigger] Self::trace(old(ops)@, *old(self), schedule@, opss, states)
                    && opss.last() == final(ops)@ && states.last() == *final(self),
            final(self).runs(final(ops)@),
            old(self).accounts(old(ops)@) ==> final(self).accounts(final(ops)@),
            Self::follows(old(ops)@, final(ops)@),
            conserved(old(self)@, SegOp::effects(old(ops)@, final(ops)@), final(self)@),
            final(self).tail_index() <= old(self).tail_index() + 2 * schedule@.len(),
            final(self).tail_index() >= old(self).tail_index(),
    {
        proof {
            lemma_conserved_start(self@, SegOp::effects(ops@, ops@));
        }
        let ghost mut opss: Seq<Seq<SegOp<T>>> = seq![ops@];
        let ghost mut states: Seq<Self> = seq![*self];
        let mut turn: usize = 0;
        while turn < schedule.len()
            invariant
                turn <= schedule.len(),
                opss.len() == turn + 1,
                states.len() == turn + 1,
                opss[0] == old(ops)@,
                states[0] == *old(self),
                opss.last() == ops@,
                states.last() == *self,
                forall|i: int|
                    0 <= i < turn ==> Self::turn(
                        #[trigger] opss[i],
                        states[i],
                        schedule@[i],
                        opss[i + 1],
                        states[i + 1],
                    ),
                self.runs(ops@),
                old(self).accounts(old(ops)@) ==> self.accounts(ops@),
                Self::follows(old(ops)@, ops@),
                conserved(old(self)@, SegOp::effects(old(ops)@, ops@), self@),
                old(self).tail_index() <= self.tail_index() <= old(self).tail_index() + 2 * turn,
            decreases schedule.len() - turn,
        {
            let pick = schedule[turn];
            let ghost before = ops@;
            let ghost queue0 = *self;
            if pick < ops.len() && !ops[pick].is_done() {
                let progressed = ops[pick].step(self);
                proof {
                    let at = pick as int;
                    let first = old(ops)@;
                    assert(ops@ =~= before.update(at, ops@[at]));
                    if progressed {
                    SegOp::lemma_step_keeps_all(before, at, queue0, ops@[at], *self);
                    if old(self).accounts(first) {
                        Self::lemma_accounts_kept(before, at, queue0, ops@[at], *self);
                    }
                    let effects0 = SegOp::effects(first, before);
                    let effects1 = SegOp::effects(first, ops@);
                    let step = SegOp::effect(before[at], ops@[at]);
                    if before[at].pending() && !ops@[at].pending() {
                        assert(effects0[at] is Nothing);
                        assert(effects1 =~= effects0.update(at, step));
                        lemma_conserved_step(old(self)@, effects0, queue0@, at, step, self@);
                    } else {
                        assert(effects1 =~= effects0);
                    }
                    } else {
                        assert(ops@ =~= before);
                    }
                }
            }
            proof {
                assert(Self::turn(before, queue0, pick, ops@, *self));
                opss = opss.push(ops@);
                states = states.push(*self);
            }
            turn += 1;
        }
        proof {
            assert(Self::trace(old(ops)@, *old(self), schedule@, opss, states));
        }
    }
}

} // verus!
