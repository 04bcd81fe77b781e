//! Allocation and deallocation of cells, each under an address of its own.
use vstd::prelude::*;

verus! {

/// Cells of one type. An address is the position of a cell; position 0 holds
/// nothing, so no cell has the address [`crate::NULL`]. Addresses of freed cells
/// are handed out again.
pub struct Arena<N> {
    cells: Vec<Option<N>>,
    free: Vec<usize>,
}

impl<N> View for Arena<N> {
    type V = Map<usize, N>;

    /// The live cells by address.
    closed spec fn view(&self) -> Map<usize, N> {
        Map::new(
            |a: usize| 0 < a < self.cells.len() && self.cells[a as int].is_some(),
            |a: usize| self.cells[a as int].unwrap(),
        )
    }
}

impl<N> Arena<N> {
    /// The free list names vacant cells, each once.
    pub closed spec fn wf(&self) -> bool {
        &&& self.cells.len() >= 1
        &&& self.cells[0].is_none()
        &&& forall|i: int|
            0 <= i < self.free.len() ==> 0 < #[trigger] self.free[i] < self.cells.len()
                && self.cells[self.free[i] as int].is_none()
        &&& forall|i: int, j: int|
            0 <= i < j < self.free.len() ==> self.free[i] != self.free[j]
    }

    /// There is a cell at `addr`.
    pub open spec fn is_live(&self, addr: usize) -> bool {
        self@.dom().contains(addr)
    }

    /// No cell has the null address.
    pub proof fn lemma_null_is_not_live(&self)
        ensures
            !self.is_live(crate::NULL),
    {
    }

    /// An arena without cells.
    pub fn new() -> (arena: Arena<N>)
        ensures
            arena.wf(),
            arena@ == Map::<usize, N>::empty(),
    {
        let mut cells: Vec<Option<N>> = Vec::new();
        cells.push(None);
        let arena = Arena { cells, free: Vec::new() };
        assert(arena@ =~= Map::<usize, N>::empty());
        arena
    }

    /// Stores `cell` under an address that was not live.
    pub fn allocate(&mut self, cell: N) -> (addr: usize)
        requires
            old(self).wf(),
        ensures
            final(self).wf(),
            addr != crate::NULL,
            !old(self).is_live(addr),
            final(self)@ == old(self)@.insert(addr, cell),
    {
        match self.free.pop() {
            Some(addr) => {
                self.cells[addr] = Some(cell);
                assert(self@ =~= old(self)@.insert(addr, cell));
                addr
            },
            None => {
                let addr = self.cells.len();
                self.cells.push(Some(cell));
                assert(self@ =~= old(self)@.insert(addr, cell));
                addr
            },
        }
    }

    /// Ends the life of the cell at `addr` and returns what it held.
    pub fn free(&mut self, addr: usize) -> (cell: N)
        requires
            old(self).wf(),
            old(self).is_live(addr),
        ensures
            final(self).wf(),
            cell == old(self)@[addr],
            final(self)@ == old(self)@.remove(addr),
    {
        let cell = self.cells[addr].take().unwrap();
        self.free.push(addr);
        assert(self@ =~= old(self)@.remove(addr));
        cell
    }

    /// The cell at `addr`.
    pub fn get(&self, addr: usize) -> (cell: &N)
        requires
            self.wf(),
            self.is_live(addr),
        ensures
            *cell == self@[addr],
    {
        self.cells[addr].as_ref().unwrap()
    }

    /// Exclusive access to the cell at `addr`; no other cell changes.
    pub fn get_mut(&mut self, addr: usize) -> (cell: &mut N)
        requires
            old(self).wf(),
            old(self).is_live(addr),
        ensures
            *cell == old(self)@[addr],
            final(self).wf(),
            final(self)@ == old(self)@.insert(addr, *final(cell)),
    {
        self.cells[addr].as_mut().unwrap()
    }

    /// Whether no cell is live.
    pub fn is_vacant(&self) -> (vacant: bool)
        requires
            self.wf(),
        ensures
            vacant == (self@.dom() =~= Set::<usize>::empty()),
    {
        let mut a: usize = 1;
        while a < self.cells.len()
            invariant
                1 <= a <= self.cells.len(),
                self.wf(),
                forall|b: usize| 0 < b < a ==> !self.is_live(b),
            decreases self.cells.len() - a,
        {
            if self.cells[a].is_some() {
                assert(self.is_live(a));
                return false;
            }
            a += 1;
        }
        assert(self@.dom() =~= Set::<usize>::empty()) by {
            assert forall|b: usize| !self@.dom().contains(b) by {
                assert(!self.is_live(b));
            }
        }
        true
    }

    /// Whether no cell is live but, at most, the one at `addr`.
    pub fn holds_only(&self, addr: usize) -> (only: bool)
        requires
            self.wf(),
        ensures
            only == forall|a: usize| self.is_live(a) ==> a == addr,
    {
        let mut a: usize = 1;
        while a < self.cells.len()
            invariant
                1 <= a <= self.cells.len(),
                self.wf(),
                forall|b: usize| 0 < b < a && self.is_live(b) ==> b == addr,
            decreases self.cells.len() - a,
        {
            if a != addr && self.cells[a].is_some() {
                assert(self.is_live(a));
                return false;
            }
            a += 1;
        }
        true
    }

    /// Whether there is a cell at `addr`.
    pub fn contains(&self, addr: usize) -> (live: bool)
        requires
            self.wf(),
        ensures
            live == self.is_live(addr),
    {
        addr > 0 && addr < self.cells.len() && self.cells[addr].is_some()
    }
}

} // verus!
