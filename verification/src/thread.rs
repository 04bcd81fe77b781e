//! The life of threads: spawned with a body, run by a scheduler, joined for
//! the value that the body returned.
//!
//! A thread is an entry of a table. Its body is one closure, which runs as a
//! whole when the scheduler picks the thread or, at the latest, when the thread
//! is joined.
use core::marker::PhantomData;
use core::time::Duration;
use vstd::prelude::*;

pub mod scoped;

verus! {

/// Where a thread stands.
pub enum Life<T> {
    /// Spawned; the body has not run.
    Ready,
    /// The body has returned this value, which nobody has taken yet.
    Finished(T),
    /// The value was handed to a joiner.
    Joined,
}

/// Why a join has returned no value.
#[derive(Clone, Copy, Debug, PartialEq, Eq, Structural)]
pub enum JoinError {
    /// The table has no thread of that identifier.
    Unknown,
    /// The value of the thread was taken by an earlier join.
    Joined,
}

enum Slot<F, T> {
    Ready(F),
    Finished(T),
    Joined,
}

/// The threads that were spawned on it, by identifier: the first is 0.
pub struct Threads<F, T> {
    slots: Vec<Slot<F, T>>,
    bodies: Ghost<Seq<F>>,
}

impl<F: FnOnce() -> T, T> Threads<F, T> {
    /// The number of threads spawned so far.
    pub closed spec fn len(&self) -> nat {
        self.slots.len() as nat
    }

    /// Where the thread `id` stands.
    pub closed spec fn life(&self, id: int) -> Life<T> {
        match self.slots[id] {
            Slot::Ready(_) => Life::Ready,
            Slot::Finished(value) => Life::Finished(value),
            Slot::Joined => Life::Joined,
        }
    }

    /// The body that the thread `id` was spawned with.
    pub closed spec fn body(&self, id: int) -> F {
        self.bodies@[id]
    }

    /// The number of threads whose body has not run.
    pub closed spec fn ready(&self) -> nat {
        self.count_ready(self.slots.len() as int)
    }

    spec fn count_ready(&self, upto: int) -> nat
        decreases upto,
    {
        if upto <= 0 {
            0
        } else {
            self.count_ready(upto - 1) + if self.slots[upto - 1] is Ready {
                1nat
            } else {
                0nat
            }
        }
    }

    spec fn slot_ok(&self, id: int) -> bool {
        match self.slots[id] {
            Slot::Ready(body) => body == self.bodies@[id] && call_requires(body, ()),
            Slot::Finished(value) => call_ensures(self.bodies@[id], (), value),
            Slot::Joined => true,
        }
    }

    /// Every body that has not run can run, and every value is one that its
    /// body has returned.
    pub closed spec fn wf(&self) -> bool {
        &&& self.bodies@.len() == self.slots.len()
        &&& forall|id: int| 0 <= id < self.slots.len() ==> #[trigger] self.slot_ok(id)
    }

    /// `other` has the threads of `self`, each with its body, and but for the
    /// thread `id` each where it stood.
    pub open spec fn same_but(&self, other: &Self, id: int) -> bool {
        &&& self.len() <= other.len()
        &&& forall|j: int|
            #![trigger self.body(j)]
            #![trigger other.body(j)]
            0 <= j < self.len() ==> self.body(j) == other.body(j)
        &&& forall|j: int|
            #![trigger self.life(j)]
            #![trigger other.life(j)]
            0 <= j < self.len() && j != id ==> self.life(j) == other.life(j)
    }

    /// Whether the thread `id` is there and its body has not run.
    pub fn is_ready(&self, id: u64) -> (ready: bool)
        ensures
            ready == (id < self.len() && self.life(id as int) is Ready),
    {
        if id >= self.slots.len() as u64 {
            return false;
        }
        match &self.slots[id as usize] {
            Slot::Ready(_) => true,
            _ => false,
        }
    }

    pub fn new() -> (threads: Self)
        ensures
            threads.wf(),
            threads.len() == 0,
            threads.ready() == 0,
    {
        Threads { slots: Vec::new(), bodies: Ghost(Seq::empty()) }
    }

    /// The number of threads spawned so far.
    pub fn count(&self) -> (n: usize)
        ensures
            n == self.len(),
    {
        self.slots.len()
    }

    /// No more threads are ready than there are.
    pub proof fn lemma_ready_is_bounded(&self)
        ensures
            self.ready() <= self.len(),
    {
        self.lemma_count_bounded(self.slots.len() as int);
    }

    proof fn lemma_count_bounded(&self, upto: int)
        requires
            0 <= upto,
        ensures
            self.count_ready(upto) <= upto,
        decreases upto,
    {
        if upto > 0 {
            self.lemma_count_bounded(upto - 1);
        }
    }

    proof fn lemma_count_same(&self, other: &Self, upto: int)
        requires
            0 <= upto <= self.slots.len(),
            upto <= other.slots.len(),
            forall|j: int| 0 <= j < upto ==> (#[trigger] self.slots[j] is Ready) == (
            other.slots[j] is Ready),
        ensures
            self.count_ready(upto) == other.count_ready(upto),
        decreases upto,
    {
        if upto > 0 {
            self.lemma_count_same(other, upto - 1);
        }
    }

    /// Taking one thread out of the ready ones leaves one less.
    proof fn lemma_count_less(&self, other: &Self, id: int, upto: int)
        requires
            0 <= id < self.slots.len(),
            0 <= upto <= self.slots.len(),
            self.slots.len() == other.slots.len(),
            self.slots[id] is Ready,
            !(other.slots[id] is Ready),
            forall|j: int|
                0 <= j < self.slots.len() && j != id ==> (#[trigger] self.slots[j] is Ready) == (
                other.slots[j] is Ready),
        ensures
            self.count_ready(upto) == other.count_ready(upto) + if id < upto {
                1nat
            } else {
                0nat
            },
        decreases upto,
    {
        if upto > 0 {
            self.lemma_count_less(other, id, upto - 1);
        }
    }

    pub(crate) fn add(&mut self, f: F) -> (id: u64)
        requires
            old(self).wf(),
            old(self).len() < u64::MAX,
            call_requires(f, ()),
        ensures
            final(self).wf(),
            id == old(self).len(),
            id != u64::MAX,
            final(self).len() == old(self).len() + 1,
            final(self).life(id as int) == Life::<T>::Ready,
            final(self).body(id as int) == f,
            final(self).ready() == old(self).ready() + 1,
            old(self).same_but(final(self), id as int),
    {
        let id = self.slots.len() as u64;
        self.slots.push(Slot::Ready(f));
        proof {
            self.bodies@ = self.bodies@.push(f);
            assert forall|j: int| 0 <= j < self.slots.len() implies #[trigger] self.slot_ok(j) by {
                if j < old(self).slots.len() {
                    assert(old(self).slot_ok(j));
                }
            }
            old(self).lemma_count_same(self, old(self).slots.len() as int);
        }
        id
    }

    /// Runs the body of the thread `id`, if the thread is there and its body
    /// has not run. Returns whether it has run now.
    pub fn run(&mut self, id: u64) -> (ran: bool)
        requires
            old(self).wf(),
        ensures
            final(self).wf(),
            final(self).len() == old(self).len(),
            old(self).same_but(final(self), id as int),
            ran == (id < old(self).len() && old(self).life(id as int) is Ready),
            ran ==> final(self).life(id as int) is Finished && call_ensures(
                old(self).body(id as int),
                (),
                final(self).life(id as int)->Finished_0,
            ) && final(self).ready() + 1 == old(self).ready(),
            !ran ==> id < old(self).len() ==> final(self).life(id as int) == old(self).life(
                id as int,
            ),
            !ran ==> final(self).ready() == old(self).ready(),
    {
        if id >= self.slots.len() as u64 {
            return false;
        }
        let at = id as usize;
        proof {
            assert(self.slot_ok(at as int));
        }
        let mut slot = Slot::Joined;
        core::mem::swap(&mut self.slots[at], &mut slot);
        let ran = match slot {
            Slot::Ready(body) => {
                let value = body();
                self.slots[at] = Slot::Finished(value);
                true
            },
            Slot::Finished(value) => {
                self.slots[at] = Slot::Finished(value);
                false
            },
            Slot::Joined => false,
        };
        proof {
            assert forall|j: int| 0 <= j < self.slots.len() implies #[trigger] self.slot_ok(j) by {
                assert(old(self).slot_ok(j));
            }
            if ran {
                old(self).lemma_count_less(self, at as int, self.slots.len() as int);
            } else {
                old(self).lemma_count_same(self, self.slots.len() as int);
            }
        }
        ran
    }

    /// Runs every body that has not run, in the order of the identifiers.
    pub fn run_all(&mut self)
        requires
            old(self).wf(),
        ensures
            final(self).wf(),
            final(self).len() == old(self).len(),
            final(self).ready() == 0,
            forall|j: int|
                0 <= j < old(self).len() ==> #[trigger] final(self).body(j) == old(self).body(j)
                    && match old(self).life(j) {
                    Life::Ready => final(self).life(j) is Finished && call_ensures(
                        old(self).body(j),
                        (),
                        final(self).life(j)->Finished_0,
                    ),
                    other => final(self).life(j) == other,
                },
    {
        let mut id: usize = 0;
        while id < self.slots.len()
            invariant
                self.wf(),
                self.len() == old(self).len(),
                id <= self.slots.len(),
                self.count_ready(id as int) == 0,
                forall|j: int|
                    0 <= j < old(self).len() ==> #[trigger] self.body(j) == old(self).body(j),
                forall|j: int|
                    id <= j < old(self).len() ==> #[trigger] self.life(j) == old(self).life(j),
                forall|j: int|
                    0 <= j < id ==> match old(self).life(j) {
                        Life::Ready => (#[trigger] self.life(j)) is Finished && call_ensures(
                            old(self).body(j),
                            (),
                            self.life(j)->Finished_0,
                        ),
                        other => self.life(j) == other,
                    },
            decreases self.slots.len() - id,
        {
            let ghost before = *self;
            self.run(id as u64);
            proof {
                assert forall|j: int| 0 <= j < id implies (#[trigger] before.slots[j] is Ready) == (
                self.slots[j] is Ready) by {
                    assert(before.life(j) == self.life(j));
                }
                before.lemma_count_same(self, id as int);
                assert forall|j: int| 0 <= j < id + 1 implies match old(self).life(j) {
                    Life::Ready => (#[trigger] self.life(j)) is Finished && call_ensures(
                        old(self).body(j),
                        (),
                        self.life(j)->Finished_0,
                    ),
                    other => self.life(j) == other,
                } by {
                    assert(self.body(j) == before.body(j));
                    if j < id {
                        assert(self.life(j) == before.life(j));
                    }
                }
            }
            id += 1;
        }
    }

    /// Hands out the value of the thread `id`, after running its body if it
    /// has not run.
    pub(crate) fn take(&mut self, id: u64) -> (result: Result<T, JoinError>)
        requires
            old(self).wf(),
        ensures
            final(self).wf(),
            final(self).len() == old(self).len(),
            old(self).same_but(final(self), id as int),
            Self::joins(*old(self), id, result, *final(self)),
    {
        if id >= self.slots.len() as u64 {
            return Err(JoinError::Unknown);
        }
        let at = id as usize;
        proof {
            assert(self.slot_ok(at as int));
        }
        let mut slot = Slot::Joined;
        core::mem::swap(&mut self.slots[at], &mut slot);
        let result = match slot {
            Slot::Ready(body) => Ok(body()),
            Slot::Finished(value) => Ok(value),
            Slot::Joined => Err(JoinError::Joined),
        };
        proof {
            assert forall|j: int| 0 <= j < self.slots.len() implies #[trigger] self.slot_ok(j) by {
                assert(old(self).slot_ok(j));
            }
            if old(self).slots[at as int] is Ready {
                old(self).lemma_count_less(self, at as int, self.slots.len() as int);
            } else {
                old(self).lemma_count_same(self, self.slots.len() as int);
            }
        }
        result
    }

    /// What a join of the thread `id` returns and leaves behind.
    pub open spec fn joins(before: Self, id: u64, result: Result<T, JoinError>, after: Self) -> bool {
        if id >= before.len() {
            result == Err::<T, JoinError>(JoinError::Unknown) && after.ready() == before.ready()
        } else {
            match before.life(id as int) {
                Life::Ready => {
                    &&& result is Ok
                    &&& call_ensures(before.body(id as int), (), result->Ok_0)
                    &&& after.life(id as int) == Life::<T>::Joined
                    &&& after.ready() + 1 == before.ready()
                },
                Life::Finished(value) => {
                    &&& result == Ok::<T, JoinError>(value)
                    &&& after.life(id as int) == Life::<T>::Joined
                    &&& after.ready() == before.ready()
                },
                Life::Joined => {
                    &&& result == Err::<T, JoinError>(JoinError::Joined)
                    &&& after.life(id as int) == Life::<T>::Joined
                    &&& after.ready() == before.ready()
                },
            }
        }
    }
}

/// The identifier of a thread, as the table has given it out.
pub struct ThreadNative {
    pub(crate) id: u64,
}

/// What a handle is made of: the identifier, and the type of the value.
pub struct JoinInner<T> {
    pub(crate) native: ThreadNative,
    pub(crate) ret_type: PhantomData<T>,
}

/// The right to join one thread.
pub struct JoinHandle<T>(JoinInner<T>);

impl<T> JoinInner<T> {
    pub closed spec fn tid(&self) -> u64 {
        self.native.id
    }

    /// Waits for the thread and takes its value.
    pub fn join<F: FnOnce() -> T>(self, threads: &mut Threads<F, T>) -> (result: Result<
        T,
        JoinError,
    >)
        requires
            old(threads).wf(),
        ensures
            final(threads).wf(),
            final(threads).len() == old(threads).len(),
            old(threads).same_but(final(threads), self.tid() as int),
            Threads::joins(*old(threads), self.tid(), result, *final(threads)),
    {
        self.join_keep(threads)
    }

    /// Waits for the thread and takes its value; the handle stays.
    pub fn join_keep<F: FnOnce() -> T>(&self, threads: &mut Threads<F, T>) -> (result: Result<
        T,
        JoinError,
    >)
        requires
            old(threads).wf(),
        ensures
            final(threads).wf(),
            final(threads).len() == old(threads).len(),
            old(threads).same_but(final(threads), self.tid() as int),
            Threads::joins(*old(threads), self.tid(), result, *final(threads)),
    {
        let t_id: u64 = self.native.id;
        threads.take(t_id)
    }
}

impl<T> JoinHandle<T> {
    /// The identifier of the thread that the handle stands for.
    pub closed spec fn tid(&self) -> u64 {
        self.0.tid()
    }

    /// Joins the thread that this handle stands for: waits until its body has
    /// returned, which here means running it if it has not run, and returns
    /// the value.
    pub fn join<F: FnOnce() -> T>(self, threads: &mut Threads<F, T>) -> (result: Result<
        T,
        JoinError,
    >)
        requires
            old(threads).wf(),
        ensures
            final(threads).wf(),
            final(threads).len() == old(threads).len(),
            old(threads).same_but(final(threads), self.tid() as int),
            Threads::joins(*old(threads), self.tid(), result, *final(threads)),
    {
        self.0.join(threads)
    }

    /// Joins without consuming the handle. A second join of the same thread
    /// finds the value taken.
    pub fn join_keep<F: FnOnce() -> T>(&self, threads: &mut Threads<F, T>) -> (result: Result<
        T,
        JoinError,
    >)
        requires
            old(threads).wf(),
        ensures
            final(threads).wf(),
            final(threads).len() == old(threads).len(),
            old(threads).same_but(final(threads), self.tid() as int),
            Threads::joins(*old(threads), self.tid(), result, *final(threads)),
    {
        self.0.join_keep(threads)
    }

    /// Joins the thread of the identifier `t_id`.
    pub fn join_tid<F: FnOnce() -> T>(t_id: u64, threads: &mut Threads<F, T>) -> (result: Result<
        T,
        JoinError,
    >)
        requires
            old(threads).wf(),
        ensures
            final(threads).wf(),
            final(threads).len() == old(threads).len(),
            old(threads).same_but(final(threads), t_id as int),
            Threads::joins(*old(threads), t_id, result, *final(threads)),
    {
        let inner = JoinInner { native: ThreadNative { id: t_id }, ret_type: PhantomData::<T> };
        inner.join(threads)
    }

    /// The identifier of the thread.
    pub fn get_tid(&self) -> (t_id: u64)
        ensures
            t_id == self.tid(),
    {
        self.0.native.id
    }

    /// A handle that stands for no thread: its identifier is one that no
    /// table gives out.
    pub fn dummy() -> (handle: JoinHandle<T>)
        ensures
            handle.tid() == u64::MAX,
    {
        JoinHandle(JoinInner { native: ThreadNative { id: u64::MAX }, ret_type: PhantomData::<T> })
    }
}

/// Spawns a thread with the body `f` on `threads`. The body runs when the
/// scheduler picks the thread or when the thread is joined.
pub fn spawn<F, T>(threads: &mut Threads<F, T>, f: F) -> (handle: JoinHandle<T>) where
    F: FnOnce() -> T,

    requires
        old(threads).wf(),
        old(threads).len() < u64::MAX,
        call_requires(f, ()),
    ensures
        final(threads).wf(),
        handle.tid() == old(threads).len(),
        handle.tid() != u64::MAX,
        final(threads).len() == old(threads).len() + 1,
        final(threads).life(handle.tid() as int) == Life::<T>::Ready,
        final(threads).body(handle.tid() as int) == f,
        final(threads).ready() == old(threads).ready() + 1,
        old(threads).same_but(final(threads), handle.tid() as int),
{
    let id = threads.add(f);
    JoinHandle::<T>(JoinInner::<T> { native: ThreadNative { id }, ret_type: PhantomData::<T> })
}

/// Gives the processor up, which no thread of a table holds: nothing happens.
pub fn yield_now() {
}

/// Lets time pass, of which the table knows nothing: nothing happens.
pub fn sleep(_dur: Duration) {
}

} // verus!
