//! Threads that end within a scope: when the scope is waited for, the body of
//! every thread that was spawned in it has run.
use crate::thread::{JoinError, JoinInner, Life, ThreadNative, Threads};
use core::marker::PhantomData;
use vstd::prelude::*;

verus! {

/// The threads of one scope, and the number of those that are still to run.
pub struct Scope<F, T> {
    threads: Threads<F, T>,
    num_running_threads: usize,
}

/// The right to join one thread of a scope.
pub struct ScopedJoinHandle<T> {
    join_inner: JoinInner<T>,
}

/// Spawns one thread in the scope that it borrows.
pub struct ScopedThreadBuilder<'scope, F, T> {
    pub scope: &'scope mut Scope<F, T>,
}

/// Why a thread was not spawned.
#[derive(Clone, Copy, Debug, PartialEq, Eq, Structural)]
pub enum SpawnError {
    /// Every identifier is given out.
    Exhausted,
}

/// Runs `body` on a new scope, waits until every thread that `body` has
/// spawned in the scope has finished, and returns what `body` has returned.
///
/// The body takes the scope and gives it back, with its result.
pub fn scope<B, F, T, R>(body: B) -> (result: R) where
    B: FnOnce(Scope<F, T>) -> (Scope<F, T>, R),
    F: FnOnce() -> T,

    requires
        forall|fresh: Scope<F, T>| #[trigger] fresh.is_new() ==> call_requires(body, (fresh,)),
        forall|fresh: Scope<F, T>, left: Scope<F, T>, result: R|
            fresh.is_new() && #[trigger] call_ensures(body, (fresh,), (left, result))
                ==> left.wf(),
    ensures
        exists|fresh: Scope<F, T>, left: Scope<F, T>|
            fresh.is_new() && #[trigger] call_ensures(body, (fresh,), (left, result)),
{
    let scope = Scope::new();
    let ghost fresh = scope;
    let (mut scope, result) = body(scope);
    let ghost left = scope;
    // Wait until all the threads are finished.
    scope.wait();
    proof {
        assert(fresh.is_new() && call_ensures(body, (fresh,), (left, result)));
    }
    result
}

impl<F: FnOnce() -> T, T> Scope<F, T> {
    /// A scope as a new one is: well formed, with no thread in it.
    pub open spec fn is_new(&self) -> bool {
        &&& self.wf()
        &&& self.threads().len() == 0
        &&& self.running() == 0
    }

    /// Opens a scope, with no thread in it.
    pub fn new() -> (scope: Scope<F, T>)
        ensures
            scope.is_new(),
    {
        Scope { threads: Threads::new(), num_running_threads: 0 }
    }

    /// The table of the threads of the scope.
    pub closed spec fn threads(&self) -> Threads<F, T> {
        self.threads
    }

    /// The number of threads whose body has not run, as the scope counts it.
    pub closed spec fn running(&self) -> nat {
        self.num_running_threads as nat
    }

    /// The table is well formed, and the scope counts the threads that are
    /// still to run.
    pub closed spec fn wf(&self) -> bool {
        self.threads.wf() && self.num_running_threads == self.threads.ready()
    }

    /// The number of threads whose body has not run.
    pub fn running_threads(&self) -> (n: usize)
        requires
            self.wf(),
        ensures
            n == self.running(),
            n == self.threads().ready(),
    {
        self.num_running_threads
    }

    /// Spawns a thread with the body `f` in the scope. There has to be an
    /// identifier left for it.
    pub fn spawn(&mut self, f: F) -> (handle: ScopedJoinHandle<T>)
        requires
            old(self).wf(),
            old(self).threads().len() < u64::MAX,
            call_requires(f, ()),
        ensures
            final(self).wf(),
            Self::spawned(*old(self), f, handle, *final(self)),
    {
        match self.builder().spawn(f) {
            Ok(handle) => handle,
            Err(_) => {
                proof {
                    assert(false);
                }
                ScopedJoinHandle {
                    join_inner: JoinInner {
                        native: ThreadNative { id: u64::MAX },
                        ret_type: PhantomData::<T>,
                    },
                }
            },
        }
    }

    /// What spawning a thread with the body `f` makes of a scope.
    pub open spec fn spawned(before: Self, f: F, handle: ScopedJoinHandle<T>, after: Self) -> bool {
        &&& handle.tid() == before.threads().len()
        &&& after.threads().len() == before.threads().len() + 1
        &&& after.threads().life(handle.tid() as int) == Life::<T>::Ready
        &&& after.threads().body(handle.tid() as int) == f
        &&& after.running() == before.running() + 1
        &&& before.threads().same_but(&after.threads(), handle.tid() as int)
    }

    /// A builder for one thread of this scope.
    pub fn builder(&mut self) -> (builder: ScopedThreadBuilder<'_, F, T>)
        ensures
            *builder.scope == *old(self),
            *final(self) == *final(builder.scope),
    {
        ScopedThreadBuilder { scope: self }
    }

    fn increment_num_running_threads(&mut self)
        requires
            old(self).num_running_threads < usize::MAX,
        ensures
            final(self).num_running_threads == old(self).num_running_threads + 1,
            final(self).threads == old(self).threads,
    {
        self.num_running_threads = self.num_running_threads + 1;
    }

    fn decrement_num_running_threads(&mut self)
        requires
            old(self).num_running_threads > 0,
        ensures
            final(self).num_running_threads == old(self).num_running_threads - 1,
            final(self).threads == old(self).threads,
    {
        self.num_running_threads = self.num_running_threads - 1;
    }

    /// Runs the body of the thread `id`, if the thread is there and its body
    /// has not run. Returns whether it has run now.
    pub fn run(&mut self, id: u64) -> (ran: bool)
        requires
            old(self).wf(),
        ensures
            final(self).wf(),
            final(self).threads().len() == old(self).threads().len(),
            old(self).threads().same_but(&final(self).threads(), id as int),
            ran == (id < old(self).threads().len() && old(self).threads().life(id as int) is Ready),
            ran ==> final(self).threads().life(id as int) is Finished && call_ensures(
                old(self).threads().body(id as int),
                (),
                final(self).threads().life(id as int)->Finished_0,
            ) && final(self).running() + 1 == old(self).running(),
            !ran ==> id < old(self).threads().len() ==> final(self).threads().life(id as int)
                == old(self).threads().life(id as int),
            !ran ==> final(self).running() == old(self).running(),
    {
        let ran = self.threads.run(id);
        if ran {
            self.decrement_num_running_threads();
        }
        ran
    }

    /// Waits until every thread of the scope has finished: runs the bodies
    /// that have not run.
    pub fn wait(&mut self)
        requires
            old(self).wf(),
        ensures
            final(self).wf(),
            final(self).running() == 0,
            final(self).threads().len() == old(self).threads().len(),
            forall|j: int|
                0 <= j < old(self).threads().len() ==> #[trigger] final(self).threads().body(j)
                    == old(self).threads().body(j) && match old(self).threads().life(j) {
                    Life::Ready => final(self).threads().life(j) is Finished && call_ensures(
                        old(self).threads().body(j),
                        (),
                        final(self).threads().life(j)->Finished_0,
                    ),
                    other => final(self).threads().life(j) == other,
                },
    {
        self.threads.run_all();
        self.num_running_threads = 0;
    }
}

impl<'scope, F: FnOnce() -> T, T> ScopedThreadBuilder<'scope, F, T> {
    /// Spawns a thread with the body `f`, unless every identifier is given out.
    pub fn spawn(self, f: F) -> (result: Result<ScopedJoinHandle<T>, SpawnError>)
        requires
            old(self.scope).wf(),
            call_requires(f, ()),
        ensures
            final(self.scope).wf(),
            match result {
                Ok(handle) => old(self.scope).threads().len() < u64::MAX && Scope::spawned(
                    *old(self.scope),
                    f,
                    handle,
                    *final(self.scope),
                ),
                Err(_) => old(self.scope).threads().len() >= u64::MAX && *final(self.scope) == *old(
                    self.scope,
                ),
            },
    {
        if self.scope.threads.count() as u64 == u64::MAX {
            return Err(SpawnError::Exhausted);
        }
        proof {
            self.scope.threads.lemma_ready_is_bounded();
        }
        let id = self.scope.threads.add(f);
        self.scope.increment_num_running_threads();
        Ok(
            ScopedJoinHandle::<T> {
                join_inner: JoinInner::<T> {
                    native: ThreadNative { id },
                    ret_type: PhantomData::<T>,
                },
            },
        )
    }
}

impl<T> ScopedJoinHandle<T> {
    /// The identifier of the thread that the handle stands for.
    pub closed spec fn tid(&self) -> u64 {
        self.join_inner.tid()
    }

    /// Waits for the thread, which here means running its body if it has not
    /// run, and takes its value.
    pub fn join<F: FnOnce() -> T>(self, scope: &mut Scope<F, T>) -> (result: Result<T, JoinError>)
        requires
            old(scope).wf(),
        ensures
            final(scope).wf(),
            final(scope).threads().len() == old(scope).threads().len(),
            old(scope).threads().same_but(&final(scope).threads(), self.tid() as int),
            Threads::joins(old(scope).threads(), self.tid(), result, final(scope).threads()),
    {
        let t_id = self.join_inner.native.id;
        let runs = scope.threads.is_ready(t_id);
        let result = self.join_inner.join(&mut scope.threads);
        if runs {
            scope.decrement_num_running_threads();
        }
        result
    }
}

} // verus!
