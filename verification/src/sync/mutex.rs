//! A mutex whose lock word is plain data: locking writes the word, and the
//! guard holds the exclusive borrow of the mutex until it is given back.
//!
//! The mutex is never poisoned: nothing here models a thread that fails while
//! it holds the lock.
use vstd::prelude::*;

verus! {

/// The lock word of a mutex: zero while the mutex is free.
#[derive(Clone, Copy, Debug)]
pub struct MutexWord {
    private: i32,
}

impl MutexWord {
    pub closed spec fn is_locked(&self) -> bool {
        self.private != 0
    }

    /// Whether the word says that the mutex is held.
    pub fn locked(&self) -> (held: bool)
        ensures
            held == self.is_locked(),
    {
        self.private != 0
    }
}

/// The error of a lock that a failed thread has left behind. No function of
/// this module returns it.
#[derive(Debug)]
pub struct PoisonError {}

/// Why [`Mutex::try_lock`] has not locked.
#[derive(Debug)]
pub enum TryLockError {
    /// The mutex was left behind by a failed thread. Never returned.
    Poisoned,
    /// The mutex is held.
    WouldBlock,
}

/// Data that is reached through a lock.
pub struct Mutex<T> {
    inner: MutexWord,
    data: T,
}

/// The right to reach the data of a locked mutex. The mutex stays locked until
/// the guard is given to [`MutexGuard::unlock`]; a guard that is dropped
/// instead leaves it locked for good.
///
/// The borrow is a public field, because the contracts of the functions that
/// give and take a guard speak of the mutex behind it. Guards are meant to
/// come from [`Mutex::lock`] and [`Mutex::try_lock`] only.
pub struct MutexGuard<'a, T> {
    pub lock: &'a mut Mutex<T>,
}

impl<T> Mutex<T> {
    /// The lock word.
    pub closed spec fn word(&self) -> MutexWord {
        self.inner
    }

    pub open spec fn is_locked(&self) -> bool {
        self.word().is_locked()
    }

    /// The protected data.
    pub closed spec fn data(&self) -> T {
        self.data
    }

    /// Creates a new mutex in an unlocked state.
    pub fn new(t: T) -> (mutex: Mutex<T>)
        ensures
            !mutex.is_locked(),
            mutex.data() == t,
    {
        let mutex: MutexWord = MutexWord { private: 0 };
        Mutex { inner: mutex, data: t }
    }

    /// Locks the mutex, which has to be free: on a held mutex this call would
    /// not return.
    pub fn lock(&mut self) -> (result: Result<MutexGuard<'_, T>, PoisonError>)
        requires
            !old(self).is_locked(),
        ensures
            match result {
                Ok(guard) => {
                    &&& guard.lock.is_locked()
                    &&& guard.lock.data() == old(self).data()
                    &&& *final(self) == *final(guard.lock)
                },
                Err(_) => false,
            },
    {
        self.inner.private = 1;
        Ok(MutexGuard { lock: self })
    }

    /// Locks the mutex if it is free. On a held mutex nothing changes.
    pub fn try_lock(&mut self) -> (result: Result<MutexGuard<'_, T>, TryLockError>)
        ensures
            match result {
                Ok(guard) => {
                    &&& !old(self).is_locked()
                    &&& guard.lock.is_locked()
                    &&& guard.lock.data() == old(self).data()
                    &&& *final(self) == *final(guard.lock)
                },
                Err(error) => {
                    &&& old(self).is_locked()
                    &&& error is WouldBlock
                    &&& *final(self) == *old(self)
                },
            },
    {
        if self.inner.private == 0 {
            self.inner.private = 1;
            Ok(MutexGuard { lock: self })
        } else {
            Err(TryLockError::WouldBlock)
        }
    }

    /// Whether the mutex is poisoned: never.
    pub fn is_poisoned(&self) -> (poisoned: bool)
        ensures
            !poisoned,
    {
        false
    }

    /// Clears the poisoned state, of which there is none.
    pub fn clear_poison(&self) {
    }

    /// The data, by exclusive access to the mutex; the lock word is not read.
    pub fn get_mut(&mut self) -> (result: Result<&mut T, PoisonError>)
        ensures
            match result {
                Ok(data) => {
                    &&& *data == old(self).data()
                    &&& final(self).data() == *final(data)
                    &&& final(self).word() == old(self).word()
                },
                Err(_) => false,
            },
    {
        let data = &mut self.data;
        Ok(data)
    }

    /// Consumes the mutex and returns the data.
    pub fn into_inner(self) -> (result: Result<T, PoisonError>)
        ensures
            result is Ok,
            result->Ok_0 == self.data(),
    {
        let data = self.data;
        Ok(data)
    }
}

impl<T> From<T> for Mutex<T> {
    /// A free mutex around `t`.
    fn from(t: T) -> (mutex: Mutex<T>) {
        Mutex::new(t)
    }
}

impl<T> vstd::std_specs::convert::FromSpecImpl<T> for Mutex<T> {
    open spec fn obeys_from_spec() -> bool {
        true
    }

    closed spec fn from_spec(t: T) -> Mutex<T> {
        Mutex { inner: MutexWord { private: 0 }, data: t }
    }
}

impl<T> Mutex<T> {
    /// The mutex made from `t` is free and holds `t`.
    pub proof fn lemma_from(t: T)
        ensures
            !<Mutex<T> as vstd::std_specs::convert::FromSpec<T>>::from_spec(t).is_locked(),
            <Mutex<T> as vstd::std_specs::convert::FromSpec<T>>::from_spec(t).data() == t,
    {
    }
}

impl<T> Default for Mutex<T> where T: Default {
    /// A free mutex around the default of `T`.
    fn default() -> (mutex: Mutex<T>)
        ensures
            !mutex.is_locked(),
            call_ensures(T::default, (), mutex.data()),
    {
        Mutex::new(T::default())
    }
}

/// The lock word of the mutex that `guard` holds.
pub fn guard_lock<'a, 'g, T>(guard: &'g MutexGuard<'a, T>) -> (word: &'g MutexWord)
    ensures
        *word == old(guard.lock).word(),
        word.is_locked() == old(guard.lock).is_locked(),
{
    &guard.lock.inner
}

impl<'a, T> MutexGuard<'a, T> {
    /// The data of the locked mutex.
    pub fn deref(&self) -> (data: &T)
        ensures
            *data == old(self.lock).data(),
    {
        &self.lock.data
    }

    /// The data of the locked mutex, to be changed in place.
    pub fn deref_mut(&mut self) -> (data: &mut T)
        ensures
            *data == old(self).lock.data(),
            final(self).lock.data() == *final(data),
            final(self).lock.word() == old(self).lock.word(),
            *final(final(self).lock) == *final(old(self).lock),
    {
        &mut self.lock.data
    }

    /// Frees the mutex; the data stays as it is.
    pub fn unlock(self)
        ensures
            !final(self.lock).is_locked(),
            final(self.lock).data() == old(self.lock).data(),
    {
        self.lock.inner.private = 0;
    }
}

} // verus!
