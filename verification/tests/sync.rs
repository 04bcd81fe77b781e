use lockfree_model::sync::mutex::{guard_lock, Mutex, TryLockError};

#[test]
fn mutex_guard_reaches_the_data_and_unlocks() {
    let mut mutex = Mutex::new(5u32);
    assert!(!mutex.is_poisoned());
    {
        let mut guard = mutex.lock().unwrap();
        assert!(guard_lock(&guard).locked());
        *guard.deref_mut() += 2;
        assert_eq!(*guard.deref(), 7);
        guard.unlock();
    }
    assert_eq!(*mutex.get_mut().unwrap(), 7);
    assert_eq!(mutex.into_inner().unwrap(), 7);
}

#[test]
fn mutex_try_lock_fails_while_held() {
    let mut mutex = Mutex::new(1u8);
    let guard = mutex.try_lock().unwrap();
    assert!(matches!(guard.lock.try_lock(), Err(TryLockError::WouldBlock)));
    guard.unlock();
    assert!(mutex.try_lock().is_ok());
}

#[test]
fn mutex_from_and_default_are_free() {
    let mut made = Mutex::from(3u32);
    assert!(made.try_lock().is_ok());
    let mut plain: Mutex<u32> = Mutex::default();
    assert_eq!(*plain.get_mut().unwrap(), 0);
    plain.clear_poison();
    assert!(!plain.is_poisoned());
}

#[test]
fn mutex_default_holds_the_default_of_its_data() {
    let mutex: Mutex<i64> = Default::default();
    assert!(!mutex.is_poisoned());
    assert_eq!(mutex.into_inner().unwrap(), 0);
}
