use lockfree_model::thread::scoped::{scope, Scope};
use lockfree_model::thread::{spawn, yield_now, JoinError, JoinHandle, Threads};

fn body(value: u32) -> impl FnOnce() -> u32 {
    move || value * 2
}

#[test]
fn thread_join_returns_what_the_body_returned() {
    let mut threads = Threads::new();
    let first = spawn(&mut threads, body(1));
    let second = spawn(&mut threads, body(2));
    assert_eq!(first.get_tid(), 0);
    assert_eq!(second.get_tid(), 1);
    assert!(threads.run(1));
    assert!(!threads.run(1));
    yield_now();
    assert_eq!(second.join_keep(&mut threads), Ok(4));
    assert_eq!(second.join(&mut threads), Err(JoinError::Joined));
    assert_eq!(JoinHandle::<u32>::join_tid(0, &mut threads), Ok(2));
    assert_eq!(first.join(&mut threads), Err(JoinError::Joined));
}

#[test]
fn thread_dummy_handle_joins_nothing() {
    let mut threads = Threads::new();
    let _real = spawn(&mut threads, body(1));
    let dummy = JoinHandle::<u32>::dummy();
    assert_eq!(dummy.get_tid(), u64::MAX);
    assert_eq!(dummy.join(&mut threads), Err(JoinError::Unknown));
}

#[test]
fn scope_counts_running_threads_and_waits() {
    let mut scope = Scope::new();
    let first = scope.spawn(body(10));
    let second = scope.builder().spawn(body(20)).unwrap();
    assert_eq!(scope.running_threads(), 2);
    assert_eq!(first.join(&mut scope), Ok(20));
    assert_eq!(scope.running_threads(), 1);
    scope.wait();
    assert_eq!(scope.running_threads(), 0);
    assert_eq!(second.join(&mut scope), Ok(40));
}

#[test]
fn scope_returns_what_its_body_returns() {
    let total = scope(|mut scope| {
        let first = scope.spawn(body(1));
        let second = scope.spawn(body(2));
        assert_eq!(scope.running_threads(), 2);
        let sum = first.join(&mut scope).unwrap() + second.join(&mut scope).unwrap();
        let _unjoined = scope.spawn(body(3));
        (scope, sum)
    });
    assert_eq!(total, 6);
}
