use kernel_core::sync::Acquire;
use kernel_core::sync::Condvar;
use kernel_core::sync::Mutex;
use kernel_core::sync::MutexBlocking;
use kernel_core::sync::MutexSpin;
use kernel_core::sync::Semaphore;

#[test]
fn spin_mutex_makes_the_second_thread_yield() {
    let mut m = MutexSpin::new();
    assert!(!m.locked);
    assert_eq!(m.lock(), Acquire::Acquired);
    assert!(m.locked);
    assert_eq!(m.lock(), Acquire::MustYield);
    m.unlock();
    assert!(!m.locked);
    assert_eq!(m.lock(), Acquire::Acquired);
}

#[test]
fn blocking_mutex_serves_waiters_in_order() {
    let mut m = MutexBlocking::new();
    assert_eq!(m.lock(1), Acquire::Acquired);
    assert_eq!(m.lock(2), Acquire::MustBlock);
    assert_eq!(m.lock(3), Acquire::MustBlock);
    assert_eq!(m.wait_queue.len(), 2);
    // The mutex passes to the first waiter and stays locked.
    assert_eq!(m.unlock(), Some(2));
    assert!(m.locked);
    assert_eq!(m.unlock(), Some(3));
    assert!(m.locked);
    assert_eq!(m.unlock(), None);
    assert!(!m.locked);
}

#[test]
fn mutex_of_either_kind() {
    let mut spin = Mutex::new(false);
    assert!(!spin.locked());
    assert_eq!(spin.lock(1), Acquire::Acquired);
    assert_eq!(spin.lock(2), Acquire::MustYield);
    assert_eq!(spin.unlock(), None);
    assert!(!spin.locked());
    let mut blocking = Mutex::new(true);
    assert_eq!(blocking.lock(1), Acquire::Acquired);
    assert_eq!(blocking.lock(2), Acquire::MustBlock);
    assert_eq!(blocking.unlock(), Some(2));
    assert!(blocking.locked());
}

#[test]
fn semaphore_counts_and_queues() {
    let mut s = Semaphore::new(2);
    assert_eq!(s.count, 2);
    assert_eq!(s.down(1), Acquire::Acquired);
    assert_eq!(s.down(2), Acquire::Acquired);
    assert_eq!(s.down(3), Acquire::MustBlock);
    assert_eq!(s.down(4), Acquire::MustBlock);
    assert_eq!(s.count, -2);
    assert_eq!(s.up(), Some(3));
    assert_eq!(s.up(), Some(4));
    assert_eq!(s.count, 0);
    assert_eq!(s.up(), None);
    assert_eq!(s.count, 1);
}

#[test]
fn semaphore_of_zero_units_blocks_at_once() {
    let mut s = Semaphore::new(0);
    assert_eq!(s.down(9), Acquire::MustBlock);
    assert_eq!(s.count, -1);
    assert_eq!(s.up(), Some(9));
}

#[test]
fn condvar_wait_releases_the_mutex() {
    let mut c = Condvar::new();
    let mut m = Mutex::new(true);
    assert_eq!(m.lock(1), Acquire::Acquired);
    assert_eq!(m.lock(2), Acquire::MustBlock);
    // Thread 1 waits: the mutex passes to thread 2.
    assert_eq!(c.wait(1, &mut m), Some(2));
    assert!(m.locked());
    assert_eq!(c.wait_queue.len(), 1);
    assert_eq!(c.signal(), Some(1));
    assert_eq!(c.signal(), None);
    // The woken thread has to take the mutex again.
    assert_eq!(m.lock(1), Acquire::MustBlock);
}

#[test]
fn condvar_signals_in_order() {
    let mut c = Condvar::new();
    let mut m = Mutex::new(true);
    assert_eq!(m.lock(5), Acquire::Acquired);
    assert_eq!(c.wait(5, &mut m), None);
    assert!(!m.locked());
    assert_eq!(m.lock(6), Acquire::Acquired);
    assert_eq!(c.wait(6, &mut m), None);
    assert_eq!(c.signal(), Some(5));
    assert_eq!(c.signal(), Some(6));
}
