use kernel_core::sync::banker::Banker;

fn banker(threads: usize, units: &[usize]) -> Banker {
    let mut b = Banker::new();
    for t in 0..threads {
        b.add_thread(t);
    }
    for u in units {
        b.add_lock(0, *u);
    }
    b
}

fn column_total(b: &Banker, lock: usize) -> usize {
    let mut total = b.available(lock);
    for t in 0..b.thread_num() {
        total += b.allocation(t, lock);
    }
    total
}

#[test]
fn new_banker_is_empty() {
    let b = Banker::new();
    assert_eq!(b.lock_num(), 0);
    assert_eq!(b.thread_num(), 0);
}

#[test]
fn add_thread_grows_with_empty_rows() {
    let mut b = Banker::new();
    b.add_lock(0, 3);
    b.add_thread(2);
    assert_eq!(b.thread_num(), 3);
    for t in 0..3 {
        assert_eq!(b.need(t), None);
        assert_eq!(b.allocation(t, 0), 0);
    }
}

#[test]
fn add_thread_empties_a_used_slot() {
    let mut b = banker(2, &[2, 1]);
    b.lock(1, 0);
    assert!(!b.is_deadlock(1, 1));
    assert_eq!(b.need(1), Some(1));
    b.add_thread(1);
    assert_eq!(b.thread_num(), 2);
    assert_eq!(b.allocation(1, 0), 0);
    assert_eq!(b.allocation(1, 1), 0);
    assert_eq!(b.need(1), None);
    // What the earlier owner held is not given back.
    assert_eq!(b.available(0), 1);
}

#[test]
fn add_lock_registers_the_thread() {
    let mut b = Banker::new();
    b.add_lock(3, 5);
    assert_eq!(b.lock_num(), 1);
    assert_eq!(b.thread_num(), 4);
    assert_eq!(b.available(0), 5);
    for t in 0..4 {
        assert_eq!(b.allocation(t, 0), 0);
    }
    b.add_lock(1, 7);
    assert_eq!(b.lock_num(), 2);
    assert_eq!(b.thread_num(), 4);
    assert_eq!(b.available(1), 7);
    for t in 0..4 {
        assert_eq!(b.allocation(t, 1), 0);
    }
}

#[test]
fn lock_and_unlock_keep_the_units_in_circulation() {
    let mut b = banker(3, &[2, 1]);
    assert_eq!(column_total(&b, 0), 2);
    assert_eq!(column_total(&b, 1), 1);
    b.lock(0, 0);
    assert_eq!(b.available(0), 1);
    assert_eq!(b.allocation(0, 0), 1);
    assert_eq!(b.need(0), None);
    b.lock(2, 0);
    b.lock(1, 1);
    assert_eq!(b.available(0), 0);
    assert_eq!(b.available(1), 0);
    assert_eq!(column_total(&b, 0), 2);
    assert_eq!(column_total(&b, 1), 1);
    b.unlock(0, 0);
    assert_eq!(b.available(0), 1);
    assert_eq!(b.allocation(0, 0), 0);
    assert_eq!(column_total(&b, 0), 2);
    b.unlock(1, 1);
    b.unlock(2, 0);
    assert_eq!(b.available(0), 2);
    assert_eq!(b.available(1), 1);
}

#[test]
fn lock_clears_the_request() {
    let mut b = banker(1, &[1]);
    assert!(!b.is_deadlock(0, 0));
    assert_eq!(b.need(0), Some(0));
    b.lock(0, 0);
    assert_eq!(b.need(0), None);
}

#[test]
fn modify_lock_starts_the_resource_anew() {
    let mut b = banker(2, &[1, 4]);
    b.lock(0, 1);
    b.lock(1, 1);
    assert!(!b.is_deadlock(0, 0));
    b.modify_lock(0, 1, 9);
    assert_eq!(b.available(1), 9);
    assert_eq!(b.allocation(0, 1), 0);
    assert_eq!(b.allocation(1, 1), 1);
    assert_eq!(b.need(0), None);
}

#[test]
fn request_after_modify_lock_is_safe() {
    let mut b = banker(3, &[1, 1]);
    b.lock(1, 1);
    b.modify_lock(0, 0, 1);
    assert!(!b.is_deadlock(0, 0));
    let mut c = banker(3, &[1, 1]);
    c.lock(1, 1);
    c.modify_lock(0, 0, 2);
    assert!(!c.is_deadlock(1, 0));
    assert!(!c.is_deadlock(2, 0));
}

#[test]
fn request_of_a_thread_that_holds_nothing_is_safe() {
    let mut b = banker(2, &[1]);
    b.lock(0, 0);
    // Thread 1 holds nothing: whatever it waits for, it blocks nobody.
    assert!(!b.is_deadlock(1, 0));
    assert_eq!(b.need(1), Some(0));
}

#[test]
fn two_threads_in_a_cycle_deadlock() {
    let mut b = banker(2, &[1, 1]);
    b.lock(0, 0);
    b.lock(1, 1);
    assert!(!b.is_deadlock(1, 0));
    assert!(b.is_deadlock(0, 1));
    // A refused request stays recorded, and nothing else has changed.
    assert_eq!(b.need(0), Some(1));
    assert_eq!(b.need(1), Some(0));
    assert_eq!(b.available(0), 0);
    assert_eq!(b.available(1), 0);
    assert_eq!(b.allocation(0, 0), 1);
    assert_eq!(b.allocation(1, 1), 1);
}

#[test]
fn three_threads_in_a_cycle_deadlock() {
    let mut b = banker(3, &[1, 1, 1]);
    b.lock(0, 0);
    b.lock(1, 1);
    b.lock(2, 2);
    assert!(!b.is_deadlock(0, 1));
    assert!(!b.is_deadlock(1, 2));
    assert!(b.is_deadlock(2, 0));
}

#[test]
fn a_chain_without_a_cycle_is_safe() {
    let mut b = banker(3, &[1, 1, 1]);
    b.lock(0, 0);
    b.lock(1, 1);
    b.lock(2, 2);
    // 0 waits for 1, 1 waits for 2, 2 waits for nothing.
    assert!(!b.is_deadlock(0, 1));
    assert!(!b.is_deadlock(1, 2));
}

#[test]
fn a_second_unit_breaks_the_cycle() {
    let mut b = banker(2, &[2, 1]);
    b.lock(0, 0);
    b.lock(1, 1);
    assert!(!b.is_deadlock(1, 0));
    assert!(!b.is_deadlock(0, 1));
}

#[test]
fn a_thread_outside_the_cycle_does_not_hide_it() {
    let mut b = banker(3, &[1, 1, 1]);
    b.lock(0, 0);
    b.lock(1, 1);
    b.lock(2, 2);
    assert!(!b.is_deadlock(1, 0));
    // Thread 2 can finish, threads 0 and 1 cannot.
    assert!(b.is_deadlock(0, 1));
}

#[test]
fn held_counts_the_units_of_all_threads() {
    let mut b = banker(3, &[5, 1]);
    assert_eq!(b.held(0), 0);
    b.lock(0, 0);
    b.lock(2, 0);
    b.lock(2, 0);
    b.lock(1, 1);
    assert_eq!(b.held(0), 3);
    assert_eq!(b.held(1), 1);
    assert_eq!(b.held(0) + b.available(0), 5);
    b.unlock(2, 0);
    assert_eq!(b.held(0), 2);
}
