use kernel_core::syscall::sync::mutex_acquire;
use kernel_core::syscall::sync::sys_condvar_create;
use kernel_core::syscall::sync::sys_condvar_signal;
use kernel_core::syscall::sync::sys_condvar_wait;
use kernel_core::syscall::sync::sys_enable_deadlock_detect;
use kernel_core::syscall::sync::sys_mutex_create;
use kernel_core::syscall::sync::sys_mutex_lock;
use kernel_core::syscall::sync::sys_mutex_lock_granted;
use kernel_core::syscall::sync::sys_mutex_unlock;
use kernel_core::syscall::sync::sys_semaphore_create;
use kernel_core::syscall::sync::sys_semaphore_down;
use kernel_core::syscall::sync::sys_semaphore_down_granted;
use kernel_core::syscall::sync::sys_semaphore_up;
use kernel_core::syscall::sync::sys_sleep;
use kernel_core::syscall::sync::SyscallStep;
use kernel_core::syscall::sync::DEADLOCK;
use kernel_core::task::process::Process;
use kernel_core::mm::address::PhysPageNum;
use kernel_core::mm::frame_allocator::PhysMemory;
use kernel_core::mm::page_table::PageTable;
use kernel_core::task::TaskControlBlock;
use kernel_core::syscall::sync::settle_step;
use kernel_core::task::TaskStatus;
use kernel_core::task::Switch;

const DONE: SyscallStep = SyscallStep::Return { value: 0, wake: None };
const REFUSED: SyscallStep = SyscallStep::Return { value: -0xdead, wake: None };
const BLOCK: SyscallStep = SyscallStep::Block { wake: None };

fn process(threads: usize) -> Process {
    let mut p = Process::new();
    for t in 0..threads {
        p.add_thread(t);
    }
    p
}

#[test]
fn deadlock_value() {
    assert_eq!(DEADLOCK, -57005);
}

#[test]
fn sleep_until_now_plus_ms() {
    assert_eq!(sys_sleep(1000, 250), SyscallStep::Sleep { expire_ms: 1250 });
}

#[test]
fn create_uses_the_first_free_slot() {
    let mut p = process(1);
    assert_eq!(sys_mutex_create(&mut p, 0, true), 0);
    assert_eq!(sys_mutex_create(&mut p, 0, false), 1);
    assert_eq!(sys_mutex_create(&mut p, 0, true), 2);
    p.mutex_list[1] = None;
    assert_eq!(sys_mutex_create(&mut p, 0, true), 1);
    assert_eq!(p.mutex_list.len(), 3);
    assert_eq!(p.mutex_banker.lock_num(), 3);
    assert_eq!(p.mutex_banker.available(1), 1);
    assert_eq!(sys_semaphore_create(&mut p, 0, 4), 0);
    assert_eq!(p.semaphore_banker.available(0), 4);
    assert_eq!(p.semaphore_list[0].as_ref().unwrap().count, 4);
    assert_eq!(sys_condvar_create(&mut p), 0);
    assert_eq!(sys_condvar_create(&mut p), 1);
    p.condvar_list[0] = None;
    assert_eq!(sys_condvar_create(&mut p), 0);
}

#[test]
fn create_registers_an_unknown_thread() {
    let mut p = Process::new();
    assert_eq!(sys_mutex_create(&mut p, 2, true), 0);
    assert_eq!(p.mutex_banker.thread_num(), 3);
}

#[test]
fn lock_and_unlock_a_blocking_mutex() {
    let mut p = process(2);
    let id = sys_mutex_create(&mut p, 0, true) as usize;
    assert_eq!(sys_mutex_lock(&mut p, 0, id), DONE);
    assert_eq!(p.mutex_banker.available(id), 0);
    assert_eq!(p.mutex_banker.allocation(0, id), 1);
    assert_eq!(sys_mutex_lock(&mut p, 1, id), BLOCK);
    // Thread 0 unlocks: the mutex passes to thread 1, which is woken.
    assert_eq!(sys_mutex_unlock(&mut p, 0, id), SyscallStep::Return { value: 0, wake: Some(1) });
    assert_eq!(p.mutex_banker.available(id), 1);
    assert_eq!(p.mutex_banker.allocation(0, id), 0);
    assert_eq!(sys_mutex_lock_granted(&mut p, 1, id), 0);
    assert_eq!(p.mutex_banker.available(id), 0);
    assert_eq!(p.mutex_banker.allocation(1, id), 1);
    assert_eq!(sys_mutex_unlock(&mut p, 1, id), DONE);
    assert_eq!(p.mutex_banker.available(id), 1);
}

#[test]
fn a_taken_spin_mutex_makes_the_thread_yield() {
    let mut p = process(2);
    let id = sys_mutex_create(&mut p, 0, false) as usize;
    assert_eq!(sys_mutex_lock(&mut p, 0, id), DONE);
    assert_eq!(sys_mutex_lock(&mut p, 1, id), SyscallStep::Yield);
    assert_eq!(mutex_acquire(&mut p, 1, id), SyscallStep::Yield);
    assert_eq!(sys_mutex_unlock(&mut p, 0, id), DONE);
    assert_eq!(mutex_acquire(&mut p, 1, id), DONE);
    assert_eq!(p.mutex_banker.allocation(1, id), 1);
}

#[test]
fn deadlock_refusal_with_two_mutexes() {
    let mut p = process(2);
    assert_eq!(sys_enable_deadlock_detect(&mut p, 1), 0);
    let m0 = sys_mutex_create(&mut p, 0, true) as usize;
    let m1 = sys_mutex_create(&mut p, 0, true) as usize;
    // Thread A (0) holds mutex 0, thread B (1) holds mutex 1.
    assert_eq!(sys_mutex_lock(&mut p, 0, m0), DONE);
    assert_eq!(sys_mutex_lock(&mut p, 1, m1), DONE);
    // B asks for mutex 0 and blocks; A then asks for mutex 1 and is refused.
    let b = sys_mutex_lock(&mut p, 1, m0);
    let a = sys_mutex_lock(&mut p, 0, m1);
    assert_eq!(b, BLOCK);
    assert_eq!(a, REFUSED);
    let refused = [a, b].iter().filter(|s| **s == REFUSED).count();
    assert_eq!(refused, 1);
    // The refused call has changed nothing but the recorded request.
    assert_eq!(p.mutex_banker.need(0), Some(m1));
    assert_eq!(p.mutex_banker.allocation(0, m1), 0);
    assert_eq!(p.mutex_banker.available(m1), 0);
    // A gives mutex 0 up: B is woken and eventually has it.
    assert_eq!(sys_mutex_unlock(&mut p, 0, m0), SyscallStep::Return { value: 0, wake: Some(1) });
    assert_eq!(sys_mutex_lock_granted(&mut p, 1, m0), 0);
    assert_eq!(p.mutex_banker.allocation(1, m0), 1);
    assert_eq!(p.mutex_banker.need(1), None);
}

#[test]
fn without_detection_nothing_is_refused() {
    let mut p = process(2);
    let m0 = sys_mutex_create(&mut p, 0, true) as usize;
    let m1 = sys_mutex_create(&mut p, 0, true) as usize;
    assert_eq!(sys_mutex_lock(&mut p, 0, m0), DONE);
    assert_eq!(sys_mutex_lock(&mut p, 1, m1), DONE);
    assert_eq!(sys_mutex_lock(&mut p, 1, m0), BLOCK);
    assert_eq!(sys_mutex_lock(&mut p, 0, m1), BLOCK);
    assert_eq!(p.mutex_banker.need(0), None);
    assert_eq!(p.mutex_banker.need(1), None);
}

#[test]
fn classic_banker_with_three_threads() {
    let mut p = process(3);
    assert_eq!(sys_enable_deadlock_detect(&mut p, 1), 0);
    let r0 = sys_semaphore_create(&mut p, 0, 1) as usize;
    let r1 = sys_semaphore_create(&mut p, 0, 1) as usize;
    let r2 = sys_semaphore_create(&mut p, 0, 1) as usize;
    assert_eq!(sys_semaphore_down(&mut p, 0, r0), DONE);
    assert_eq!(sys_semaphore_down(&mut p, 1, r1), DONE);
    assert_eq!(sys_semaphore_down(&mut p, 2, r2), DONE);
    assert_eq!(sys_semaphore_down(&mut p, 0, r1), BLOCK);
    assert_eq!(sys_semaphore_down(&mut p, 1, r2), BLOCK);
    // The call that would close the cycle is refused.
    assert_eq!(sys_semaphore_down(&mut p, 2, r0), REFUSED);
    assert_eq!(p.semaphore_list[r0].as_ref().unwrap().count, 0);
    assert_eq!(p.semaphore_banker.need(2), Some(r0));
}

#[test]
fn classic_banker_with_three_mutexes() {
    let mut p = process(3);
    assert_eq!(sys_enable_deadlock_detect(&mut p, 1), 0);
    let m: Vec<usize> = (0..3).map(|_| sys_mutex_create(&mut p, 0, true) as usize).collect();
    for t in 0..3 {
        assert_eq!(sys_mutex_lock(&mut p, t, m[t]), DONE);
    }
    assert_eq!(sys_mutex_lock(&mut p, 0, m[1]), BLOCK);
    assert_eq!(sys_mutex_lock(&mut p, 1, m[2]), BLOCK);
    assert_eq!(sys_mutex_lock(&mut p, 2, m[0]), REFUSED);
}

#[test]
fn semaphore_up_wakes_the_first_waiter() {
    let mut p = process(3);
    let s = sys_semaphore_create(&mut p, 0, 1) as usize;
    assert_eq!(sys_semaphore_down(&mut p, 0, s), DONE);
    assert_eq!(sys_semaphore_down(&mut p, 1, s), BLOCK);
    assert_eq!(sys_semaphore_down(&mut p, 2, s), BLOCK);
    assert_eq!(p.semaphore_list[s].as_ref().unwrap().count, -2);
    assert_eq!(sys_semaphore_up(&mut p, 0, s), SyscallStep::Return { value: 0, wake: Some(1) });
    assert_eq!(p.semaphore_banker.available(s), 1);
    assert_eq!(sys_semaphore_down_granted(&mut p, 1, s), 0);
    assert_eq!(p.semaphore_banker.available(s), 0);
    assert_eq!(p.semaphore_banker.allocation(1, s), 1);
    assert_eq!(sys_semaphore_up(&mut p, 1, s), SyscallStep::Return { value: 0, wake: Some(2) });
    assert_eq!(sys_semaphore_down_granted(&mut p, 2, s), 0);
    assert_eq!(sys_semaphore_up(&mut p, 2, s), DONE);
    assert_eq!(p.semaphore_list[s].as_ref().unwrap().count, 1);
    assert_eq!(p.semaphore_banker.available(s), 1);
}

#[test]
fn condvar_wait_and_signal() {
    let mut p = process(2);
    let m = sys_mutex_create(&mut p, 0, true) as usize;
    let c = sys_condvar_create(&mut p) as usize;
    assert_eq!(sys_condvar_signal(&mut p, c), DONE);
    assert_eq!(sys_mutex_lock(&mut p, 0, m), DONE);
    // Thread 0 waits: it gives the mutex up and has to be blocked.
    assert_eq!(sys_condvar_wait(&mut p, 0, c, m), BLOCK);
    assert_eq!(p.mutex_banker.available(m), 1);
    assert_eq!(p.mutex_banker.allocation(0, m), 0);
    // Thread 1 takes the mutex and signals.
    assert_eq!(sys_mutex_lock(&mut p, 1, m), DONE);
    assert_eq!(sys_condvar_signal(&mut p, c), SyscallStep::Return { value: 0, wake: Some(0) });
    // Thread 0 is woken and has to take the mutex again: it is taken.
    assert_eq!(mutex_acquire(&mut p, 0, m), BLOCK);
    assert_eq!(sys_mutex_unlock(&mut p, 1, m), SyscallStep::Return { value: 0, wake: Some(0) });
    assert_eq!(sys_mutex_lock_granted(&mut p, 0, m), 0);
    assert_eq!(p.mutex_banker.allocation(0, m), 1);
}

#[test]
fn enable_deadlock_detect_accepts_zero_and_one() {
    let mut p = Process::new();
    assert!(!p.deadlock_detect);
    assert_eq!(sys_enable_deadlock_detect(&mut p, 1), 0);
    assert!(p.deadlock_detect);
    assert_eq!(sys_enable_deadlock_detect(&mut p, 2), -1);
    assert!(p.deadlock_detect);
    assert_eq!(sys_enable_deadlock_detect(&mut p, 0), 0);
    assert!(!p.deadlock_detect);
    assert_eq!(sys_enable_deadlock_detect(&mut p, usize::MAX), -1);
    assert!(!p.deadlock_detect);
}

fn tasks(n: usize) -> kernel_core::task::TaskManager {
    let mut m = PhysMemory::new(PhysPageNum(0x80000), 16);
    let mut blocks = Vec::new();
    for _ in 0..n {
        blocks.push(TaskControlBlock::new(PageTable::new(&mut m), PhysPageNum(0), 0));
    }
    let mut tm = kernel_core::task::TaskManager::new(blocks);
    kernel_core::task::run_first_task(&mut tm);
    tm
}

#[test]
fn a_step_that_returns_leaves_the_caller_running() {
    let mut tm = tasks(2);
    assert_eq!(settle_step(&mut tm, DONE), None);
    assert_eq!(tm.current_task, 0);
    assert_eq!(tm.tasks[0].task_status, TaskStatus::Running);
    assert_eq!(tm.ready_queue.len(), 1);
}

#[test]
fn a_step_that_blocks_takes_the_caller_off_the_processor() {
    let mut tm = tasks(2);
    assert_eq!(settle_step(&mut tm, BLOCK), Some(Switch::To { current: 0, next: 1 }));
    assert_eq!(tm.tasks[0].task_status, TaskStatus::Blocked);
    assert_eq!(tm.tasks[1].task_status, TaskStatus::Running);
    assert_eq!(tm.ready_queue.len(), 0);
    // Task 1 returns from a call that has woken task 0.
    let step = SyscallStep::Return { value: 0, wake: Some(0) };
    assert_eq!(settle_step(&mut tm, step), None);
    assert_eq!(tm.tasks[0].task_status, TaskStatus::Ready);
    assert_eq!(tm.ready_queue.len(), 1);
    // A task that does not wait is not woken a second time.
    assert_eq!(settle_step(&mut tm, step), None);
    assert_eq!(tm.ready_queue.len(), 1);
    // Task 1 sleeps: task 0 runs.
    let sleep = SyscallStep::Sleep { expire_ms: 10 };
    assert_eq!(settle_step(&mut tm, sleep), Some(Switch::To { current: 1, next: 0 }));
    assert_eq!(tm.tasks[1].task_status, TaskStatus::Blocked);
    // Task 0 blocks too: nothing is left to run.
    assert_eq!(settle_step(&mut tm, BLOCK), Some(Switch::Halt));
}

#[test]
fn a_step_that_yields_puts_the_caller_behind_the_others() {
    let mut tm = tasks(3);
    assert_eq!(settle_step(&mut tm, SyscallStep::Yield), Some(Switch::To { current: 0, next: 1 }));
    assert_eq!(tm.tasks[0].task_status, TaskStatus::Ready);
    assert_eq!(tm.ready_queue.get(0).task, 2);
    assert_eq!(tm.ready_queue.get(1).task, 0);
    // A step that blocks and wakes: the woken task waits behind the others.
    let mut tm = tasks(3);
    assert_eq!(settle_step(&mut tm, BLOCK), Some(Switch::To { current: 0, next: 1 }));
    let step = SyscallStep::Block { wake: Some(0) };
    assert_eq!(settle_step(&mut tm, step), Some(Switch::To { current: 1, next: 2 }));
    assert_eq!(tm.ready_queue.len(), 1);
    assert_eq!(tm.ready_queue.get(0).task, 0);
}
