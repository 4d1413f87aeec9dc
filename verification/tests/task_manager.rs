use kernel_core::mm::address::PhysPageNum;
use kernel_core::mm::frame_allocator::PhysMemory;
use kernel_core::mm::page_table::PageTable;
use kernel_core::task::block_current_and_run_next;
use kernel_core::task::change_program_brk;
use kernel_core::task::current_trap_cx;
use kernel_core::task::current_user_token;
use kernel_core::task::exit_current_and_run_next;
use kernel_core::task::get_current_phys_addr;
use kernel_core::task::get_current_running_time_ms;
use kernel_core::task::get_current_start_time;
use kernel_core::task::get_current_status;
use kernel_core::task::get_current_syscall_times;
use kernel_core::task::manager;
use kernel_core::task::manager::ReadyTask;
use kernel_core::task::map_current_with_len;
use kernel_core::task::run_first_task;
use kernel_core::task::suspend_current_and_run_next;
use kernel_core::task::unmap_current_with_len;
use kernel_core::task::update_syscall_times;
use kernel_core::task::Switch;
use kernel_core::task::TaskContext;
use kernel_core::task::TaskControlBlock;
use kernel_core::task::TaskManager;
use kernel_core::task::TaskStatus;

fn kernel(priorities: &[usize]) -> (TaskManager, PhysMemory) {
    let mut m = PhysMemory::new(PhysPageNum(0x80000), 32);
    let mut blocks = Vec::new();
    for (i, p) in priorities.iter().enumerate() {
        let pt = PageTable::new(&mut m);
        let mut tcb = TaskControlBlock::new(pt, PhysPageNum(0x100 + i as u64), 0x20_0000);
        tcb.priority = *p;
        blocks.push(tcb);
    }
    (TaskManager::new(blocks), m)
}

/// Every ready task waits in the queue exactly once, and no other task
/// waits there.
fn check_ready_queue(tm: &TaskManager) {
    let mut waiting = vec![0usize; tm.tasks.len()];
    for k in 0..tm.ready_queue.len() {
        waiting[tm.ready_queue.get(k).task] += 1;
    }
    let mut running = 0;
    for (tid, tcb) in tm.tasks.iter().enumerate() {
        let expected = if tcb.task_status == TaskStatus::Ready { 1 } else { 0 };
        assert_eq!(waiting[tid], expected, "task {}", tid);
        if tcb.task_status == TaskStatus::Running {
            running += 1;
            assert_eq!(tid, tm.current_task);
        }
    }
    assert!(running <= 1);
}

#[test]
fn ready_queue_is_first_in_first_out_within_a_priority() {
    let mut q = manager::TaskManager::new();
    assert_eq!(q.fetch(), None);
    assert_eq!(q.peek(), None);
    q.add(10, 1);
    q.add(11, 0);
    q.add(12, 1);
    q.add(13, 0);
    assert_eq!(q.len(), 4);
    assert_eq!(q.get(0), ReadyTask { priority: 1, task: 10 });
    assert_eq!(q.peek(), Some(1));
    assert_eq!(q.fetch(), Some(11));
    assert_eq!(q.fetch(), Some(13));
    assert_eq!(q.fetch(), Some(10));
    assert_eq!(q.fetch(), Some(12));
    assert_eq!(q.fetch(), None);
}

#[test]
fn new_tasks_are_ready_and_wait_in_order() {
    let (tm, _m) = kernel(&[0, 0, 0]);
    assert_eq!(tm.num_app, 3);
    assert_eq!(tm.ready_queue.len(), 3);
    for tid in 0..3 {
        assert_eq!(tm.tasks[tid].task_status, TaskStatus::Ready);
        assert_eq!(tm.ready_queue.get(tid), ReadyTask { priority: 0, task: tid });
        assert_eq!(tm.tasks[tid].syscall_times.len(), 500);
    }
    assert_eq!(tm.find_next_task(), Some(0));
    check_ready_queue(&tm);
}

#[test]
fn task_context_of_zeros() {
    let cx = TaskContext::zero_init();
    assert_eq!(cx.ra, 0);
    assert_eq!(cx.sp, 0);
    assert_eq!(cx.s, [0; 12]);
}

#[test]
fn lifecycle_keeps_ready_tasks_in_the_queue() {
    let (mut tm, _m) = kernel(&[0, 0, 0, 0]);
    assert_eq!(run_first_task(&mut tm), Switch::To { current: 0, next: 0 });
    assert_eq!(get_current_status(&tm), TaskStatus::Running);
    check_ready_queue(&tm);
    assert_eq!(suspend_current_and_run_next(&mut tm), Switch::To { current: 0, next: 1 });
    check_ready_queue(&tm);
    // Task 1 blocks: it does not wait in the ready queue.
    assert_eq!(block_current_and_run_next(&mut tm), Switch::To { current: 1, next: 2 });
    assert_eq!(tm.tasks[1].task_status, TaskStatus::Blocked);
    check_ready_queue(&tm);
    assert_eq!(exit_current_and_run_next(&mut tm), Switch::To { current: 2, next: 3 });
    assert_eq!(tm.tasks[2].task_status, TaskStatus::Exited);
    check_ready_queue(&tm);
    // Task 1 is woken: it waits behind task 0.
    tm.wakeup_task(1);
    assert_eq!(tm.tasks[1].task_status, TaskStatus::Ready);
    check_ready_queue(&tm);
    assert_eq!(suspend_current_and_run_next(&mut tm), Switch::To { current: 3, next: 0 });
    assert_eq!(suspend_current_and_run_next(&mut tm), Switch::To { current: 0, next: 1 });
    assert_eq!(suspend_current_and_run_next(&mut tm), Switch::To { current: 1, next: 3 });
    check_ready_queue(&tm);
    assert_eq!(exit_current_and_run_next(&mut tm), Switch::To { current: 3, next: 0 });
    assert_eq!(exit_current_and_run_next(&mut tm), Switch::To { current: 0, next: 1 });
    check_ready_queue(&tm);
    assert_eq!(exit_current_and_run_next(&mut tm), Switch::Halt);
    check_ready_queue(&tm);
    for tid in 0..4 {
        assert_eq!(tm.tasks[tid].task_status, TaskStatus::Exited);
    }
}

#[test]
fn blocked_tasks_leave_the_kernel_idle() {
    let (mut tm, _m) = kernel(&[0]);
    assert_eq!(run_first_task(&mut tm), Switch::To { current: 0, next: 0 });
    assert_eq!(block_current_and_run_next(&mut tm), Switch::Halt);
    assert_eq!(tm.tasks[0].task_status, TaskStatus::Blocked);
    check_ready_queue(&tm);
    tm.wakeup_task(0);
    assert_eq!(tm.run_next_task(), Switch::To { current: 0, next: 0 });
    check_ready_queue(&tm);
}

#[test]
fn higher_priority_runs_first() {
    let (mut tm, _m) = kernel(&[2, 1, 2, 1]);
    assert_eq!(run_first_task(&mut tm), Switch::To { current: 0, next: 1 });
    assert_eq!(suspend_current_and_run_next(&mut tm), Switch::To { current: 1, next: 3 });
    assert_eq!(suspend_current_and_run_next(&mut tm), Switch::To { current: 3, next: 1 });
    assert_eq!(exit_current_and_run_next(&mut tm), Switch::To { current: 1, next: 3 });
    assert_eq!(exit_current_and_run_next(&mut tm), Switch::To { current: 3, next: 0 });
    assert_eq!(suspend_current_and_run_next(&mut tm), Switch::To { current: 0, next: 2 });
    check_ready_queue(&tm);
}

#[test]
fn marks_change_the_current_task_only() {
    let (mut tm, _m) = kernel(&[0, 0]);
    run_first_task(&mut tm);
    tm.mark_current_suspended();
    assert_eq!(tm.tasks[0].task_status, TaskStatus::Ready);
    assert_eq!(tm.tasks[1].task_status, TaskStatus::Ready);
    assert_eq!(tm.ready_queue.len(), 2);
    assert_eq!(tm.ready_queue.get(1).task, 0);
    assert_eq!(tm.run_next_task(), Switch::To { current: 0, next: 1 });
    tm.mark_current_exited();
    assert_eq!(tm.tasks[1].task_status, TaskStatus::Exited);
    assert_eq!(tm.run_next_task(), Switch::To { current: 1, next: 0 });
    tm.mark_current_blocked();
    assert_eq!(tm.tasks[0].task_status, TaskStatus::Blocked);
    assert_eq!(tm.find_next_task(), None);
}

#[test]
fn services_of_the_current_task() {
    let (mut tm, mut m) = kernel(&[0, 0]);
    run_first_task(&mut tm);
    suspend_current_and_run_next(&mut tm);
    assert_eq!(tm.current_task, 1);
    assert_eq!(current_user_token(&tm), tm.tasks[1].page_table.token());
    assert_eq!(current_user_token(&tm), tm.tasks[1].get_user_token());
    assert_eq!(current_trap_cx(&tm), PhysPageNum(0x101));
    tm.tasks[1].start_time = 5_000;
    assert_eq!(get_current_start_time(&tm), 5_000);
    assert_eq!(get_current_running_time_ms(&tm, 12_999), 7);
    assert_eq!(update_syscall_times(&mut tm, 3), 0);
    assert_eq!(update_syscall_times(&mut tm, 3), 0);
    let times = get_current_syscall_times(&tm);
    assert_eq!(times.len(), 500);
    assert_eq!(times[3], 2);
    assert_eq!(times[4], 0);
    assert_eq!(tm.tasks[0].syscall_times[3], 0);
    assert_eq!(change_program_brk(&mut tm, 16), Some(0x20_0000));
    assert_eq!(change_program_brk(&mut tm, -17), None);
    assert_eq!(tm.tasks[1].program_brk, 0x20_0010);
    assert_eq!(tm.tasks[0].program_brk, 0x20_0000);
    assert_eq!(map_current_with_len(&mut tm, &mut m, 0x1000_0000, 4096, 1), 0);
    let e = tm.tasks[1].page_table.translate(&m, kernel_core::mm::address::VirtPageNum(0x10000)).unwrap();
    assert!(e.is_valid());
    assert_eq!(get_current_phys_addr(&tm, &m, 0x1000_0123), e.ppn().0 * 4096 + 0x123);
    // The address space of the other task is another one.
    assert_eq!(tm.tasks[0].page_table.translate(&m, kernel_core::mm::address::VirtPageNum(0x10000)), None);
    assert_eq!(unmap_current_with_len(&mut tm, &mut m, 0x1000_0000, 4096), 0);
    assert_eq!(unmap_current_with_len(&mut tm, &mut m, 0x1000_0000, 4096), -1);
}
