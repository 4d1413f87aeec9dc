//! The task control block.

use crate::config::MAX_SYSCALL_NUM;
use crate::mm::address::PhysPageNum;
use crate::mm::page_table::PageTable;
use crate::task::stride::Stride;
use vstd::prelude::*;

verus! {

/// Where a task stands in its life.
#[derive(Copy, Clone, Debug, PartialEq, Eq, Structural)]
pub enum TaskStatus {
    /// Not set up yet.
    UnInit,
    /// Waits in the ready queue for the processor.
    Ready,
    /// Has the processor.
    Running,
    /// Waits for a timer or a synchronisation primitive.
    Blocked,
    /// Has ended.
    Exited,
}

/// The registers of a task that a context switch saves and restores.
#[derive(Copy, Clone, Debug)]
pub struct TaskContext {
    /// The address at which the task goes on.
    pub ra: u64,
    /// The stack pointer.
    pub sp: u64,
    /// The callee-saved registers.
    pub s: [u64; 12],
}

impl TaskContext {
    /// A context of zeros, to switch away from when the first task starts.
    pub fn zero_init() -> (cx: Self)
        ensures
            cx.ra == 0,
            cx.sp == 0,
            forall|i: int| 0 <= i < 12 ==> cx.s[i] == 0,
    {
        TaskContext { ra: 0, sp: 0, s: [0, 0, 0, 0, 0, 0, 0, 0, 0, 0, 0, 0] }
    }
}

/// The task control block: what the kernel keeps of one task.
pub struct TaskControlBlock {
    /// Where the task stands in its life.
    pub task_status: TaskStatus,
    /// How often the task has made each system call.
    pub syscall_times: Vec<u32>,
    /// The time at which the task first ran, in microseconds.
    pub start_time: usize,
    /// The saved registers of the task.
    pub task_cx: TaskContext,
    /// The time the task has run in user mode.
    pub user_time: usize,
    /// The time the task has run in the kernel.
    pub kernel_time: usize,
    /// The priority of the task in the ready queue.
    pub priority: usize,
    /// The stride of the task.
    pub stride: Stride,
    /// What the stride advances by when the task is selected.
    pub pass: usize,
    /// The page table of the address space of the task.
    pub page_table: PageTable,
    /// The frame that holds the trap context of the task.
    pub trap_cx_ppn: PhysPageNum,
    /// The lowest address of the heap.
    pub heap_bottom: u64,
    /// The program break: the first address above the heap.
    pub program_brk: u64,
}

impl TaskControlBlock {
    /// The block is consistent: it counts every system call, and the
    /// program break is not below the heap.
    pub open spec fn wf(&self) -> bool {
        &&& self.syscall_times@.len() == MAX_SYSCALL_NUM
        &&& self.heap_bottom <= self.program_brk
    }

    /// A ready task with the address space `page_table`, whose heap is
    /// empty and begins at `heap_bottom`.
    pub fn new(page_table: PageTable, trap_cx_ppn: PhysPageNum, heap_bottom: u64) -> (tcb: Self)
        ensures
            tcb.wf(),
            tcb.task_status == TaskStatus::Ready,
            tcb.page_table == page_table,
            tcb.trap_cx_ppn == trap_cx_ppn,
            tcb.heap_bottom == heap_bottom,
            tcb.program_brk == heap_bottom,
            tcb.start_time == 0,
            tcb.user_time == 0,
            tcb.kernel_time == 0,
            tcb.priority == 0,
            tcb.stride.0 == 0,
            tcb.pass == 0,
            forall|i: int| 0 <= i < MAX_SYSCALL_NUM ==> tcb.syscall_times@[i] == 0,
    {
        TaskControlBlock {
            task_status: TaskStatus::Ready,
            syscall_times: vec![0u32; MAX_SYSCALL_NUM],
            start_time: 0,
            task_cx: TaskContext::zero_init(),
            user_time: 0,
            kernel_time: 0,
            priority: 0,
            stride: Stride(0),
            pass: 0,
            page_table,
            trap_cx_ppn,
            heap_bottom,
            program_brk: heap_bottom,
        }
    }

    /// The token of the address space of the task.
    pub fn get_user_token(&self) -> (r: u64)
        ensures
            r == self.page_table.spec_token(),
    {
        self.page_table.token()
    }

    /// Moves the program break by `size` bytes, up or down, and returns
    /// the break as it was. A break below the bottom of the heap, or
    /// beyond the machine word, is refused and changes nothing.
    pub fn change_program_brk(&mut self, size: i32) -> (r: Option<u64>)
        requires
            old(self).wf(),
        ensures
            final(self).wf(),
            final(self).heap_bottom == old(self).heap_bottom,
            old(self).heap_bottom <= old(self).program_brk + size <= u64::MAX ==> r == Some(
                old(self).program_brk,
            ) && final(self).program_brk == old(self).program_brk + size,
            !(old(self).heap_bottom <= old(self).program_brk + size <= u64::MAX) ==> r is None
                && final(self).program_brk == old(self).program_brk,
            final(self).task_status == old(self).task_status,
            final(self).syscall_times == old(self).syscall_times,
            final(self).page_table == old(self).page_table,
    {
        let old_brk = self.program_brk;
        let new_brk: i128 = self.program_brk as i128 + size as i128;
        if new_brk < self.heap_bottom as i128 || new_brk > u64::MAX as i128 {
            return None;
        }
        self.program_brk = new_brk as u64;
        Some(old_brk)
    }
}

} // verus!
