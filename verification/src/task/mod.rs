//! Tasks, the disciplines that choose which of them runs next, and the
//! task manager that moves them through their lives.
//!
//! The task manager never switches contexts itself. An operation that
//! gives the processor to another task changes the states of the tasks and
//! returns a [`Switch`] that names the two tasks; the caller saves the
//! registers of the one and restores those of the other.

pub mod dynamic_mlfq;
pub mod manager;
pub mod process;
pub mod stride;
pub mod stride_manager;
pub mod task;

pub use task::TaskContext;
pub use task::TaskControlBlock;
pub use task::TaskStatus;

use crate::config::MAX_SYSCALL_NUM;
use crate::mm::address::PhysPageNum;
use crate::mm::frame_allocator::PhysMemory;
use crate::mm::page_table::is_mapped;
use crate::mm::page_table::kept_to_itself;
use crate::mm::page_table::owns;
use crate::mm::page_table::frame_of;
use crate::mm::page_table::map_with_len;
use crate::mm::page_table::mapped_pages;
use crate::mm::page_table::pages_of;
use crate::mm::page_table::port_flags;
use crate::mm::page_table::translate_phys_addr_token;
use crate::mm::page_table::unmap_with_len;
use crate::mm::page_table::unmapped_range;
use manager::count_task;
use manager::is_next;
use manager::lemma_count_task_push;
use manager::lemma_count_task_remove;
use manager::next_index;
use manager::ReadyTask;
use vstd::prelude::*;

verus! {

/// What the caller has to do after the task manager has chosen.
#[derive(Debug, Clone, Copy, PartialEq, Eq, Structural)]
pub enum Switch {
    /// Save the registers of task `current` and restore those of task
    /// `next`, which has the processor from now on.
    To { current: usize, next: usize },
    /// No task is ready: all applications have completed.
    Halt,
}

/// The task manager: all tasks, the one that has the processor, and the
/// queue of those that wait for it.
pub struct TaskManager {
    /// The number of tasks.
    pub num_app: usize,
    /// The tasks, each at the place of its id.
    pub tasks: Vec<TaskControlBlock>,
    /// The task that has the processor, or had it last.
    pub current_task: usize,
    /// The tasks that wait for the processor.
    pub ready_queue: manager::TaskManager,
}

/// The block `tcb` with the status `status`.
pub open spec fn with_status(tcb: TaskControlBlock, status: TaskStatus) -> TaskControlBlock {
    TaskControlBlock { task_status: status, ..tcb }
}

impl TaskManager {
    /// The state is consistent: every ready task waits in the ready queue
    /// exactly once and no other task waits there, and only the current
    /// task can be running.
    pub open spec fn inv(&self) -> bool {
        &&& self.num_app == self.tasks@.len()
        &&& self.current_task < self.tasks@.len()
        &&& forall|k: int|
            0 <= k < self.ready_queue@.len() ==> (#[trigger] self.ready_queue@[k]).task
                < self.tasks@.len()
        &&& forall|tid: usize|
            tid < self.tasks@.len() ==> #[trigger] count_task(self.ready_queue@, tid)
                == if self.tasks@[tid as int].task_status == TaskStatus::Ready {
                1int
            } else {
                0int
            }
        &&& forall|tid: int|
            0 <= tid < self.tasks@.len() && (#[trigger] self.tasks@[tid]).task_status
                == TaskStatus::Running ==> tid == self.current_task
        &&& forall|tid: int| 0 <= tid < self.tasks@.len() ==> (#[trigger] self.tasks@[tid]).wf()
    }

    /// The current task has left the processor with the status `status`,
    /// joining the ready queue if it is ready, and the task manager has
    /// chosen the task that runs next.
    pub open spec fn left_processor(&self, before: &TaskManager, status: TaskStatus, switch: Switch) -> bool {
        let cur = before.current_task;
        let waiting = if status == TaskStatus::Ready {
            before.ready_queue@.push(
                ReadyTask { priority: before.tasks@[cur as int].priority, task: cur },
            )
        } else {
            before.ready_queue@
        };
        &&& self.num_app == before.num_app
        &&& self.tasks@.len() == before.tasks@.len()
        &&& if waiting.len() == 0 {
            &&& switch == Switch::Halt
            &&& self.ready_queue@ == waiting
            &&& self.current_task == cur
            &&& self.tasks@ == before.tasks@.update(
                cur as int,
                with_status(before.tasks@[cur as int], status),
            )
        } else {
            let next = waiting[next_index(waiting)].task;
            &&& is_next(waiting, next_index(waiting))
            &&& switch == (Switch::To { current: cur, next })
            &&& self.ready_queue@ == waiting.remove(next_index(waiting))
            &&& self.current_task == next
            &&& self.tasks@ == before.tasks@.update(
                cur as int,
                with_status(before.tasks@[cur as int], status),
            ).update(next as int, with_status(before.tasks@[next as int], TaskStatus::Running))
        }
    }

    /// A task manager for the tasks `tasks`, all of which are ready. They
    /// wait in the ready queue in the order of their ids.
    pub fn new(tasks: Vec<TaskControlBlock>) -> (tm: Self)
        requires
            tasks@.len() > 0,
            forall|tid: int|
                0 <= tid < tasks@.len() ==> (#[trigger] tasks@[tid]).wf() && tasks@[tid].task_status
                    == TaskStatus::Ready,
        ensures
            tm.inv(),
            tm.tasks@ == tasks@,
            tm.current_task == 0,
            tm.ready_queue@.len() == tasks@.len(),
            forall|k: int|
                0 <= k < tasks@.len() ==> #[trigger] tm.ready_queue@[k] == (ReadyTask {
                    priority: tasks@[k].priority,
                    task: k as usize,
                }),
    {
        let mut ready_queue = manager::TaskManager::new();
        let mut tid: usize = 0;
        while tid < tasks.len()
            invariant
                tid <= tasks.len(),
                ready_queue@.len() == tid,
                forall|k: int|
                    0 <= k < tid ==> #[trigger] ready_queue@[k] == (ReadyTask {
                        priority: tasks@[k].priority,
                        task: k as usize,
                    }),
                forall|t: usize|
                    #[trigger] count_task(ready_queue@, t) == if t < tid {
                        1int
                    } else {
                        0int
                    },
            decreases tasks.len() - tid,
        {
            proof {
                let entry = ReadyTask { priority: tasks@[tid as int].priority, task: tid };
                assert forall|t: usize|
                    #[trigger] count_task(ready_queue@.push(entry), t) == if t < tid + 1 {
                        1int
                    } else {
                        0int
                    } by {
                    lemma_count_task_push(ready_queue@, entry, t);
                }
            }
            ready_queue.add(tid, tasks[tid].priority);
            tid += 1;
        }
        TaskManager { num_app: tasks.len(), tasks, current_task: 0, ready_queue }
    }

    /// Gives the processor to the task that runs next: of the waiting
    /// tasks with the highest priority the one that has waited longest.
    /// The current task must have left the processor.
    pub fn run_next_task(&mut self) -> (switch: Switch)
        requires
            old(self).inv(),
            old(self).tasks@[old(self).current_task as int].task_status != TaskStatus::Running,
        ensures
            final(self).inv(),
            final(self).picked_next(old(self), switch),
    {
        let ghost before = *self;
        match self.ready_queue.fetch() {
            None => Switch::Halt,
            Some(next) => {
                let current = self.current_task;
                proof {
                    let k = next_index(before.ready_queue@);
                    assert(before.ready_queue@[k].task == next);
                    assert(next < self.tasks@.len());
                    lemma_count_task_remove(before.ready_queue@, k, next);
                    lemma_count_task_push(before.ready_queue@.remove(k), before.ready_queue@[k], next);
                    assert(count_task(before.ready_queue@, next) > 0) by {
                        lemma_count_task_member(before.ready_queue@, k);
                    }
                    assert(before.tasks@[next as int].task_status == TaskStatus::Ready);
                    assert forall|tid: usize|
                        tid < self.tasks@.len() implies #[trigger] count_task(self.ready_queue@, tid)
                        == if tid == next {
                        0int
                    } else if before.tasks@[tid as int].task_status == TaskStatus::Ready {
                        1int
                    } else {
                        0int
                    } by {
                        lemma_count_task_remove(before.ready_queue@, k, tid);
                        assert(count_task(before.ready_queue@, tid)
                            == if before.tasks@[tid as int].task_status == TaskStatus::Ready {
                            1int
                        } else {
                            0int
                        });
                    }
                    assert forall|j: int| 0 <= j < self.ready_queue@.len() implies (
                    #[trigger] self.ready_queue@[j]).task < self.tasks@.len() by {
                        if j < k {
                            assert(self.ready_queue@[j] == before.ready_queue@[j]);
                        } else {
                            assert(self.ready_queue@[j] == before.ready_queue@[j + 1]);
                        }
                    }
                }
                self.tasks[next].task_status = TaskStatus::Running;
                self.current_task = next;
                proof {
                    assert(self.tasks@ =~= before.tasks@.update(
                        next as int,
                        with_status(before.tasks@[next as int], TaskStatus::Running),
                    ));
                }
                Switch::To { current, next }
            },
        }
    }

    /// Starts the first task: the task that runs next gets the processor.
    /// The caller switches to it from a context of zeros.
    pub fn run_first_task(&mut self) -> (switch: Switch)
        requires
            old(self).inv(),
            old(self).tasks@[old(self).current_task as int].task_status != TaskStatus::Running,
        ensures
            final(self).inv(),
            final(self).picked_next(old(self), switch),
    {
        self.run_next_task()
    }

    /// The current task, which is running, becomes ready and joins the
    /// ready queue behind the tasks that wait there.
    pub fn mark_current_suspended(&mut self)
        requires
            old(self).inv(),
            old(self).tasks@[old(self).current_task as int].task_status == TaskStatus::Running,
        ensures
            final(self).inv(),
            final(self).num_app == old(self).num_app,
            final(self).current_task == old(self).current_task,
            final(self).tasks@ == old(self).tasks@.update(
                old(self).current_task as int,
                with_status(old(self).tasks@[old(self).current_task as int], TaskStatus::Ready),
            ),
            final(self).ready_queue@ == old(self).ready_queue@.push(
                ReadyTask {
                    priority: old(self).tasks@[old(self).current_task as int].priority,
                    task: old(self).current_task,
                },
            ),
    {
        let ghost before = *self;
        let cur = self.current_task;
        self.tasks[cur].task_status = TaskStatus::Ready;
        let priority = self.tasks[cur].priority;
        self.ready_queue.add(cur, priority);
        proof {
            let entry = ReadyTask { priority, task: cur };
            assert(self.tasks@ =~= before.tasks@.update(
                cur as int,
                with_status(before.tasks@[cur as int], TaskStatus::Ready),
            ));
            assert forall|tid: usize|
                tid < self.tasks@.len() implies #[trigger] count_task(self.ready_queue@, tid)
                == if self.tasks@[tid as int].task_status == TaskStatus::Ready {
                1int
            } else {
                0int
            } by {
                lemma_count_task_push(before.ready_queue@, entry, tid);
                assert(count_task(before.ready_queue@, tid)
                    == if before.tasks@[tid as int].task_status == TaskStatus::Ready {
                    1int
                } else {
                    0int
                });
            }
            assert forall|j: int| 0 <= j < self.ready_queue@.len() implies (
            #[trigger] self.ready_queue@[j]).task < self.tasks@.len() by {
                if j < before.ready_queue@.len() {
                    assert(self.ready_queue@[j] == before.ready_queue@[j]);
                }
            }
        }
    }

    /// The current task, which is running, has ended.
    pub fn mark_current_exited(&mut self)
        requires
            old(self).inv(),
            old(self).tasks@[old(self).current_task as int].task_status == TaskStatus::Running,
        ensures
            final(self).inv(),
            final(self).num_app == old(self).num_app,
            final(self).current_task == old(self).current_task,
            final(self).ready_queue@ == old(self).ready_queue@,
            final(self).tasks@ == old(self).tasks@.update(
                old(self).current_task as int,
                with_status(old(self).tasks@[old(self).current_task as int], TaskStatus::Exited),
            ),
    {
        let ghost before = *self;
        let cur = self.current_task;
        self.tasks[cur].task_status = TaskStatus::Exited;
        proof {
            assert(self.tasks@ =~= before.tasks@.update(
                cur as int,
                with_status(before.tasks@[cur as int], TaskStatus::Exited),
            ));
            assert forall|tid: usize|
                tid < self.tasks@.len() implies #[trigger] count_task(self.ready_queue@, tid)
                == if self.tasks@[tid as int].task_status == TaskStatus::Ready {
                1int
            } else {
                0int
            } by {
                assert(count_task(before.ready_queue@, tid)
                    == if before.tasks@[tid as int].task_status == TaskStatus::Ready {
                    1int
                } else {
                    0int
                });
            }
        }
    }

    /// The current task, which is running, waits for a timer or a
    /// primitive. It does not join the ready queue.
    pub fn mark_current_blocked(&mut self)
        requires
            old(self).inv(),
            old(self).tasks@[old(self).current_task as int].task_status == TaskStatus::Running,
        ensures
            final(self).inv(),
            final(self).num_app == old(self).num_app,
            final(self).current_task == old(self).current_task,
            final(self).ready_queue@ == old(self).ready_queue@,
            final(self).tasks@ == old(self).tasks@.update(
                old(self).current_task as int,
                with_status(old(self).tasks@[old(self).current_task as int], TaskStatus::Blocked),
            ),
    {
        let ghost before = *self;
        let cur = self.current_task;
        self.tasks[cur].task_status = TaskStatus::Blocked;
        proof {
            assert(self.tasks@ =~= before.tasks@.update(
                cur as int,
                with_status(before.tasks@[cur as int], TaskStatus::Blocked),
            ));
            assert forall|tid: usize|
                tid < self.tasks@.len() implies #[trigger] count_task(self.ready_queue@, tid)
                == if self.tasks@[tid as int].task_status == TaskStatus::Ready {
                1int
            } else {
                0int
            } by {
                assert(count_task(before.ready_queue@, tid)
                    == if before.tasks@[tid as int].task_status == TaskStatus::Ready {
                    1int
                } else {
                    0int
                });
            }
        }
    }

    /// Task `tid`, which is blocked, has been woken: it becomes ready and
    /// joins the ready queue behind the tasks that wait there.
    pub fn wakeup_task(&mut self, tid: usize)
        requires
            old(self).inv(),
            tid < old(self).tasks@.len(),
            old(self).tasks@[tid as int].task_status == TaskStatus::Blocked,
        ensures
            final(self).inv(),
            final(self).num_app == old(self).num_app,
            final(self).current_task == old(self).current_task,
            final(self).tasks@ == old(self).tasks@.update(
                tid as int,
                with_status(old(self).tasks@[tid as int], TaskStatus::Ready),
            ),
            final(self).ready_queue@ == old(self).ready_queue@.push(
                ReadyTask { priority: old(self).tasks@[tid as int].priority, task: tid },
            ),
    {
        let ghost before = *self;
        self.tasks[tid].task_status = TaskStatus::Ready;
        let priority = self.tasks[tid].priority;
        self.ready_queue.add(tid, priority);
        proof {
            let entry = ReadyTask { priority, task: tid };
            assert(self.tasks@ =~= before.tasks@.update(
                tid as int,
                with_status(before.tasks@[tid as int], TaskStatus::Ready),
            ));
            assert forall|t: usize|
                t < self.tasks@.len() implies #[trigger] count_task(self.ready_queue@, t)
                == if self.tasks@[t as int].task_status == TaskStatus::Ready {
                1int
            } else {
                0int
            } by {
                lemma_count_task_push(before.ready_queue@, entry, t);
                assert(count_task(before.ready_queue@, t)
                    == if before.tasks@[t as int].task_status == TaskStatus::Ready {
                    1int
                } else {
                    0int
                });
            }
            assert forall|j: int| 0 <= j < self.ready_queue@.len() implies (
            #[trigger] self.ready_queue@[j]).task < self.tasks@.len() by {
                if j < before.ready_queue@.len() {
                    assert(self.ready_queue@[j] == before.ready_queue@[j]);
                }
            }
        }
    }

    /// The task that runs next, if a task is ready. Nothing changes.
    pub fn find_next_task(&self) -> (r: Option<usize>)
        requires
            self.inv(),
        ensures
            self.ready_queue@.len() == 0 ==> r is None,
            self.ready_queue@.len() > 0 ==> is_next(self.ready_queue@, next_index(self.ready_queue@))
                && r == Some(self.ready_queue@[next_index(self.ready_queue@)].task),
            r matches Some(next) ==> next < self.tasks@.len() && self.tasks@[next as int].task_status
                == TaskStatus::Ready,
    {
        match self.ready_queue.peek() {
            None => None,
            Some(k) => {
                let next = self.ready_queue.get(k).task;
                proof {
                    lemma_count_task_member(self.ready_queue@, k as int);
                    assert(self.ready_queue@[k as int].task < self.tasks@.len());
                    assert(count_task(self.ready_queue@, next) > 0);
                }
                Some(next)
            },
        }
    }

    /// The token of the address space of the current task.
    pub fn get_current_token(&self) -> (r: u64)
        requires
            self.inv(),
        ensures
            r == self.tasks@[self.current_task as int].page_table.spec_token(),
    {
        self.tasks[self.current_task].get_user_token()
    }

    /// The frame that holds the trap context of the current task.
    pub fn get_current_trap_cx(&self) -> (r: PhysPageNum)
        requires
            self.inv(),
        ensures
            r == self.tasks@[self.current_task as int].trap_cx_ppn,
    {
        self.tasks[self.current_task].trap_cx_ppn
    }

    /// Moves the program break of the current task by `size` bytes and
    /// returns the break as it was, or nothing if the new break is
    /// refused.
    pub fn change_current_program_brk(&mut self, size: i32) -> (r: Option<u64>)
        requires
            old(self).inv(),
        ensures
            final(self).inv(),
            final(self).num_app == old(self).num_app,
            final(self).current_task == old(self).current_task,
            final(self).ready_queue@ == old(self).ready_queue@,
            final(self).tasks@.len() == old(self).tasks@.len(),
            forall|tid: int|
                0 <= tid < old(self).tasks@.len() && tid != old(self).current_task ==> final(self).tasks@[tid] == old(self).tasks@[tid],
            ({
                let before = old(self).tasks@[old(self).current_task as int];
                let after = final(self).tasks@[old(self).current_task as int];
                &&& after.heap_bottom == before.heap_bottom
                &&& after.task_status == before.task_status
                &&& after.page_table == before.page_table
                &&& before.heap_bottom <= before.program_brk + size <= u64::MAX ==> r == Some(
                    before.program_brk,
                ) && after.program_brk == before.program_brk + size
                &&& !(before.heap_bottom <= before.program_brk + size <= u64::MAX) ==> r is None
                    && after.program_brk == before.program_brk
            }),
    {
        let ghost before = *self;
        let cur = self.current_task;
        let r = self.tasks[cur].change_program_brk(size);
        proof {
            assert forall|tid: usize|
                tid < self.tasks@.len() implies #[trigger] count_task(self.ready_queue@, tid)
                == if self.tasks@[tid as int].task_status == TaskStatus::Ready {
                1int
            } else {
                0int
            } by {
                assert(count_task(before.ready_queue@, tid)
                    == if before.tasks@[tid as int].task_status == TaskStatus::Ready {
                    1int
                } else {
                    0int
                });
            }
        }
        r
    }

    /// Counts one more call of system call `syscall_id` by the current
    /// task.
    pub fn update_syscall_times(&mut self, syscall_id: usize) -> (r: isize)
        requires
            old(self).inv(),
            syscall_id < MAX_SYSCALL_NUM,
            old(self).tasks@[old(self).current_task as int].syscall_times@[syscall_id as int]
                < u32::MAX,
        ensures
            final(self).inv(),
            r == 0,
            final(self).num_app == old(self).num_app,
            final(self).current_task == old(self).current_task,
            final(self).ready_queue@ == old(self).ready_queue@,
            final(self).tasks@.len() == old(self).tasks@.len(),
            forall|tid: int|
                0 <= tid < old(self).tasks@.len() && tid != old(self).current_task ==> final(self).tasks@[tid] == old(self).tasks@[tid],
            ({
                let before = old(self).tasks@[old(self).current_task as int];
                let after = final(self).tasks@[old(self).current_task as int];
                &&& after.syscall_times@ == before.syscall_times@.update(
                    syscall_id as int,
                    (before.syscall_times@[syscall_id as int] + 1) as u32,
                )
                &&& after.task_status == before.task_status
                &&& after.page_table == before.page_table
                &&& after.program_brk == before.program_brk
                &&& after.heap_bottom == before.heap_bottom
                &&& after.start_time == before.start_time
            }),
    {
        let ghost before = *self;
        let cur = self.current_task;
        self.tasks[cur].syscall_times[syscall_id] += 1;
        proof {
            assert forall|tid: usize|
                tid < self.tasks@.len() implies #[trigger] count_task(self.ready_queue@, tid)
                == if self.tasks@[tid as int].task_status == TaskStatus::Ready {
                1int
            } else {
                0int
            } by {
                assert(count_task(before.ready_queue@, tid)
                    == if before.tasks@[tid as int].task_status == TaskStatus::Ready {
                    1int
                } else {
                    0int
                });
            }
        }
        0
    }

    /// The status of the current task.
    pub fn get_current_status(&self) -> (r: TaskStatus)
        requires
            self.inv(),
        ensures
            r == self.tasks@[self.current_task as int].task_status,
    {
        self.tasks[self.current_task].task_status
    }

    /// How often the current task has made each system call.
    pub fn get_current_syscall_times(&self) -> (r: Vec<u32>)
        requires
            self.inv(),
        ensures
            r@ == self.tasks@[self.current_task as int].syscall_times@,
    {
        self.tasks[self.current_task].syscall_times.clone()
    }

    /// The time at which the current task first ran.
    pub fn get_current_start_time(&self) -> (r: usize)
        requires
            self.inv(),
        ensures
            r == self.tasks@[self.current_task as int].start_time,
    {
        self.tasks[self.current_task].start_time
    }

    /// Maps the pages of the `len` bytes from the address `start` in the
    /// address space of the current task, as `map_with_len` does.
    pub fn map_current_with_len(&mut self, m: &mut PhysMemory, start: u64, len: u64, port: usize) -> (r:
        isize)
        requires
            old(self).inv(),
            old(self).tasks@[old(self).current_task as int].page_table.inv(old(m)),
            start % 4096 == 0,
            start + len <= 0x80_0000_0000,
        ensures
            final(self).inv(),
            final(self).same_but_page_table(old(self)),
            old(self).address_spaces_inv(old(m)) ==> final(self).address_spaces_inv(final(m)),
            final(self).tasks@[old(self).current_task as int].page_table.inv(final(m)),
            final(self).tasks@[old(self).current_task as int].page_table.root() == old(self).tasks@[old(self).current_task as int].page_table.root(),
            final(m).base_ppn() == old(m).base_ppn(),
            final(m).end_ppn() == old(m).end_ppn(),
            r == 0 || r == -1,
            mapped_pages(
                &final(self).tasks@[old(self).current_task as int].page_table,
                &old(self).tasks@[old(self).current_task as int].page_table,
                old(m),
                final(m),
                start / 4096,
                pages_of(len),
                port_flags(port),
                r,
            ),
    {
        let ghost before = *self;
        let cur = self.current_task;
        let ghost m0 = *m;
        let r = map_with_len(&mut self.tasks[cur].page_table, m, start, len, port);
        proof {
            if before.address_spaces_inv(&m0) {
                lemma_address_spaces_kept(&before, self, &m0, m);
            }
            assert forall|tid: usize|
                tid < self.tasks@.len() implies #[trigger] count_task(self.ready_queue@, tid)
                == if self.tasks@[tid as int].task_status == TaskStatus::Ready {
                1int
            } else {
                0int
            } by {
                assert(count_task(before.ready_queue@, tid)
                    == if before.tasks@[tid as int].task_status == TaskStatus::Ready {
                    1int
                } else {
                    0int
                });
            }
        }
        r
    }

    /// Unmaps the pages of the `len` bytes from the address `start` in the
    /// address space of the current task, as `unmap_with_len` does.
    pub fn unmap_current_with_len(&mut self, m: &mut PhysMemory, start: u64, len: u64) -> (r: isize)
        requires
            old(self).inv(),
            old(self).tasks@[old(self).current_task as int].page_table.inv(old(m)),
            start % 4096 == 0,
            start + len <= 0x80_0000_0000,
        ensures
            final(self).inv(),
            final(self).same_but_page_table(old(self)),
            old(self).address_spaces_inv(old(m)) ==> final(self).address_spaces_inv(final(m)),
            final(self).tasks@[old(self).current_task as int].page_table.inv(final(m)),
            final(self).tasks@[old(self).current_task as int].page_table.root() == old(self).tasks@[old(self).current_task as int].page_table.root(),
            final(m).same_allocation(old(m)),
            r == if forall|v: u64|
                start / 4096 <= v < start / 4096 + pages_of(len) ==> #[trigger] is_mapped(
                    old(m),
                    old(self).tasks@[old(self).current_task as int].page_table.root(),
                    v,
                ) {
                0isize
            } else {
                -1isize
            },
            r == 0 ==> unmapped_range(
                old(self).tasks@[old(self).current_task as int].page_table.root(),
                old(m),
                final(m),
                start / 4096,
                pages_of(len),
            ),
            r == -1 ==> exists|k: int|
                0 <= k < pages_of(len) && #[trigger] unmapped_range(
                    old(self).tasks@[old(self).current_task as int].page_table.root(),
                    old(m),
                    final(m),
                    start / 4096,
                    k,
                ) && !is_mapped(
                    old(m),
                    old(self).tasks@[old(self).current_task as int].page_table.root(),
                    (start / 4096 + k) as u64,
                ),
    {
        let ghost before = *self;
        let cur = self.current_task;
        let ghost m0 = *m;
        let r = unmap_with_len(&mut self.tasks[cur].page_table, m, start, len);
        proof {
            if before.address_spaces_inv(&m0) {
                lemma_address_spaces_kept(&before, self, &m0, m);
            }
            assert forall|tid: usize|
                tid < self.tasks@.len() implies #[trigger] count_task(self.ready_queue@, tid)
                == if self.tasks@[tid as int].task_status == TaskStatus::Ready {
                1int
            } else {
                0int
            } by {
                assert(count_task(before.ready_queue@, tid)
                    == if before.tasks@[tid as int].task_status == TaskStatus::Ready {
                    1int
                } else {
                    0int
                });
            }
        }
        r
    }

    /// The address spaces of the tasks are consistent with the memory `m`:
    /// every page table is, and no frame belongs to two of them.
    pub open spec fn address_spaces_inv(&self, m: &PhysMemory) -> bool {
        &&& forall|tid: int|
            0 <= tid < self.tasks@.len() ==> (#[trigger] self.tasks@[tid]).page_table.inv(m)
        &&& forall|a: int, b: int, p: int|
            #![trigger owns(&self.tasks@[a].page_table, p), owns(&self.tasks@[b].page_table, p)]
            0 <= a < self.tasks@.len() && 0 <= b < self.tasks@.len() && a != b ==> !(owns(
                &self.tasks@[a].page_table,
                p,
            ) && owns(&self.tasks@[b].page_table, p))
    }

    /// Nothing differs from `before` but the page table of the current
    /// task.
    pub open spec fn same_but_page_table(&self, before: &TaskManager) -> bool {
        &&& self.num_app == before.num_app
        &&& self.current_task == before.current_task
        &&& self.ready_queue@ == before.ready_queue@
        &&& self.tasks@.len() == before.tasks@.len()
        &&& forall|tid: int|
            0 <= tid < before.tasks@.len() && tid != before.current_task ==> self.tasks@[tid]
                == before.tasks@[tid]
        &&& self.tasks@[before.current_task as int] == (TaskControlBlock {
            page_table: self.tasks@[before.current_task as int].page_table,
            ..before.tasks@[before.current_task as int]
        })
    }

    /// The task manager has chosen the task that runs next from the ready
    /// queue as it was, and has changed nothing else.
    pub open spec fn picked_next(&self, before: &TaskManager, switch: Switch) -> bool {
        let waiting = before.ready_queue@;
        &&& self.num_app == before.num_app
        &&& self.tasks@.len() == before.tasks@.len()
        &&& if waiting.len() == 0 {
            &&& switch == Switch::Halt
            &&& self.ready_queue@ == waiting
            &&& self.current_task == before.current_task
            &&& self.tasks@ == before.tasks@
        } else {
            let next = waiting[next_index(waiting)].task;
            &&& is_next(waiting, next_index(waiting))
            &&& switch == (Switch::To { current: before.current_task, next })
            &&& self.ready_queue@ == waiting.remove(next_index(waiting))
            &&& self.current_task == next
            &&& self.tasks@ == before.tasks@.update(
                next as int,
                with_status(before.tasks@[next as int], TaskStatus::Running),
            )
        }
    }
}

/// In a consistent task manager every ready task waits in the ready queue
/// exactly once, and a task that is not ready does not wait there.
pub proof fn lemma_ready_tasks_wait_exactly_once(tm: &TaskManager, tid: usize)
    requires
        tm.inv(),
        tid < tm.tasks@.len(),
    ensures
        tm.tasks@[tid as int].task_status == TaskStatus::Ready <==> count_task(tm.ready_queue@, tid)
            == 1,
        tm.tasks@[tid as int].task_status != TaskStatus::Ready <==> count_task(tm.ready_queue@, tid)
            == 0,
        forall|k: int|
            0 <= k < tm.ready_queue@.len() ==> tm.tasks@[(#[trigger] tm.ready_queue@[k]).task as int].task_status
                == TaskStatus::Ready,
{
    assert(count_task(tm.ready_queue@, tid) == if tm.tasks@[tid as int].task_status
        == TaskStatus::Ready {
        1int
    } else {
        0int
    });
    assert forall|k: int| 0 <= k < tm.ready_queue@.len() implies tm.tasks@[(
    #[trigger] tm.ready_queue@[k]).task as int].task_status == TaskStatus::Ready by {
        let t = tm.ready_queue@[k].task;
        lemma_count_task_member(tm.ready_queue@, k);
        assert(count_task(tm.ready_queue@, t) == if tm.tasks@[t as int].task_status
            == TaskStatus::Ready {
            1int
        } else {
            0int
        });
    }
}

/// An operation on the address space of the current task that has left
/// the rest of the memory alone keeps the address spaces of all tasks
/// consistent.
pub proof fn lemma_address_spaces_kept(
    before: &TaskManager,
    after: &TaskManager,
    m0: &PhysMemory,
    m: &PhysMemory,
)
    requires
        before.address_spaces_inv(m0),
        before.current_task < before.tasks@.len(),
        after.same_but_page_table(before),
        after.tasks@[before.current_task as int].page_table.inv(m),
        kept_to_itself(
            &after.tasks@[before.current_task as int].page_table,
            &before.tasks@[before.current_task as int].page_table,
            m0,
            m,
        ),
    ensures
        after.address_spaces_inv(m),
{
    let cur = before.current_task as int;
    let old_pt = before.tasks@[cur].page_table;
    let new_pt = after.tasks@[cur].page_table;
    new_pt.lemma_inv_walkable(m);
    assert forall|tid: int| 0 <= tid < after.tasks@.len() implies (
    #[trigger] after.tasks@[tid]).page_table.inv(m) by {
        if tid != cur {
            let pt = before.tasks@[tid].page_table;
            assert(after.tasks@[tid] == before.tasks@[tid]);
            assert(pt.inv(m0));
            assert forall|p: int|
                pt.owned_frames().contains(p) || pt.owned_data_frames().contains(
                    p,
                ) implies #[trigger] m.is_allocated(p) by {
                pt.lemma_owned_data_frames_are_allocated(m0, p);
            }
            assert forall|p: int, i: int|
                #![trigger m.word(p, i)]
                pt.owned_frames().contains(p) && 0 <= i < 512 implies m.word(p, i) == m0.word(
                p,
                i,
            ) by {
                pt.lemma_owned_data_frames_are_allocated(m0, p);
                assert(owns(&before.tasks@[tid].page_table, p));
                assert(!(owns(&before.tasks@[tid].page_table, p) && owns(
                    &before.tasks@[cur].page_table,
                    p,
                )));
            }
            pt.lemma_inv_depends_on_owned_frames(m0, m);
        }
    }
    assert forall|a: int, b: int, p: int|
        #![trigger owns(&after.tasks@[a].page_table, p), owns(&after.tasks@[b].page_table, p)]
        0 <= a < after.tasks@.len() && 0 <= b < after.tasks@.len() && a != b implies !(owns(
        &after.tasks@[a].page_table,
        p,
    ) && owns(&after.tasks@[b].page_table, p)) by {
        if owns(&after.tasks@[a].page_table, p) && owns(&after.tasks@[b].page_table, p) {
            if a != cur && b != cur {
                assert(after.tasks@[a] == before.tasks@[a]);
                assert(after.tasks@[b] == before.tasks@[b]);
                assert(!(owns(&before.tasks@[a].page_table, p) && owns(
                    &before.tasks@[b].page_table,
                    p,
                )));
            } else {
                let other = if a == cur {
                    b
                } else {
                    a
                };
                assert(after.tasks@[other] == before.tasks@[other]);
                let pt = before.tasks@[other].page_table;
                assert(pt.inv(m0));
                pt.lemma_owned_data_frames_are_allocated(m0, p);
                assert(m0.is_allocated(p));
                assert(owns(&new_pt, p));
                assert(owns(&old_pt, p));
                assert(!(owns(&before.tasks@[other].page_table, p) && owns(
                    &before.tasks@[cur].page_table,
                    p,
                )));
                assert(!(owns(&before.tasks@[cur].page_table, p) && owns(
                    &before.tasks@[other].page_table,
                    p,
                )));
            }
        }
    }
}

/// A task that stands at a place of the queue occurs in it.
pub proof fn lemma_count_task_member(ready: Seq<ReadyTask>, k: int)
    requires
        0 <= k < ready.len(),
    ensures
        count_task(ready, ready[k].task) > 0,
    decreases ready.len(),
{
    lemma_count_task_push(ready.drop_last(), ready.last(), ready[k].task);
    assert(ready.drop_last().push(ready.last()) =~= ready);
    if k < ready.len() - 1 {
        lemma_count_task_member(ready.drop_last(), k);
    }
}


/// Starts the first task.
pub fn run_first_task(tm: &mut TaskManager) -> (switch: Switch)
    requires
        old(tm).inv(),
        old(tm).tasks@[old(tm).current_task as int].task_status != TaskStatus::Running,
    ensures
        final(tm).inv(),
        final(tm).picked_next(old(tm), switch),
{
    tm.run_first_task()
}

/// The current task, which is running, gives the processor up: it becomes
/// ready and joins the ready queue, and the task that runs next gets the
/// processor. That may be the same task.
pub fn suspend_current_and_run_next(tm: &mut TaskManager) -> (switch: Switch)
    requires
        old(tm).inv(),
        old(tm).tasks@[old(tm).current_task as int].task_status == TaskStatus::Running,
    ensures
        final(tm).inv(),
        final(tm).left_processor(old(tm), TaskStatus::Ready, switch),
        switch != Switch::Halt,
{
    let ghost before = *tm;
    tm.mark_current_suspended();
    let ghost mid = *tm;
    let switch = tm.run_next_task();
    proof {
        let cur = before.current_task as int;
        let waiting = mid.ready_queue@;
        let next = waiting[next_index(waiting)].task as int;
        assert(tm.tasks@ =~= before.tasks@.update(
            cur,
            with_status(before.tasks@[cur], TaskStatus::Ready),
        ).update(next, with_status(before.tasks@[next], TaskStatus::Running)));
    }
    switch
}

/// The current task, which is running, ends, and the task that runs next
/// gets the processor. With no task ready the kernel has to halt.
pub fn exit_current_and_run_next(tm: &mut TaskManager) -> (switch: Switch)
    requires
        old(tm).inv(),
        old(tm).tasks@[old(tm).current_task as int].task_status == TaskStatus::Running,
    ensures
        final(tm).inv(),
        final(tm).left_processor(old(tm), TaskStatus::Exited, switch),
{
    let ghost before = *tm;
    tm.mark_current_exited();
    let ghost mid = *tm;
    let switch = tm.run_next_task();
    proof {
        let cur = before.current_task as int;
        let waiting = mid.ready_queue@;
        if waiting.len() > 0 {
            let next = waiting[next_index(waiting)].task as int;
            lemma_count_task_member(waiting, next_index(waiting));
            assert(next != cur);
            assert(tm.tasks@ =~= before.tasks@.update(
                cur,
                with_status(before.tasks@[cur], TaskStatus::Exited),
            ).update(next, with_status(before.tasks@[next], TaskStatus::Running)));
        }
    }
    switch
}

/// The current task, which is running, starts to wait for a timer or a
/// primitive, and the task that runs next gets the processor. The task
/// does not join the ready queue: `wakeup_task` puts it there.
pub fn block_current_and_run_next(tm: &mut TaskManager) -> (switch: Switch)
    requires
        old(tm).inv(),
        old(tm).tasks@[old(tm).current_task as int].task_status == TaskStatus::Running,
    ensures
        final(tm).inv(),
        final(tm).left_processor(old(tm), TaskStatus::Blocked, switch),
{
    let ghost before = *tm;
    tm.mark_current_blocked();
    let ghost mid = *tm;
    let switch = tm.run_next_task();
    proof {
        let cur = before.current_task as int;
        let waiting = mid.ready_queue@;
        if waiting.len() > 0 {
            let next = waiting[next_index(waiting)].task as int;
            lemma_count_task_member(waiting, next_index(waiting));
            assert(next != cur);
            assert(tm.tasks@ =~= before.tasks@.update(
                cur,
                with_status(before.tasks@[cur], TaskStatus::Blocked),
            ).update(next, with_status(before.tasks@[next], TaskStatus::Running)));
        }
    }
    switch
}

/// The token of the address space of the current task.
pub fn current_user_token(tm: &TaskManager) -> (r: u64)
    requires
        tm.inv(),
    ensures
        r == tm.tasks@[tm.current_task as int].page_table.spec_token(),
{
    tm.get_current_token()
}

/// The frame that holds the trap context of the current task.
pub fn current_trap_cx(tm: &TaskManager) -> (r: PhysPageNum)
    requires
        tm.inv(),
    ensures
        r == tm.tasks@[tm.current_task as int].trap_cx_ppn,
{
    tm.get_current_trap_cx()
}

/// The physical address that the virtual address `virt_addr` stands for
/// in the address space of the current task. Its page must be mapped.
pub fn get_current_phys_addr(tm: &TaskManager, m: &PhysMemory, virt_addr: u64) -> (r: u64)
    requires
        tm.inv(),
        tm.tasks@[tm.current_task as int].page_table.inv(m),
        is_mapped(
            m,
            tm.tasks@[tm.current_task as int].page_table.root(),
            (virt_addr % 0x80_0000_0000) / 4096,
        ),
    ensures
        r == frame_of(
            m,
            tm.tasks@[tm.current_task as int].page_table.root(),
            (virt_addr % 0x80_0000_0000) / 4096,
        ) * 4096 + virt_addr % 4096,
{
    proof {
        let pt = tm.tasks@[tm.current_task as int].page_table;
        pt.lemma_inv_walkable(m);
        crate::mm::page_table::lemma_token_round_trip(pt.root() as u64);
    }
    translate_phys_addr_token(m, current_user_token(tm), virt_addr)
}

/// The status of the current task.
pub fn get_current_status(tm: &TaskManager) -> (r: TaskStatus)
    requires
        tm.inv(),
    ensures
        r == tm.tasks@[tm.current_task as int].task_status,
{
    tm.get_current_status()
}

/// How often the current task has made each system call.
pub fn get_current_syscall_times(tm: &TaskManager) -> (r: Vec<u32>)
    requires
        tm.inv(),
    ensures
        r@ == tm.tasks@[tm.current_task as int].syscall_times@,
{
    tm.get_current_syscall_times()
}

/// The time at which the current task first ran.
pub fn get_current_start_time(tm: &TaskManager) -> (r: usize)
    requires
        tm.inv(),
    ensures
        r == tm.tasks@[tm.current_task as int].start_time,
{
    tm.get_current_start_time()
}

/// The time for which the current task has been running at the time
/// `now_us`, in milliseconds.
pub fn get_current_running_time_ms(tm: &TaskManager, now_us: usize) -> (r: usize)
    requires
        tm.inv(),
        tm.tasks@[tm.current_task as int].start_time <= now_us,
    ensures
        r == (now_us - tm.tasks@[tm.current_task as int].start_time) / 1000,
{
    (now_us - get_current_start_time(tm)) / 1000
}

/// Maps the pages of the `len` bytes from the address `start` in the
/// address space of the current task, as `map_with_len` does.
pub fn map_current_with_len(tm: &mut TaskManager, m: &mut PhysMemory, start: u64, len: u64, port: usize) -> (r:
    isize)
    requires
        old(tm).inv(),
        old(tm).tasks@[old(tm).current_task as int].page_table.inv(old(m)),
        start % 4096 == 0,
        start + len <= 0x80_0000_0000,
    ensures
        final(tm).inv(),
        final(tm).same_but_page_table(old(tm)),
        old(tm).address_spaces_inv(old(m)) ==> final(tm).address_spaces_inv(final(m)),
        final(tm).tasks@[old(tm).current_task as int].page_table.inv(final(m)),
        final(tm).tasks@[old(tm).current_task as int].page_table.root() == old(tm).tasks@[old(tm).current_task as int].page_table.root(),
        final(m).base_ppn() == old(m).base_ppn(),
        final(m).end_ppn() == old(m).end_ppn(),
        r == 0 || r == -1,
        mapped_pages(
            &final(tm).tasks@[old(tm).current_task as int].page_table,
            &old(tm).tasks@[old(tm).current_task as int].page_table,
            old(m),
            final(m),
            start / 4096,
            pages_of(len),
            port_flags(port),
            r,
        ),
{
    tm.map_current_with_len(m, start, len, port)
}

/// Unmaps the pages of the `len` bytes from the address `start` in the
/// address space of the current task, as `unmap_with_len` does.
pub fn unmap_current_with_len(tm: &mut TaskManager, m: &mut PhysMemory, start: u64, len: u64) -> (r: isize)
    requires
        old(tm).inv(),
        old(tm).tasks@[old(tm).current_task as int].page_table.inv(old(m)),
        start % 4096 == 0,
        start + len <= 0x80_0000_0000,
    ensures
        final(tm).inv(),
        final(tm).same_but_page_table(old(tm)),
        old(tm).address_spaces_inv(old(m)) ==> final(tm).address_spaces_inv(final(m)),
        final(tm).tasks@[old(tm).current_task as int].page_table.inv(final(m)),
        final(tm).tasks@[old(tm).current_task as int].page_table.root() == old(tm).tasks@[old(tm).current_task as int].page_table.root(),
        final(m).same_allocation(old(m)),
        r == if forall|v: u64|
            start / 4096 <= v < start / 4096 + pages_of(len) ==> #[trigger] is_mapped(
                old(m),
                old(tm).tasks@[old(tm).current_task as int].page_table.root(),
                v,
            ) {
            0isize
        } else {
            -1isize
        },
        r == 0 ==> unmapped_range(
            old(tm).tasks@[old(tm).current_task as int].page_table.root(),
            old(m),
            final(m),
            start / 4096,
            pages_of(len),
        ),
        r == -1 ==> exists|k: int|
            0 <= k < pages_of(len) && #[trigger] unmapped_range(
                old(tm).tasks@[old(tm).current_task as int].page_table.root(),
                old(m),
                final(m),
                start / 4096,
                k,
            ) && !is_mapped(
                old(m),
                old(tm).tasks@[old(tm).current_task as int].page_table.root(),
                (start / 4096 + k) as u64,
            ),
{
    tm.unmap_current_with_len(m, start, len)
}

/// Counts one more call of system call `syscall_id` by the current
/// task.
pub fn update_syscall_times(tm: &mut TaskManager, syscall_id: usize) -> (r: isize)
    requires
        old(tm).inv(),
        syscall_id < MAX_SYSCALL_NUM,
        old(tm).tasks@[old(tm).current_task as int].syscall_times@[syscall_id as int]
            < u32::MAX,
    ensures
        final(tm).inv(),
        r == 0,
        final(tm).num_app == old(tm).num_app,
        final(tm).current_task == old(tm).current_task,
        final(tm).ready_queue@ == old(tm).ready_queue@,
        final(tm).tasks@.len() == old(tm).tasks@.len(),
        forall|tid: int|
            0 <= tid < old(tm).tasks@.len() && tid != old(tm).current_task ==> final(tm).tasks@[tid] == old(tm).tasks@[tid],
        ({
            let before = old(tm).tasks@[old(tm).current_task as int];
            let after = final(tm).tasks@[old(tm).current_task as int];
            &&& after.syscall_times@ == before.syscall_times@.update(
                syscall_id as int,
                (before.syscall_times@[syscall_id as int] + 1) as u32,
            )
            &&& after.task_status == before.task_status
            &&& after.page_table == before.page_table
            &&& after.program_brk == before.program_brk
            &&& after.heap_bottom == before.heap_bottom
            &&& after.start_time == before.start_time
        }),
{
    tm.update_syscall_times(syscall_id)
}

/// Moves the program break of the current task by `size` bytes and
/// returns the break as it was, or nothing if the new break is
/// refused.
pub fn change_program_brk(tm: &mut TaskManager, size: i32) -> (r: Option<u64>)
    requires
        old(tm).inv(),
    ensures
        final(tm).inv(),
        final(tm).num_app == old(tm).num_app,
        final(tm).current_task == old(tm).current_task,
        final(tm).ready_queue@ == old(tm).ready_queue@,
        final(tm).tasks@.len() == old(tm).tasks@.len(),
        forall|tid: int|
            0 <= tid < old(tm).tasks@.len() && tid != old(tm).current_task ==> final(tm).tasks@[tid] == old(tm).tasks@[tid],
        ({
            let before = old(tm).tasks@[old(tm).current_task as int];
            let after = final(tm).tasks@[old(tm).current_task as int];
            &&& after.heap_bottom == before.heap_bottom
            &&& after.task_status == before.task_status
            &&& after.page_table == before.page_table
            &&& before.heap_bottom <= before.program_brk + size <= u64::MAX ==> r == Some(
                before.program_brk,
            ) && after.program_brk == before.program_brk + size
            &&& !(before.heap_bottom <= before.program_brk + size <= u64::MAX) ==> r is None
                && after.program_brk == before.program_brk
        }),
{
    tm.change_current_program_brk(size)
}

} // verus!
