//! System calls on mutexes, semaphores and condition variables.

use crate::sync::banker::lemma_unlock_preserves_wf;
use crate::sync::banker::BankerState;
use crate::sync::condvar::Condvar;
use crate::sync::mutex::Acquire;
use crate::sync::mutex::Mutex;
use crate::sync::semaphore::Semaphore;
use crate::task::process::find_free_slot;
use crate::task::process::first_free;
use crate::task::block_current_and_run_next;
use crate::task::process::Process;
use crate::task::suspend_current_and_run_next;
use crate::task::Switch;
use crate::task::TaskManager;
use crate::task::TaskStatus;
use vstd::prelude::*;

verus! {

/// The value returned by a call that was refused because granting it could
/// end in a deadlock.
pub const DEADLOCK: isize = -0xdead;

/// How a system call goes on after one step.
#[derive(Debug, Clone, Copy, PartialEq, Eq)]
pub enum SyscallStep {
    /// The call is over and returns `value` to the calling thread. `wake`
    /// is a thread that the call has woken: it is to be made ready.
    Return { value: isize, wake: Option<usize> },
    /// The calling thread sits on a wait queue and has to be blocked.
    /// `wake` is a thread that the call has woken.
    Block { wake: Option<usize> },
    /// The calling thread has to be blocked until `expire_ms`.
    Sleep { expire_ms: usize },
    /// The calling thread has to yield, and to try again when it runs next.
    Yield,
}

/// Thread `tid` goes to sleep for `ms` milliseconds, `now_ms` being the
/// time of the call.
pub fn sys_sleep(now_ms: usize, ms: usize) -> (step: SyscallStep)
    requires
        now_ms + ms <= usize::MAX,
    ensures
        step == (SyscallStep::Sleep { expire_ms: (now_ms + ms) as usize }),
{
    SyscallStep::Sleep { expire_ms: now_ms + ms }
}

/// The slot `id` of `list` holds a free mutex of the kind asked for.
pub open spec fn holds_fresh_mutex(list: Seq<Option<Mutex>>, id: int, blocking: bool) -> bool {
    list[id] matches Some(m) && m.is_blocking() == blocking && !m.is_locked() && m.waiters().len()
        == 0
}

/// Creates a mutex in the first free slot, or in a new slot if none is
/// free, and returns its id. The mutex is a resource of one unit.
pub fn sys_mutex_create(process: &mut Process, tid: usize, blocking: bool) -> (id: isize)
    requires
        old(process).wf(),
        old(process).mutex_list@.len() < isize::MAX,
        first_free(old(process).mutex_list@) < old(process).mutex_list@.len() ==> {
            &&& tid < old(process).mutex_banker@.thread_num()
            &&& 1 + old(process).mutex_banker@.held(first_free(old(process).mutex_list@)) <= usize::MAX
        },
    ensures
        final(process).wf(),
        id == first_free(old(process).mutex_list@),
        final(process).mutex_list@.len() == if id < old(process).mutex_list@.len() {
            old(process).mutex_list@.len()
        } else {
            old(process).mutex_list@.len() + 1
        },
        holds_fresh_mutex(final(process).mutex_list@, id as int, blocking),
        forall|k: int|
            0 <= k < old(process).mutex_list@.len() && k != id ==> final(process).mutex_list@[k]
                == old(process).mutex_list@[k],
        final(process).mutex_banker@ == if id < old(process).mutex_list@.len() {
            old(process).mutex_banker@.modify_lock(tid as int, id as int, 1)
        } else {
            old(process).mutex_banker@.add_lock(tid as int, 1)
        },
        final(process).semaphore_list@ == old(process).semaphore_list@,
        final(process).condvar_list@ == old(process).condvar_list@,
        final(process).semaphore_banker@ == old(process).semaphore_banker@,
        final(process).deadlock_detect == old(process).deadlock_detect,
{
    let mutex = Mutex::new(blocking);
    match find_free_slot(&process.mutex_list) {
        Some(id) => {
            process.mutex_list[id] = Some(mutex);
            process.mutex_banker.modify_lock(tid, id, 1);
            id as isize
        },
        None => {
            process.mutex_list.push(Some(mutex));
            process.mutex_banker.add_lock(tid, 1);
            (process.mutex_list.len() - 1) as isize
        },
    }
}

/// What an attempt of thread `tid` to take mutex `id` does to the mutex and
/// to the banker, and how the call goes on: a free mutex is taken and the
/// grant accounted for, a taken one makes the thread wait.
pub open spec fn mutex_acquire_post(
    before: Mutex,
    after: Mutex,
    banker_before: BankerState,
    banker_after: BankerState,
    tid: usize,
    id: usize,
    step: SyscallStep,
) -> bool {
    &&& after.is_blocking() == before.is_blocking()
    &&& after.is_locked()
    &&& if !before.is_locked() {
        &&& step == (SyscallStep::Return { value: 0, wake: None })
        &&& after.waiters() == before.waiters()
        &&& banker_after == banker_before.lock(tid as int, id as int)
    } else if before.is_blocking() {
        &&& step == (SyscallStep::Block { wake: None })
        &&& after.waiters() == before.waiters().push(tid)
        &&& banker_after == banker_before
    } else {
        &&& step == SyscallStep::Yield
        &&& after.waiters() == before.waiters()
        &&& banker_after == banker_before
    }
}

/// The two states differ in nothing but mutex `id` and the banker of the
/// mutexes.
pub open spec fn differ_in_mutex(before: &Process, after: &Process, id: int) -> bool {
    &&& after.mutex_list@.len() == before.mutex_list@.len()
    &&& forall|k: int|
        0 <= k < before.mutex_list@.len() && k != id ==> after.mutex_list@[k]
            == before.mutex_list@[k]
    &&& after.semaphore_list@ == before.semaphore_list@
    &&& after.condvar_list@ == before.condvar_list@
    &&& after.semaphore_banker@ == before.semaphore_banker@
    &&& after.deadlock_detect == before.deadlock_detect
}

/// The two states differ in nothing but semaphore `id` and the banker of
/// the semaphores.
pub open spec fn differ_in_semaphore(before: &Process, after: &Process, id: int) -> bool {
    &&& after.semaphore_list@.len() == before.semaphore_list@.len()
    &&& forall|k: int|
        0 <= k < before.semaphore_list@.len() && k != id ==> after.semaphore_list@[k]
            == before.semaphore_list@[k]
    &&& after.mutex_list@ == before.mutex_list@
    &&& after.condvar_list@ == before.condvar_list@
    &&& after.mutex_banker@ == before.mutex_banker@
    &&& after.deadlock_detect == before.deadlock_detect
}

/// Thread `tid` tries to take mutex `mutex_id`, without asking the banker
/// first. This is the step that a thread repeats after it had to yield,
/// and that a thread woken from a condition variable takes.
pub fn mutex_acquire(process: &mut Process, tid: usize, mutex_id: usize) -> (step: SyscallStep)
    requires
        old(process).wf(),
        tid < old(process).mutex_banker@.thread_num(),
        mutex_id < old(process).mutex_list@.len(),
        old(process).mutex_list@[mutex_id as int] is Some,
    ensures
        final(process).wf(),
        differ_in_mutex(old(process), final(process), mutex_id as int),
        final(process).mutex_list@[mutex_id as int] is Some,
        mutex_acquire_post(
            old(process).mutex_list@[mutex_id as int].unwrap(),
            final(process).mutex_list@[mutex_id as int].unwrap(),
            old(process).mutex_banker@,
            final(process).mutex_banker@,
            tid,
            mutex_id,
            step,
        ),
{
    let acquire = match &mut process.mutex_list[mutex_id] {
        Some(mutex) => mutex.lock(tid),
        None => Acquire::MustYield,
    };
    match acquire {
        Acquire::Acquired => {
            process.mutex_banker.lock(tid, mutex_id);
            SyscallStep::Return { value: 0, wake: None }
        },
        Acquire::MustBlock => SyscallStep::Block { wake: None },
        Acquire::MustYield => SyscallStep::Yield,
    }
}

/// Thread `tid` asks for mutex `mutex_id`. With detection on, a request
/// that would leave the threads in an unsafe state is refused with
/// `DEADLOCK`; the request stays recorded with the banker. Otherwise the
/// thread tries to take the mutex.
pub fn sys_mutex_lock(process: &mut Process, tid: usize, mutex_id: usize) -> (step: SyscallStep)
    requires
        old(process).wf(),
        tid < old(process).mutex_banker@.thread_num(),
        mutex_id < old(process).mutex_list@.len(),
        old(process).mutex_list@[mutex_id as int] is Some,
    ensures
        final(process).wf(),
        differ_in_mutex(old(process), final(process), mutex_id as int),
        final(process).mutex_list@[mutex_id as int] is Some,
        old(process).deadlock_detect && old(process).checked_mutex_banker(
            tid,
            mutex_id,
        ).is_unsafe() ==> {
            &&& step == (SyscallStep::Return { value: DEADLOCK, wake: None })
            &&& final(process).mutex_list@ == old(process).mutex_list@
            &&& final(process).mutex_banker@ == old(process).checked_mutex_banker(tid, mutex_id)
        },
        !(old(process).deadlock_detect && old(process).checked_mutex_banker(
            tid,
            mutex_id,
        ).is_unsafe()) ==> mutex_acquire_post(
            old(process).mutex_list@[mutex_id as int].unwrap(),
            final(process).mutex_list@[mutex_id as int].unwrap(),
            old(process).checked_mutex_banker(tid, mutex_id),
            final(process).mutex_banker@,
            tid,
            mutex_id,
            step,
        ),
{
    if process.mutex_deadlock_check(tid, mutex_id) {
        return SyscallStep::Return { value: DEADLOCK, wake: None };
    }
    mutex_acquire(process, tid, mutex_id)
}

/// Thread `tid`, woken from the wait queue of mutex `mutex_id`, owns the
/// mutex: the grant is accounted for, and the call that made the thread
/// wait returns 0.
pub fn sys_mutex_lock_granted(process: &mut Process, tid: usize, mutex_id: usize) -> (r: isize)
    requires
        old(process).wf(),
        tid < old(process).mutex_banker@.thread_num(),
        mutex_id < old(process).mutex_list@.len(),
        old(process).mutex_list@[mutex_id as int] matches Some(m) && m.is_locked(),
        old(process).mutex_banker@.available[mutex_id as int] >= 1,
    ensures
        final(process).wf(),
        r == 0,
        final(process).mutex_banker@ == old(process).mutex_banker@.lock(
            tid as int,
            mutex_id as int,
        ),
        final(process).mutex_list@ == old(process).mutex_list@,
        final(process).semaphore_list@ == old(process).semaphore_list@,
        final(process).condvar_list@ == old(process).condvar_list@,
        final(process).semaphore_banker@ == old(process).semaphore_banker@,
        final(process).deadlock_detect == old(process).deadlock_detect,
{
    process.mutex_banker.lock(tid, mutex_id);
    0
}

/// Thread `tid` releases mutex `mutex_id`, which it holds. The mutex
/// passes to its first waiter, which is woken, or becomes free.
pub fn sys_mutex_unlock(process: &mut Process, tid: usize, mutex_id: usize) -> (step: SyscallStep)
    requires
        old(process).wf(),
        tid < old(process).mutex_banker@.thread_num(),
        mutex_id < old(process).mutex_list@.len(),
        old(process).mutex_list@[mutex_id as int] matches Some(m) && m.is_locked(),
        old(process).mutex_banker@.allocation[tid as int][mutex_id as int] >= 1,
    ensures
        final(process).wf(),
        differ_in_mutex(old(process), final(process), mutex_id as int),
        final(process).mutex_banker@ == old(process).mutex_banker@.unlock(
            tid as int,
            mutex_id as int,
        ),
        final(process).mutex_list@[mutex_id as int] is Some,
        ({
            let before = old(process).mutex_list@[mutex_id as int].unwrap();
            let after = final(process).mutex_list@[mutex_id as int].unwrap();
            &&& after.is_blocking() == before.is_blocking()
            &&& if before.waiters().len() == 0 {
                &&& step == (SyscallStep::Return { value: 0, wake: None })
                &&& !after.is_locked()
                &&& after.waiters() == before.waiters()
            } else {
                &&& step == (SyscallStep::Return { value: 0, wake: Some(before.waiters()[0]) })
                &&& after.is_locked()
                &&& after.waiters() == before.waiters().subrange(
                    1,
                    before.waiters().len() as int,
                )
            }
        }),
{
    let wake = match &mut process.mutex_list[mutex_id] {
        Some(mutex) => mutex.unlock(),
        None => None,
    };
    proof {
        lemma_unlock_preserves_wf(process.mutex_banker@, tid as int, mutex_id as int);
    }
    process.mutex_banker.unlock(tid, mutex_id);
    SyscallStep::Return { value: 0, wake }
}


/// The slot `id` of `list` holds a semaphore of `res_count` units on which
/// nobody waits.
pub open spec fn holds_fresh_semaphore(list: Seq<Option<Semaphore>>, id: int, res_count: usize) -> bool {
    list[id] matches Some(s) && s.count == res_count && s.wait_queue@.len() == 0
}

/// Creates a semaphore of `res_count` units in the first free slot, or in
/// a new slot if none is free, and returns its id.
pub fn sys_semaphore_create(process: &mut Process, tid: usize, res_count: usize) -> (id: isize)
    requires
        old(process).wf(),
        old(process).semaphore_list@.len() < isize::MAX,
        res_count <= isize::MAX,
        first_free(old(process).semaphore_list@) < old(process).semaphore_list@.len() ==> {
            &&& tid < old(process).semaphore_banker@.thread_num()
            &&& res_count + old(process).semaphore_banker@.held(
                first_free(old(process).semaphore_list@),
            ) <= usize::MAX
        },
    ensures
        final(process).wf(),
        id == first_free(old(process).semaphore_list@),
        final(process).semaphore_list@.len() == if id < old(process).semaphore_list@.len() {
            old(process).semaphore_list@.len()
        } else {
            old(process).semaphore_list@.len() + 1
        },
        holds_fresh_semaphore(final(process).semaphore_list@, id as int, res_count),
        forall|k: int|
            0 <= k < old(process).semaphore_list@.len() && k != id ==> final(process).semaphore_list@[k] == old(process).semaphore_list@[k],
        final(process).semaphore_banker@ == if id < old(process).semaphore_list@.len() {
            old(process).semaphore_banker@.modify_lock(tid as int, id as int, res_count)
        } else {
            old(process).semaphore_banker@.add_lock(tid as int, res_count)
        },
        final(process).mutex_list@ == old(process).mutex_list@,
        final(process).condvar_list@ == old(process).condvar_list@,
        final(process).mutex_banker@ == old(process).mutex_banker@,
        final(process).deadlock_detect == old(process).deadlock_detect,
{
    let semaphore = Semaphore::new(res_count);
    match find_free_slot(&process.semaphore_list) {
        Some(id) => {
            process.semaphore_list[id] = Some(semaphore);
            process.semaphore_banker.modify_lock(tid, id, res_count);
            id as isize
        },
        None => {
            process.semaphore_list.push(Some(semaphore));
            process.semaphore_banker.add_lock(tid, res_count);
            (process.semaphore_list.len() - 1) as isize
        },
    }
}

/// Thread `tid` gives one unit of semaphore `sem_id` back, of which it
/// holds at least one. The first waiter, if any, is woken.
pub fn sys_semaphore_up(process: &mut Process, tid: usize, sem_id: usize) -> (step: SyscallStep)
    requires
        old(process).wf(),
        tid < old(process).semaphore_banker@.thread_num(),
        sem_id < old(process).semaphore_list@.len(),
        old(process).semaphore_list@[sem_id as int] matches Some(s) && s.count < isize::MAX,
        old(process).semaphore_banker@.allocation[tid as int][sem_id as int] >= 1,
    ensures
        final(process).wf(),
        differ_in_semaphore(old(process), final(process), sem_id as int),
        final(process).semaphore_banker@ == old(process).semaphore_banker@.unlock(
            tid as int,
            sem_id as int,
        ),
        final(process).semaphore_list@[sem_id as int] is Some,
        ({
            let before = old(process).semaphore_list@[sem_id as int].unwrap();
            let after = final(process).semaphore_list@[sem_id as int].unwrap();
            &&& after.count == before.count + 1
            &&& if before.count >= 0 {
                &&& step == (SyscallStep::Return { value: 0, wake: None })
                &&& after.wait_queue@ == before.wait_queue@
            } else {
                &&& step == (SyscallStep::Return { value: 0, wake: Some(before.wait_queue@[0]) })
                &&& after.wait_queue@ == before.wait_queue@.subrange(
                    1,
                    before.wait_queue@.len() as int,
                )
            }
        }),
{
    let wake = match &mut process.semaphore_list[sem_id] {
        Some(semaphore) => semaphore.up(),
        None => None,
    };
    proof {
        lemma_unlock_preserves_wf(process.semaphore_banker@, tid as int, sem_id as int);
    }
    process.semaphore_banker.unlock(tid, sem_id);
    SyscallStep::Return { value: 0, wake }
}

/// Thread `tid` asks for one unit of semaphore `sem_id`. With detection
/// on, a request that would leave the threads in an unsafe state is
/// refused with `DEADLOCK`; the request stays recorded with the banker.
/// Otherwise the thread takes a unit, or queues for one.
pub fn sys_semaphore_down(process: &mut Process, tid: usize, sem_id: usize) -> (step: SyscallStep)
    requires
        old(process).wf(),
        tid < old(process).semaphore_banker@.thread_num(),
        sem_id < old(process).semaphore_list@.len(),
        old(process).semaphore_list@[sem_id as int] matches Some(s) && s.count > isize::MIN,
    ensures
        final(process).wf(),
        differ_in_semaphore(old(process), final(process), sem_id as int),
        final(process).semaphore_list@[sem_id as int] is Some,
        old(process).deadlock_detect && old(process).checked_semaphore_banker(
            tid,
            sem_id,
        ).is_unsafe() ==> {
            &&& step == (SyscallStep::Return { value: DEADLOCK, wake: None })
            &&& final(process).semaphore_list@ == old(process).semaphore_list@
            &&& final(process).semaphore_banker@ == old(process).checked_semaphore_banker(
                tid,
                sem_id,
            )
        },
        !(old(process).deadlock_detect && old(process).checked_semaphore_banker(
            tid,
            sem_id,
        ).is_unsafe()) ==> {
            let before = old(process).semaphore_list@[sem_id as int].unwrap();
            let after = final(process).semaphore_list@[sem_id as int].unwrap();
            &&& after.count == before.count - 1
            &&& if before.count > 0 {
                &&& step == (SyscallStep::Return { value: 0, wake: None })
                &&& after.wait_queue@ == before.wait_queue@
                &&& final(process).semaphore_banker@ == old(process).checked_semaphore_banker(
                    tid,
                    sem_id,
                ).lock(tid as int, sem_id as int)
            } else {
                &&& step == (SyscallStep::Block { wake: None })
                &&& after.wait_queue@ == before.wait_queue@.push(tid)
                &&& final(process).semaphore_banker@ == old(process).checked_semaphore_banker(
                    tid,
                    sem_id,
                )
            }
        },
{
    if process.semaphore_deadlock_check(tid, sem_id) {
        return SyscallStep::Return { value: DEADLOCK, wake: None };
    }
    let acquire = match &mut process.semaphore_list[sem_id] {
        Some(semaphore) => semaphore.down(tid),
        None => Acquire::MustBlock,
    };
    match acquire {
        Acquire::Acquired => {
            process.semaphore_banker.lock(tid, sem_id);
            SyscallStep::Return { value: 0, wake: None }
        },
        _ => SyscallStep::Block { wake: None },
    }
}

/// Thread `tid`, woken from the wait queue of semaphore `sem_id`, has its
/// unit: the grant is accounted for, and the call that made the thread
/// wait returns 0.
pub fn sys_semaphore_down_granted(process: &mut Process, tid: usize, sem_id: usize) -> (r: isize)
    requires
        old(process).wf(),
        tid < old(process).semaphore_banker@.thread_num(),
        sem_id < old(process).semaphore_list@.len(),
        old(process).semaphore_list@[sem_id as int] matches Some(s) && s.count < old(process).semaphore_banker@.available[sem_id as int],
        old(process).semaphore_banker@.available[sem_id as int] >= 1,
    ensures
        final(process).wf(),
        r == 0,
        final(process).semaphore_banker@ == old(process).semaphore_banker@.lock(
            tid as int,
            sem_id as int,
        ),
        final(process).mutex_list@ == old(process).mutex_list@,
        final(process).semaphore_list@ == old(process).semaphore_list@,
        final(process).condvar_list@ == old(process).condvar_list@,
        final(process).mutex_banker@ == old(process).mutex_banker@,
        final(process).deadlock_detect == old(process).deadlock_detect,
{
    process.semaphore_banker.lock(tid, sem_id);
    0
}

/// Creates a condition variable in the first free slot, or in a new slot
/// if none is free, and returns its id.
pub fn sys_condvar_create(process: &mut Process) -> (id: isize)
    requires
        old(process).wf(),
        old(process).condvar_list@.len() < isize::MAX,
    ensures
        final(process).wf(),
        id == first_free(old(process).condvar_list@),
        final(process).condvar_list@.len() == if id < old(process).condvar_list@.len() {
            old(process).condvar_list@.len()
        } else {
            old(process).condvar_list@.len() + 1
        },
        final(process).condvar_list@[id as int] matches Some(c) && c.wait_queue@.len() == 0,
        forall|k: int|
            0 <= k < old(process).condvar_list@.len() && k != id ==> final(process).condvar_list@[k] == old(process).condvar_list@[k],
        final(process).mutex_list@ == old(process).mutex_list@,
        final(process).semaphore_list@ == old(process).semaphore_list@,
        final(process).mutex_banker@ == old(process).mutex_banker@,
        final(process).semaphore_banker@ == old(process).semaphore_banker@,
        final(process).deadlock_detect == old(process).deadlock_detect,
{
    let condvar = Condvar::new();
    match find_free_slot(&process.condvar_list) {
        Some(id) => {
            process.condvar_list[id] = Some(condvar);
            id as isize
        },
        None => {
            process.condvar_list.push(Some(condvar));
            (process.condvar_list.len() - 1) as isize
        },
    }
}

/// Wakes the first thread that waits on condition variable `condvar_id`,
/// if any does.
pub fn sys_condvar_signal(process: &mut Process, condvar_id: usize) -> (step: SyscallStep)
    requires
        old(process).wf(),
        condvar_id < old(process).condvar_list@.len(),
        old(process).condvar_list@[condvar_id as int] is Some,
    ensures
        final(process).wf(),
        final(process).condvar_list@.len() == old(process).condvar_list@.len(),
        forall|k: int|
            0 <= k < old(process).condvar_list@.len() && k != condvar_id ==> final(process).condvar_list@[k] == old(process).condvar_list@[k],
        final(process).mutex_list@ == old(process).mutex_list@,
        final(process).semaphore_list@ == old(process).semaphore_list@,
        final(process).mutex_banker@ == old(process).mutex_banker@,
        final(process).semaphore_banker@ == old(process).semaphore_banker@,
        final(process).deadlock_detect == old(process).deadlock_detect,
        final(process).condvar_list@[condvar_id as int] is Some,
        ({
            let before = old(process).condvar_list@[condvar_id as int].unwrap().wait_queue@;
            let after = final(process).condvar_list@[condvar_id as int].unwrap().wait_queue@;
            if before.len() == 0 {
                step == (SyscallStep::Return { value: 0, wake: None }) && after == before
            } else {
                step == (SyscallStep::Return { value: 0, wake: Some(before[0]) }) && after
                    == before.subrange(1, before.len() as int)
            }
        }),
{
    let wake = match &mut process.condvar_list[condvar_id] {
        Some(condvar) => condvar.signal(),
        None => None,
    };
    SyscallStep::Return { value: 0, wake }
}

/// Thread `tid`, which holds mutex `mutex_id`, starts to wait on condition
/// variable `condvar_id`: it joins the queue of the condition variable and
/// releases the mutex, which passes to its first waiter or becomes free.
/// The thread has to be blocked; once woken it takes the mutex again with
/// `mutex_acquire`, and the call returns 0 when it has it.
pub fn sys_condvar_wait(process: &mut Process, tid: usize, condvar_id: usize, mutex_id: usize) -> (step:
    SyscallStep)
    requires
        old(process).wf(),
        condvar_id < old(process).condvar_list@.len(),
        old(process).condvar_list@[condvar_id as int] is Some,
        tid < old(process).mutex_banker@.thread_num(),
        mutex_id < old(process).mutex_list@.len(),
        old(process).mutex_list@[mutex_id as int] matches Some(m) && m.is_locked(),
        old(process).mutex_banker@.allocation[tid as int][mutex_id as int] >= 1,
    ensures
        final(process).wf(),
        final(process).condvar_list@.len() == old(process).condvar_list@.len(),
        forall|k: int|
            0 <= k < old(process).condvar_list@.len() && k != condvar_id ==> final(process).condvar_list@[k] == old(process).condvar_list@[k],
        final(process).condvar_list@[condvar_id as int] matches Some(c) && c.wait_queue@ == old(process).condvar_list@[condvar_id as int].unwrap().wait_queue@.push(tid),
        final(process).mutex_list@.len() == old(process).mutex_list@.len(),
        forall|k: int|
            0 <= k < old(process).mutex_list@.len() && k != mutex_id ==> final(process).mutex_list@[k] == old(process).mutex_list@[k],
        final(process).semaphore_list@ == old(process).semaphore_list@,
        final(process).semaphore_banker@ == old(process).semaphore_banker@,
        final(process).deadlock_detect == old(process).deadlock_detect,
        final(process).mutex_banker@ == old(process).mutex_banker@.unlock(
            tid as int,
            mutex_id as int,
        ),
        final(process).mutex_list@[mutex_id as int] is Some,
        ({
            let before = old(process).mutex_list@[mutex_id as int].unwrap();
            let after = final(process).mutex_list@[mutex_id as int].unwrap();
            &&& after.is_blocking() == before.is_blocking()
            &&& if before.waiters().len() == 0 {
                &&& step == (SyscallStep::Block { wake: None })
                &&& !after.is_locked()
                &&& after.waiters() == before.waiters()
            } else {
                &&& step == (SyscallStep::Block { wake: Some(before.waiters()[0]) })
                &&& after.is_locked()
                &&& after.waiters() == before.waiters().subrange(
                    1,
                    before.waiters().len() as int,
                )
            }
        }),
{
    let wake = match &mut process.condvar_list[condvar_id] {
        Some(condvar) => match &mut process.mutex_list[mutex_id] {
            Some(mutex) => condvar.wait(tid, mutex),
            None => None,
        },
        None => None,
    };
    proof {
        lemma_unlock_preserves_wf(process.mutex_banker@, tid as int, mutex_id as int);
    }
    process.mutex_banker.unlock(tid, mutex_id);
    SyscallStep::Block { wake }
}

/// Switches the deadlock detection of the process on (1) or off (0). Any
/// other value is refused with -1 and changes nothing.
pub fn sys_enable_deadlock_detect(process: &mut Process, enabled: usize) -> (r: isize)
    ensures
        enabled <= 1 ==> r == 0 && final(process).deadlock_detect == (enabled == 1),
        enabled > 1 ==> r == -1 && final(process).deadlock_detect == old(process).deadlock_detect,
        final(process).mutex_list@ == old(process).mutex_list@,
        final(process).semaphore_list@ == old(process).semaphore_list@,
        final(process).condvar_list@ == old(process).condvar_list@,
        final(process).mutex_banker@ == old(process).mutex_banker@,
        final(process).semaphore_banker@ == old(process).semaphore_banker@,
        old(process).wf() ==> final(process).wf(),
{
    if enabled == 0 || enabled == 1 {
        process.deadlock_detect = enabled == 1;
        0
    } else {
        -1
    }
}


/// The thread that a step has woken, if any.
pub open spec fn woken_by(step: SyscallStep) -> Option<usize> {
    match step {
        SyscallStep::Return { value, wake } => wake,
        SyscallStep::Block { wake } => wake,
        SyscallStep::Sleep { expire_ms } => None,
        SyscallStep::Yield => None,
    }
}

/// The task manager `after` is the task manager `before` with the task
/// `wake` woken: a task that is blocked has become ready and waits in the
/// ready queue; any other task, or none, changes nothing.
pub open spec fn woke(before: &TaskManager, after: &TaskManager, wake: Option<usize>) -> bool {
    &&& after.inv()
    &&& after.num_app == before.num_app
    &&& after.current_task == before.current_task
    &&& if wake matches Some(tid) && tid < before.tasks@.len() && before.tasks@[tid as int].task_status
        == TaskStatus::Blocked {
        &&& after.tasks@ == before.tasks@.update(
            wake.unwrap() as int,
            crate::task::with_status(before.tasks@[wake.unwrap() as int], TaskStatus::Ready),
        )
        &&& after.ready_queue@ == before.ready_queue@.push(
            crate::task::manager::ReadyTask {
                priority: before.tasks@[wake.unwrap() as int].priority,
                task: wake.unwrap(),
            },
        )
    } else {
        &&& after.tasks@ == before.tasks@
        &&& after.ready_queue@ == before.ready_queue@
    }
}

/// Carries a step of a system call out on the tasks: the thread that the
/// step has woken becomes ready, and the calling thread, which is running,
/// goes on, is blocked or yields as the step says. The result is the
/// switch to make, if the calling thread has left the processor.
pub fn settle_step(tm: &mut TaskManager, step: SyscallStep) -> (switch: Option<Switch>)
    requires
        old(tm).inv(),
        old(tm).tasks@[old(tm).current_task as int].task_status == TaskStatus::Running,
    ensures
        final(tm).inv(),
        exists|mid: TaskManager|
            {
                &&& #[trigger] woke(old(tm), &mid, woken_by(step))
                &&& match step {
                    SyscallStep::Return { value, wake } => switch is None && final(tm).tasks@
                        == mid.tasks@ && final(tm).ready_queue@ == mid.ready_queue@ && final(tm).current_task == mid.current_task && final(tm).num_app == mid.num_app,
                    SyscallStep::Block { wake } => switch is Some && final(tm).left_processor(
                        &mid,
                        TaskStatus::Blocked,
                        switch.unwrap(),
                    ),
                    SyscallStep::Sleep { expire_ms } => switch is Some && final(tm).left_processor(
                        &mid,
                        TaskStatus::Blocked,
                        switch.unwrap(),
                    ),
                    SyscallStep::Yield => switch is Some && final(tm).left_processor(
                        &mid,
                        TaskStatus::Ready,
                        switch.unwrap(),
                    ),
                }
            },
{
    let wake = match step {
        SyscallStep::Return { value, wake } => wake,
        SyscallStep::Block { wake } => wake,
        _ => None,
    };
    match wake {
        Some(tid) => {
            if tid < tm.tasks.len() && tm.tasks[tid].task_status == TaskStatus::Blocked {
                tm.wakeup_task(tid);
            }
        },
        None => {},
    }
    let ghost mid = *tm;
    assert(woke(old(tm), &mid, woken_by(step)));
    match step {
        SyscallStep::Return { value, wake } => None,
        SyscallStep::Block { wake } => Some(block_current_and_run_next(tm)),
        SyscallStep::Sleep { expire_ms } => Some(block_current_and_run_next(tm)),
        SyscallStep::Yield => Some(suspend_current_and_run_next(tm)),
    }
}

} // verus!
