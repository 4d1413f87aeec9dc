//! What the threads of one process share: its synchronisation primitives
//! and the bankers that watch over them.

use crate::sync::banker::Banker;
use crate::sync::condvar::Condvar;
use crate::sync::mutex::Mutex;
use crate::sync::semaphore::Semaphore;
use vstd::prelude::*;

verus! {

/// The index of the first empty slot of `list` at or after `from`, or the
/// length of `list` if every slot from there on is taken.
pub open spec fn first_free_from<T>(list: Seq<Option<T>>, from: int) -> int
    decreases list.len() - from,
{
    if from >= list.len() {
        list.len() as int
    } else if list[from] is None {
        from
    } else {
        first_free_from(list, from + 1)
    }
}

/// The index of the first empty slot of `list`, or its length if it has
/// none.
pub open spec fn first_free<T>(list: Seq<Option<T>>) -> int {
    first_free_from(list, 0)
}

/// Finds the first empty slot of `list`.
pub fn find_free_slot<T>(list: &Vec<Option<T>>) -> (r: Option<usize>)
    ensures
        r matches Some(id) ==> id < list.len() && id == first_free(list@),
        r is None ==> first_free(list@) == list.len(),
{
    let mut i: usize = 0;
    while i < list.len()
        invariant
            i <= list.len(),
            first_free(list@) == first_free_from(list@, i as int),
        decreases list.len() - i,
    {
        if list[i].is_none() {
            return Some(i);
        }
        i += 1;
    }
    None
}

/// The synchronisation state of a process. Primitives are named by their
/// index in the list of their kind; a slot that holds nothing is free for
/// the next primitive created.
pub struct Process {
    pub mutex_list: Vec<Option<Mutex>>,
    pub semaphore_list: Vec<Option<Semaphore>>,
    pub condvar_list: Vec<Option<Condvar>>,
    /// The banker of the mutexes: each is a resource of one unit.
    pub mutex_banker: Banker,
    /// The banker of the semaphores.
    pub semaphore_banker: Banker,
    /// Whether requests are put before the bankers.
    pub deadlock_detect: bool,
}

impl Process {
    /// The state is consistent: each banker is, it knows one resource for
    /// each slot of its list, it counts a free unit for every mutex that is
    /// not locked, and it counts no fewer free units of a semaphore than
    /// the semaphore does.
    pub open spec fn wf(&self) -> bool {
        &&& self.mutex_banker@.wf()
        &&& self.semaphore_banker@.wf()
        &&& self.mutex_banker@.lock_num() == self.mutex_list@.len()
        &&& self.semaphore_banker@.lock_num() == self.semaphore_list@.len()
        &&& forall|id: int|
            0 <= id < self.mutex_list@.len() ==> ((#[trigger] self.mutex_list@[id]) matches Some(
                m,
            ) ==> (!m.is_locked() ==> self.mutex_banker@.available[id] >= 1))
        &&& forall|id: int|
            0 <= id < self.semaphore_list@.len() ==> ((
            #[trigger] self.semaphore_list@[id]) matches Some(s) ==> s.wf() && s.count
                <= self.semaphore_banker@.available[id])
    }

    /// A process without primitives or threads; requests are not checked.
    pub fn new() -> (p: Process)
        ensures
            p.wf(),
            p.mutex_list@.len() == 0,
            p.semaphore_list@.len() == 0,
            p.condvar_list@.len() == 0,
            p.mutex_banker@.thread_num() == 0,
            p.semaphore_banker@.thread_num() == 0,
            !p.deadlock_detect,
    {
        Process {
            mutex_list: Vec::new(),
            semaphore_list: Vec::new(),
            condvar_list: Vec::new(),
            mutex_banker: Banker::new(),
            semaphore_banker: Banker::new(),
            deadlock_detect: false,
        }
    }

    /// Registers thread `tid` with both bankers.
    pub fn add_thread(&mut self, tid: usize)
        requires
            old(self).wf(),
        ensures
            final(self).wf(),
            final(self).mutex_banker@ == old(self).mutex_banker@.add_thread(tid as int),
            final(self).semaphore_banker@ == old(self).semaphore_banker@.add_thread(tid as int),
            final(self).mutex_list@ == old(self).mutex_list@,
            final(self).semaphore_list@ == old(self).semaphore_list@,
            final(self).condvar_list@ == old(self).condvar_list@,
            final(self).deadlock_detect == old(self).deadlock_detect,
    {
        self.mutex_banker.add_thread(tid);
        self.semaphore_banker.add_thread(tid);
    }

    /// With detection on, records that thread `tid` asks for mutex
    /// `mutex_id` and tells whether the request must be refused. With
    /// detection off nothing is recorded and nothing refused.
    pub fn mutex_deadlock_check(&mut self, tid: usize, mutex_id: usize) -> (refuse: bool)
        requires
            old(self).wf(),
            old(self).deadlock_detect ==> tid < old(self).mutex_banker@.thread_num() && mutex_id
                < old(self).mutex_list@.len(),
        ensures
            final(self).wf(),
            final(self).mutex_banker@ == old(self).checked_mutex_banker(tid, mutex_id),
            refuse == (old(self).deadlock_detect && final(self).mutex_banker@.is_unsafe()),
            final(self).mutex_list@ == old(self).mutex_list@,
            final(self).semaphore_list@ == old(self).semaphore_list@,
            final(self).condvar_list@ == old(self).condvar_list@,
            final(self).semaphore_banker@ == old(self).semaphore_banker@,
            final(self).deadlock_detect == old(self).deadlock_detect,
    {
        self.deadlock_detect && self.mutex_banker.is_deadlock(tid, mutex_id)
    }

    /// The same for semaphore `sem_id`.
    pub fn semaphore_deadlock_check(&mut self, tid: usize, sem_id: usize) -> (refuse: bool)
        requires
            old(self).wf(),
            old(self).deadlock_detect ==> tid < old(self).semaphore_banker@.thread_num() && sem_id
                < old(self).semaphore_list@.len(),
        ensures
            final(self).wf(),
            final(self).semaphore_banker@ == old(self).checked_semaphore_banker(tid, sem_id),
            refuse == (old(self).deadlock_detect && final(self).semaphore_banker@.is_unsafe()),
            final(self).mutex_list@ == old(self).mutex_list@,
            final(self).semaphore_list@ == old(self).semaphore_list@,
            final(self).condvar_list@ == old(self).condvar_list@,
            final(self).mutex_banker@ == old(self).mutex_banker@,
            final(self).deadlock_detect == old(self).deadlock_detect,
    {
        self.deadlock_detect && self.semaphore_banker.is_deadlock(tid, sem_id)
    }

    /// What the banker of the mutexes knows once a request of thread `tid`
    /// for mutex `mutex_id` was put before it.
    pub open spec fn checked_mutex_banker(&self, tid: usize, mutex_id: usize) -> crate::sync::banker::BankerState {
        if self.deadlock_detect {
            self.mutex_banker@.request(tid as int, mutex_id)
        } else {
            self.mutex_banker@
        }
    }

    /// What the banker of the semaphores knows once a request of thread
    /// `tid` for semaphore `sem_id` was put before it.
    pub open spec fn checked_semaphore_banker(&self, tid: usize, sem_id: usize) -> crate::sync::banker::BankerState {
        if self.deadlock_detect {
            self.semaphore_banker@.request(tid as int, sem_id)
        } else {
            self.semaphore_banker@
        }
    }
}

} // verus!
