//! The condition variable.

use crate::sync::mutex::Mutex;
use std::collections::VecDeque;
use vstd::prelude::*;

verus! {

/// A condition variable: a queue of sleeping threads, woken first come,
/// first served.
pub struct Condvar {
    pub wait_queue: VecDeque<usize>,
}

impl Condvar {
    /// A condition variable on which nobody waits.
    pub fn new() -> (c: Self)
        ensures
            c.wait_queue@ == Seq::<usize>::empty(),
    {
        Condvar { wait_queue: VecDeque::new() }
    }

    /// Takes the first waiter off the queue and returns it to be woken. The
    /// woken thread does not own the mutex it waited with: it has to take
    /// it again.
    pub fn signal(&mut self) -> (woken: Option<usize>)
        ensures
            old(self).wait_queue@.len() == 0 ==> woken is None && final(self).wait_queue@ == old(self).wait_queue@,
            old(self).wait_queue@.len() > 0 ==> woken == Some(old(self).wait_queue@[0]) && final(self).wait_queue@ == old(self).wait_queue@.subrange(
                1,
                old(self).wait_queue@.len() as int,
            ),
    {
        self.wait_queue.pop_front()
    }

    /// Thread `tid` starts to wait: it joins the queue and releases
    /// `mutex`. The caller has to block the thread; the result is the
    /// thread that the release of the mutex wakes, if any.
    pub fn wait(&mut self, tid: usize, mutex: &mut Mutex) -> (woken: Option<usize>)
        requires
            old(mutex).is_locked(),
        ensures
            final(self).wait_queue@ == old(self).wait_queue@.push(tid),
            final(mutex).is_blocking() == old(mutex).is_blocking(),
            old(mutex).waiters().len() == 0 ==> woken is None && !final(mutex).is_locked()
                && final(mutex).waiters() == old(mutex).waiters(),
            old(mutex).waiters().len() > 0 ==> woken == Some(old(mutex).waiters()[0]) && final(mutex).is_locked() && final(mutex).waiters() == old(mutex).waiters().subrange(
                1,
                old(mutex).waiters().len() as int,
            ),
    {
        self.wait_queue.push_back(tid);
        mutex.unlock()
    }
}

} // verus!
