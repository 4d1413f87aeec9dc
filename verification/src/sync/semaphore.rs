//! The counting semaphore.

use crate::sync::mutex::Acquire;
use std::collections::VecDeque;
use vstd::prelude::*;

verus! {

/// A counting semaphore. A negative count is the number of sleeping
/// waiters, which are served first come, first served.
pub struct Semaphore {
    pub count: isize,
    pub wait_queue: VecDeque<usize>,
}

impl Semaphore {
    /// The waiters are exactly as many as the count is below zero.
    pub open spec fn wf(&self) -> bool {
        if self.count < 0 {
            self.wait_queue@.len() == -self.count
        } else {
            self.wait_queue@.len() == 0
        }
    }

    /// A semaphore with `res_count` units.
    pub fn new(res_count: usize) -> (s: Self)
        requires
            res_count <= isize::MAX,
        ensures
            s.count == res_count,
            s.wait_queue@ == Seq::<usize>::empty(),
            s.wf(),
    {
        Semaphore { count: res_count as isize, wait_queue: VecDeque::new() }
    }

    /// Gives one unit back and returns the waiter that it goes to, if any
    /// thread waits.
    pub fn up(&mut self) -> (woken: Option<usize>)
        requires
            old(self).wf(),
            old(self).count < isize::MAX,
        ensures
            final(self).wf(),
            final(self).count == old(self).count + 1,
            old(self).count >= 0 ==> woken is None && final(self).wait_queue@ == old(self).wait_queue@,
            old(self).count < 0 ==> woken == Some(old(self).wait_queue@[0]) && final(self).wait_queue@ == old(self).wait_queue@.subrange(
                1,
                old(self).wait_queue@.len() as int,
            ),
    {
        self.count += 1;
        if self.count <= 0 {
            self.wait_queue.pop_front()
        } else {
            None
        }
    }

    /// Thread `tid` takes one unit, or queues for one if none is left.
    pub fn down(&mut self, tid: usize) -> (r: Acquire)
        requires
            old(self).wf(),
            old(self).count > isize::MIN,
        ensures
            final(self).wf(),
            final(self).count == old(self).count - 1,
            old(self).count > 0 ==> r == Acquire::Acquired && final(self).wait_queue@ == old(self).wait_queue@,
            old(self).count <= 0 ==> r == Acquire::MustBlock && final(self).wait_queue@ == old(self).wait_queue@.push(tid),
    {
        self.count -= 1;
        if self.count < 0 {
            self.wait_queue.push_back(tid);
            Acquire::MustBlock
        } else {
            Acquire::Acquired
        }
    }
}

} // verus!
