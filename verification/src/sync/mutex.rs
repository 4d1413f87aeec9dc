//! Mutual exclusion: a spinning and a blocking mutex.

use std::collections::VecDeque;
use vstd::prelude::*;

verus! {

/// What became of a thread that tried to acquire a primitive.
#[derive(Debug, Clone, Copy, PartialEq, Eq, Structural)]
pub enum Acquire {
    /// The thread has what it asked for and goes on.
    Acquired,
    /// The thread was put on the primitive's wait queue: it has to be
    /// blocked, and owns what it asked for when it is woken.
    MustBlock,
    /// The primitive is taken and keeps no queue: the thread has to yield
    /// and try again.
    MustYield,
}

/// A mutex whose waiters spin, yielding the processor between attempts.
pub struct MutexSpin {
    pub locked: bool,
}

impl MutexSpin {
    /// A free mutex.
    pub fn new() -> (m: Self)
        ensures
            !m.locked,
    {
        MutexSpin { locked: false }
    }

    /// One attempt to take the mutex.
    pub fn lock(&mut self) -> (r: Acquire)
        ensures
            final(self).locked,
            r == if old(self).locked {
                Acquire::MustYield
            } else {
                Acquire::Acquired
            },
    {
        if self.locked {
            Acquire::MustYield
        } else {
            self.locked = true;
            Acquire::Acquired
        }
    }

    /// Releases the mutex.
    pub fn unlock(&mut self)
        ensures
            !final(self).locked,
    {
        self.locked = false;
    }
}

/// A mutex whose waiters sleep on a queue and are served first come, first
/// served.
pub struct MutexBlocking {
    pub locked: bool,
    pub wait_queue: VecDeque<usize>,
}

impl MutexBlocking {
    /// A free mutex on which nobody waits.
    pub fn new() -> (m: Self)
        ensures
            !m.locked,
            m.wait_queue@ == Seq::<usize>::empty(),
    {
        MutexBlocking { locked: false, wait_queue: VecDeque::new() }
    }

    /// Takes the mutex for thread `tid` if it is free, and queues the
    /// thread behind the earlier waiters if it is not.
    pub fn lock(&mut self, tid: usize) -> (r: Acquire)
        ensures
            final(self).locked,
            old(self).locked ==> r == Acquire::MustBlock && final(self).wait_queue@ == old(self).wait_queue@.push(tid),
            !old(self).locked ==> r == Acquire::Acquired && final(self).wait_queue@ == old(self).wait_queue@,
    {
        if self.locked {
            self.wait_queue.push_back(tid);
            Acquire::MustBlock
        } else {
            self.locked = true;
            Acquire::Acquired
        }
    }

    /// Releases the mutex. With waiters queued it passes straight to the
    /// first of them, which is returned to be woken, and stays locked.
    pub fn unlock(&mut self) -> (woken: Option<usize>)
        requires
            old(self).locked,
        ensures
            old(self).wait_queue@.len() == 0 ==> woken is None && !final(self).locked && final(self).wait_queue@ == old(self).wait_queue@,
            old(self).wait_queue@.len() > 0 ==> woken == Some(old(self).wait_queue@[0]) && final(self).locked && final(self).wait_queue@ == old(self).wait_queue@.subrange(
                1,
                old(self).wait_queue@.len() as int,
            ),
    {
        let woken = self.wait_queue.pop_front();
        if woken.is_none() {
            self.locked = false;
        }
        woken
    }
}

/// A mutex of either kind.
pub enum Mutex {
    Spin(MutexSpin),
    Blocking(MutexBlocking),
}

impl Mutex {
    /// The mutex is taken.
    pub open spec fn is_locked(&self) -> bool {
        match self {
            Mutex::Spin(m) => m.locked,
            Mutex::Blocking(m) => m.locked,
        }
    }

    /// The threads that sleep on the mutex, first come first.
    pub open spec fn waiters(&self) -> Seq<usize> {
        match self {
            Mutex::Spin(m) => Seq::empty(),
            Mutex::Blocking(m) => m.wait_queue@,
        }
    }

    /// The waiters of the mutex sleep on a queue.
    pub open spec fn is_blocking(&self) -> bool {
        self is Blocking
    }

    /// A free mutex of the kind asked for.
    pub fn new(blocking: bool) -> (m: Self)
        ensures
            m.is_blocking() == blocking,
            !m.is_locked(),
            m.waiters() == Seq::<usize>::empty(),
    {
        if blocking {
            Mutex::Blocking(MutexBlocking::new())
        } else {
            Mutex::Spin(MutexSpin::new())
        }
    }

    /// Whether the mutex is taken.
    pub fn locked(&self) -> (r: bool)
        ensures
            r == self.is_locked(),
    {
        match self {
            Mutex::Spin(m) => m.locked,
            Mutex::Blocking(m) => m.locked,
        }
    }

    /// Thread `tid` tries to take the mutex.
    pub fn lock(&mut self, tid: usize) -> (r: Acquire)
        ensures
            final(self).is_blocking() == old(self).is_blocking(),
            final(self).is_locked(),
            !old(self).is_locked() ==> r == Acquire::Acquired && final(self).waiters() == old(self).waiters(),
            old(self).is_locked() && old(self).is_blocking() ==> r == Acquire::MustBlock && final(self).waiters() == old(self).waiters().push(tid),
            old(self).is_locked() && !old(self).is_blocking() ==> r == Acquire::MustYield && final(self).waiters() == old(self).waiters(),
    {
        match self {
            Mutex::Spin(m) => m.lock(),
            Mutex::Blocking(m) => m.lock(tid),
        }
    }

    /// Releases the mutex and returns the waiter that it passes to, if
    /// there is one.
    pub fn unlock(&mut self) -> (woken: Option<usize>)
        requires
            old(self).is_locked(),
        ensures
            final(self).is_blocking() == old(self).is_blocking(),
            old(self).waiters().len() == 0 ==> woken is None && !final(self).is_locked() && final(self).waiters() == old(self).waiters(),
            old(self).waiters().len() > 0 ==> woken == Some(old(self).waiters()[0]) && final(self).is_locked() && final(self).waiters() == old(self).waiters().subrange(
                1,
                old(self).waiters().len() as int,
            ),
    {
        match self {
            Mutex::Spin(m) => {
                m.unlock();
                None
            },
            Mutex::Blocking(m) => m.unlock(),
        }
    }
}

} // verus!
