//! The default ready queue: first in, first out within a priority.

use vstd::prelude::*;

verus! {

/// A task that waits to run, with the priority it was added with. A
/// smaller number is a higher priority.
#[derive(Debug, Clone, Copy, PartialEq, Eq, Structural)]
pub struct ReadyTask {
    pub priority: usize,
    pub task: usize,
}

/// The task at place `k` runs next: none has a higher priority, and none
/// of the same priority was added before it.
pub open spec fn is_next(ready: Seq<ReadyTask>, k: int) -> bool {
    &&& 0 <= k < ready.len()
    &&& forall|j: int| 0 <= j < ready.len() ==> ready[k].priority <= (#[trigger] ready[j]).priority
    &&& forall|j: int| 0 <= j < k ==> (#[trigger] ready[j]).priority > ready[k].priority
}

/// The place of the task that runs next.
pub open spec fn next_index(ready: Seq<ReadyTask>) -> int {
    choose|k: int| is_next(ready, k)
}

/// At most one place holds the task that runs next.
pub proof fn lemma_next_is_unique(ready: Seq<ReadyTask>, k: int)
    requires
        is_next(ready, k),
    ensures
        next_index(ready) == k,
{
    let c = next_index(ready);
    assert(is_next(ready, c));
    if c < k {
        assert(ready[c].priority > ready[k].priority);
        assert(ready[c].priority <= ready[k].priority);
    } else if k < c {
        assert(ready[k].priority > ready[c].priority);
        assert(ready[k].priority <= ready[c].priority);
    }
}

/// How often task `id` occurs among the waiting tasks.
pub open spec fn count_task(ready: Seq<ReadyTask>, id: usize) -> int
    decreases ready.len(),
{
    if ready.len() == 0 {
        0
    } else {
        count_task(ready.drop_last(), id) + if ready.last().task == id {
            1int
        } else {
            0int
        }
    }
}

/// A task added at the back of the queue is counted once more.
pub proof fn lemma_count_task_push(ready: Seq<ReadyTask>, e: ReadyTask, id: usize)
    ensures
        count_task(ready.push(e), id) == count_task(ready, id) + if e.task == id {
            1int
        } else {
            0int
        },
        count_task(ready, id) >= 0,
    decreases ready.len(),
{
    assert(ready.push(e).drop_last() =~= ready);
    if ready.len() > 0 {
        lemma_count_task_push(ready.drop_last(), ready.last(), id);
        assert(ready.drop_last().push(ready.last()) =~= ready);
    }
}

/// A task taken out of the queue is counted once less.
pub proof fn lemma_count_task_remove(ready: Seq<ReadyTask>, k: int, id: usize)
    requires
        0 <= k < ready.len(),
    ensures
        count_task(ready.remove(k), id) == count_task(ready, id) - if ready[k].task == id {
            1int
        } else {
            0int
        },
    decreases ready.len(),
{
    if k == ready.len() - 1 {
        assert(ready.remove(k) =~= ready.drop_last());
    } else {
        lemma_count_task_remove(ready.drop_last(), k, id);
        assert(ready.remove(k) =~= ready.drop_last().remove(k).push(ready.last()));
        lemma_count_task_push(ready.drop_last().remove(k), ready.last(), id);
    }
}

/// The ready queue of the kernel.
pub struct TaskManager {
    ready_heap: Vec<ReadyTask>,
}

impl View for TaskManager {
    type V = Seq<ReadyTask>;

    closed spec fn view(&self) -> Seq<ReadyTask> {
        self.ready_heap@
    }
}

impl TaskManager {
    /// A ready queue in which no task waits.
    pub fn new() -> (m: Self)
        ensures
            m@ == Seq::<ReadyTask>::empty(),
    {
        TaskManager { ready_heap: Vec::new() }
    }

    /// Adds task `task` with the priority `priority`.
    pub fn add(&mut self, task: usize, priority: usize)
        ensures
            final(self)@ == old(self)@.push(ReadyTask { priority, task }),
    {
        self.ready_heap.push(ReadyTask { priority, task });
    }

    /// The number of waiting tasks.
    pub fn len(&self) -> (r: usize)
        ensures
            r == self@.len(),
    {
        self.ready_heap.len()
    }

    /// The task that waits at place `k`.
    pub fn get(&self, k: usize) -> (r: ReadyTask)
        requires
            k < self@.len(),
        ensures
            r == self@[k as int],
    {
        self.ready_heap[k]
    }

    /// The place of the task that runs next, if a task waits.
    pub fn peek(&self) -> (r: Option<usize>)
        ensures
            self@.len() == 0 ==> r is None,
            self@.len() > 0 ==> r is Some && r.unwrap() == next_index(self@) && is_next(
                self@,
                next_index(self@),
            ),
    {
        if self.ready_heap.len() == 0 {
            return None;
        }
        let mut best: usize = 0;
        let mut j: usize = 1;
        while j < self.ready_heap.len()
            invariant
                1 <= j <= self.ready_heap.len(),
                best < j,
                forall|i: int|
                    0 <= i < j ==> self@[best as int].priority <= (#[trigger] self@[i]).priority,
                forall|i: int|
                    0 <= i < best ==> (#[trigger] self@[i]).priority > self@[best as int].priority,
            decreases self.ready_heap.len() - j,
        {
            if self.ready_heap[j].priority < self.ready_heap[best].priority {
                best = j;
            }
            j += 1;
        }
        proof {
            lemma_next_is_unique(self@, best as int);
        }
        Some(best)
    }

    /// Takes the task that runs next out of the queue: of the tasks with
    /// the highest priority the one that was added first.
    pub fn fetch(&mut self) -> (r: Option<usize>)
        ensures
            old(self)@.len() == 0 ==> r is None && final(self)@ == old(self)@,
            old(self)@.len() > 0 ==> {
                let k = next_index(old(self)@);
                &&& is_next(old(self)@, k)
                &&& r == Some(old(self)@[k].task)
                &&& final(self)@ == old(self)@.remove(k)
            },
    {
        match self.peek() {
            None => None,
            Some(k) => {
                let entry = self.ready_heap.remove(k);
                Some(entry.task)
            },
        }
    }
}

} // verus!
