//! The multi-level feedback queue.
//!
//! Ready tasks wait on sixteen levels, level 0 being served first. A new
//! task enters on level 0; a task that has used up its time slice comes
//! back one level lower. A periodic sweep lifts tasks by how long they
//! have waited, so that none starves.

use std::collections::VecDeque;
use vstd::prelude::*;

verus! {

/// The number of levels.
pub const PRIORITY_LEVEL: usize = 16;

/// The number of calls of `check_priority` from one sweep to the next.
pub const TIMER_LIMIT: usize = 10;

/// A task as the queue knows it: its id and the level it is served on.
#[derive(Debug, Clone, Copy, PartialEq, Eq, Structural)]
pub struct TaskHandle {
    pub id: usize,
    pub priority: usize,
}

/// A waiting task with the time it has waited.
#[derive(Debug, Clone, Copy, PartialEq, Eq, Structural)]
pub struct QueueEntry {
    pub task: TaskHandle,
    pub ready_time: usize,
}

/// The step between levels: the fifteenth part of the span from the
/// shortest wait to the longest, and zero where there is no span.
pub open spec fn step_of(shortest: int, longest: int) -> int {
    if longest > shortest {
        (longest - shortest) / 15
    } else {
        0
    }
}

/// The number of levels by which a task on level `priority` that has
/// waited `ready_time` is lifted, when the shortest wait is `shortest` and
/// the step between levels is `delta`: the wait above the shortest,
/// counted in steps and rounded up. A wait that is not above the shortest
/// lifts the task by nothing. With a step of zero any wait above the
/// shortest lifts the task to the top.
pub open spec fn raise_of(priority: int, ready_time: int, shortest: int, delta: int) -> int {
    if ready_time <= shortest {
        0
    } else if delta == 0 {
        priority
    } else {
        (ready_time - shortest + delta - 1) / delta
    }
}

/// The level that a sweep moves the entry to.
pub open spec fn swept_priority(e: QueueEntry, shortest: usize, longest: usize) -> usize {
    let delta = step_of(shortest as int, longest as int);
    let raise = raise_of(e.task.priority as int, e.ready_time as int, shortest as int, delta);
    if e.task.priority > raise {
        (e.task.priority - raise) as usize
    } else {
        0
    }
}

/// The entry as a sweep leaves it: on its new level, with its wait kept.
pub open spec fn swept_entry(e: QueueEntry, shortest: usize, longest: usize) -> QueueEntry {
    QueueEntry {
        task: TaskHandle { id: e.task.id, priority: swept_priority(e, shortest, longest) },
        ready_time: e.ready_time,
    }
}

/// The entry after one more tick of the clock.
pub open spec fn aged_entry(e: QueueEntry) -> QueueEntry {
    QueueEntry {
        task: e.task,
        ready_time: if e.ready_time < usize::MAX {
            (e.ready_time + 1) as usize
        } else {
            e.ready_time
        },
    }
}

/// The function that takes an entry to what a sweep makes of it.
pub open spec fn sweep_of(shortest: usize, longest: usize) -> spec_fn(QueueEntry) -> QueueEntry {
    |e: QueueEntry| swept_entry(e, shortest, longest)
}

/// The entries that wait on level `p`.
pub open spec fn on_level(p: int) -> spec_fn(QueueEntry) -> bool {
    |e: QueueEntry| e.task.priority == p
}

/// The function that takes an entry to what a tick of the clock makes of it.
pub open spec fn aging() -> spec_fn(QueueEntry) -> QueueEntry {
    |e: QueueEntry| aged_entry(e)
}

/// The queue of level `p` after a sweep of the entries `all`, which are
/// listed level by level: those that the sweep moves to level `p`, in the
/// order in which they were listed.
pub open spec fn swept_level(all: Seq<QueueEntry>, shortest: usize, longest: usize, p: int) -> Seq<
    QueueEntry,
> {
    all.map_values(sweep_of(shortest, longest)).filter(on_level(p))
}

/// How often task `id` occurs in the queue `q`.
pub open spec fn count_in(q: Seq<QueueEntry>, id: usize) -> int
    decreases q.len(),
{
    if q.len() == 0 {
        0
    } else {
        count_in(q.drop_last(), id) + if q.last().task.id == id {
            1int
        } else {
            0int
        }
    }
}

/// How often task `id` occurs in the first `n` of the queues.
pub open spec fn count_in_levels(queues: Seq<Seq<QueueEntry>>, id: usize, n: int) -> int
    decreases n,
{
    if n <= 0 {
        0
    } else {
        count_in_levels(queues, id, n - 1) + count_in(queues[n - 1], id)
    }
}

/// `s` is the shortest wait among the entries.
pub open spec fn is_shortest_wait(all: Seq<QueueEntry>, s: usize) -> bool {
    &&& exists|i: int| 0 <= i < all.len() && (#[trigger] all[i]).ready_time == s
    &&& forall|i: int| 0 <= i < all.len() ==> (#[trigger] all[i]).ready_time >= s
}

/// `l` is the longest wait among the entries.
pub open spec fn is_longest_wait(all: Seq<QueueEntry>, l: usize) -> bool {
    &&& exists|i: int| 0 <= i < all.len() && (#[trigger] all[i]).ready_time == l
    &&& forall|i: int| 0 <= i < all.len() ==> (#[trigger] all[i]).ready_time <= l
}

/// What a feedback queue holds.
pub struct FeedbackQueueState {
    /// The waiting tasks of each level, first come first.
    pub queues: Seq<Seq<QueueEntry>>,
    /// The calls of `check_priority` since the last sweep.
    pub timer: int,
}

impl FeedbackQueueState {
    /// The state is consistent: there are sixteen levels, every entry
    /// carries the level it waits on, and a sweep is not overdue.
    pub open spec fn wf(self) -> bool {
        &&& self.queues.len() == PRIORITY_LEVEL
        &&& 0 <= self.timer < TIMER_LIMIT
        &&& forall|l: int, i: int|
            0 <= l < self.queues.len() && 0 <= i < self.queues[l].len() ==> (
            #[trigger] self.queues[l][i]).task.priority == l
    }

    /// All entries, level by level.
    pub open spec fn all(self) -> Seq<QueueEntry> {
        self.queues.flatten()
    }

    /// How often task `id` waits in the queues.
    pub open spec fn occurrences(self, id: usize) -> int {
        count_in_levels(self.queues, id, self.queues.len() as int)
    }

    /// The first level on which a task waits, or the number of levels if
    /// none waits.
    pub open spec fn first_busy_level(self, from: int) -> int
        decreases self.queues.len() - from,
    {
        if from >= self.queues.len() {
            self.queues.len() as int
        } else if self.queues[from].len() > 0 {
            from
        } else {
            self.first_busy_level(from + 1)
        }
    }

    /// The queues after a sweep with the given shortest and longest wait.
    pub open spec fn swept(self, shortest: usize, longest: usize) -> Seq<Seq<QueueEntry>> {
        Seq::new(
            PRIORITY_LEVEL as nat,
            |p: int| swept_level(self.all(), shortest, longest, p),
        )
    }
}

/// A task added at the back of a queue is counted once more.
proof fn lemma_count_in_push(q: Seq<QueueEntry>, e: QueueEntry, id: usize)
    ensures
        count_in(q.push(e), id) == count_in(q, id) + if e.task.id == id {
            1int
        } else {
            0int
        },
        count_in(q, id) >= 0,
    decreases q.len(),
{
    assert(q.push(e).drop_last() =~= q);
    if q.len() > 0 {
        lemma_count_in_push(q.drop_last(), q.last(), id);
        assert(q.drop_last().push(q.last()) =~= q);
    }
}

/// The tasks of two queues in a row are counted queue by queue.
proof fn lemma_count_in_concat(a: Seq<QueueEntry>, b: Seq<QueueEntry>, id: usize)
    ensures
        count_in(a + b, id) == count_in(a, id) + count_in(b, id),
    decreases b.len(),
{
    if b.len() == 0 {
        assert(a + b =~= a);
    } else {
        lemma_count_in_concat(a, b.drop_last(), id);
        assert((a + b).drop_last() =~= a + b.drop_last());
    }
}

/// A task taken from the front of a queue is counted once less.
proof fn lemma_count_in_pop_front(q: Seq<QueueEntry>, id: usize)
    requires
        q.len() > 0,
    ensures
        count_in(q.subrange(1, q.len() as int), id) == count_in(q, id) - if q[0].task.id == id {
            1int
        } else {
            0int
        },
{
    let head = q.subrange(0, 1);
    let rest = q.subrange(1, q.len() as int);
    assert(head + rest =~= q);
    lemma_count_in_concat(head, rest, id);
    assert(head.drop_last() =~= Seq::<QueueEntry>::empty());
    assert(count_in(head.drop_last(), id) == 0);
}

/// Replacing the queue of one level changes the count of a task by the
/// difference of its counts in the two queues.
proof fn lemma_count_in_levels_update(
    queues: Seq<Seq<QueueEntry>>,
    l: int,
    q: Seq<QueueEntry>,
    id: usize,
    n: int,
)
    requires
        0 <= l < queues.len(),
        0 <= n <= queues.len(),
    ensures
        count_in_levels(queues.update(l, q), id, n) == if l < n {
            count_in_levels(queues, id, n) - count_in(queues[l], id) + count_in(q, id)
        } else {
            count_in_levels(queues, id, n)
        },
    decreases n,
{
    if n > 0 {
        lemma_count_in_levels_update(queues, l, q, id, n - 1);
    }
}

/// In empty queues no task is counted.
proof fn lemma_count_in_levels_empty(queues: Seq<Seq<QueueEntry>>, id: usize, n: int)
    requires
        0 <= n <= queues.len(),
        forall|l: int| 0 <= l < n ==> (#[trigger] queues[l]).len() == 0,
    ensures
        count_in_levels(queues, id, n) == 0,
    decreases n,
{
    if n > 0 {
        lemma_count_in_levels_empty(queues, id, n - 1);
        assert(queues[n - 1].len() == 0);
    }
}

/// A change of the entries that keeps their ids keeps the count of each task.
proof fn lemma_count_in_map(q: Seq<QueueEntry>, f: spec_fn(QueueEntry) -> QueueEntry, id: usize)
    requires
        forall|e: QueueEntry| #[trigger] f(e).task.id == e.task.id,
    ensures
        count_in(q.map_values(f), id) == count_in(q, id),
    decreases q.len(),
{
    if q.len() > 0 {
        lemma_count_in_map(q.drop_last(), f, id);
        assert(q.map_values(f).drop_last() =~= q.drop_last().map_values(f));
    }
}

/// A task that has waited longest, and longer than some other, is lifted
/// to level 0 by a sweep.
pub proof fn lemma_longest_waiting_is_promoted(e: QueueEntry, shortest: usize, longest: usize)
    requires
        e.task.priority < PRIORITY_LEVEL,
        e.ready_time == longest,
        shortest < longest,
    ensures
        swept_priority(e, shortest, longest) == 0,
        swept_entry(e, shortest, longest).task.priority == 0,
{
    let delta = (longest - shortest) / 15;
    let d = (longest - shortest) as int;
    if delta != 0 {
        assert(15 * delta <= d);
        assert((d + delta - 1) / delta >= 15) by (nonlinear_arith)
            requires
                delta > 0,
                15 * delta <= d,
        ;
    }
}

/// A sweep lifts tasks and never lowers one, and a task that has waited no
/// longer than the shortest wait stays on its level.
pub proof fn lemma_sweep_only_lifts(e: QueueEntry, shortest: usize, longest: usize)
    ensures
        swept_priority(e, shortest, longest) <= e.task.priority,
        e.ready_time <= shortest ==> swept_priority(e, shortest, longest) == e.task.priority,
{
    let delta = step_of(shortest as int, longest as int);
    let x = e.ready_time - shortest;
    if delta != 0 && x > 0 {
        assert((x + delta - 1) / delta >= 0) by (nonlinear_arith)
            requires
                delta > 0,
                x >= 0,
        ;
    }
}


/// An entry listed last appears last on the level that the sweep moves it
/// to, and on no other.
proof fn lemma_swept_level_push(
    all: Seq<QueueEntry>,
    e: QueueEntry,
    shortest: usize,
    longest: usize,
    p: int,
)
    ensures
        swept_level(all.push(e), shortest, longest, p) == if swept_priority(e, shortest, longest)
            == p {
            swept_level(all, shortest, longest, p).push(swept_entry(e, shortest, longest))
        } else {
            swept_level(all, shortest, longest, p)
        },
{
    let f = sweep_of(shortest, longest);
    assert(all.push(e).map_values(f) =~= all.map_values(f).push(f(e)));
    all.map_values(f).lemma_filter_push(f(e), on_level(p));
}

/// The entries of the first `l + 1` levels are those of the first `l` levels
/// followed by those of level `l`.
proof fn lemma_flatten_take_step(queues: Seq<Seq<QueueEntry>>, l: int)
    requires
        0 <= l < queues.len(),
    ensures
        queues.take(l + 1).flatten() == queues.take(l).flatten() + queues[l],
        queues.take(0).flatten() == Seq::<QueueEntry>::empty(),
        queues.take(queues.len() as int) == queues,
{
    assert(queues.take(l + 1) =~= queues.take(l).push(queues[l]));
    queues.take(l).lemma_flatten_push(queues[l]);
    assert(queues.take(0) =~= Seq::<Seq<QueueEntry>>::empty());
    assert(queues.take(queues.len() as int) =~= queues);
}

/// A task occurs in the list of all entries as often as on all levels
/// together.
proof fn lemma_count_in_flatten(queues: Seq<Seq<QueueEntry>>, id: usize, n: int)
    requires
        0 <= n <= queues.len(),
    ensures
        count_in(queues.take(n).flatten(), id) == count_in_levels(queues, id, n),
    decreases n,
{
    if n == 0 {
        assert(queues.take(0) =~= Seq::<Seq<QueueEntry>>::empty());
    } else {
        lemma_count_in_flatten(queues, id, n - 1);
        lemma_flatten_take_step(queues, n - 1);
        lemma_count_in_concat(queues.take(n - 1).flatten(), queues[n - 1], id);
    }
}

/// The multi-level feedback queue of ready tasks.
pub struct FeedbackQueue {
    queues: Vec<VecDeque<QueueEntry>>,
    timer: usize,
}

impl View for FeedbackQueue {
    type V = FeedbackQueueState;

    closed spec fn view(&self) -> FeedbackQueueState {
        FeedbackQueueState {
            queues: self.queues@.map_values(|q: VecDeque<QueueEntry>| q@),
            timer: self.timer as int,
        }
    }
}

fn empty_levels() -> (queues: Vec<VecDeque<QueueEntry>>)
    ensures
        queues@.len() == PRIORITY_LEVEL,
        forall|l: int| 0 <= l < queues@.len() ==> (#[trigger] queues@[l])@.len() == 0,
{
    let mut queues: Vec<VecDeque<QueueEntry>> = Vec::new();
    let mut l: usize = 0;
    while l < PRIORITY_LEVEL
        invariant
            l <= PRIORITY_LEVEL,
            queues@.len() == l,
            forall|k: int| 0 <= k < queues@.len() ==> (#[trigger] queues@[k])@.len() == 0,
        decreases PRIORITY_LEVEL - l,
    {
        queues.push(VecDeque::new());
        l += 1;
    }
    queues
}

impl FeedbackQueue {
    /// A feedback queue in which no task waits.
    pub fn new() -> (q: Self)
        ensures
            q@.wf(),
            q@.timer == 0,
            q@.all().len() == 0,
            forall|l: int| 0 <= l < PRIORITY_LEVEL ==> (#[trigger] q@.queues[l]).len() == 0,
            forall|id: usize| q@.occurrences(id) == 0,
    {
        let q = FeedbackQueue { queues: empty_levels(), timer: 0 };
        proof {
            assert forall|id: usize| q@.occurrences(id) == 0 by {
                lemma_count_in_levels_empty(q@.queues, id, 16);
            }
            lemma_flatten_of_empty_levels(q@.queues, 16);
            lemma_flatten_take_step(q@.queues, 0);
        }
        q
    }

    /// Adds a task. It waits on level 0, behind the tasks that wait there.
    pub fn add(&mut self, task: TaskHandle)
        requires
            old(self)@.wf(),
        ensures
            final(self)@.wf(),
            final(self)@.timer == old(self)@.timer,
            final(self)@.queues == old(self)@.queues.update(
                0,
                old(self)@.queues[0].push(
                    QueueEntry { task: TaskHandle { id: task.id, priority: 0 }, ready_time: 0 },
                ),
            ),
            forall|id: usize|
                #![trigger final(self)@.occurrences(id)]
                final(self)@.occurrences(id) == old(self)@.occurrences(id) + if id == task.id {
                    1int
                } else {
                    0int
                },
    {
        let entry = QueueEntry { task: TaskHandle { id: task.id, priority: 0 }, ready_time: 0 };
        let ghost before = self@;
        self.queues[0].push_back(entry);
        proof {
            assert(self@.queues =~= before.queues.update(0, before.queues[0].push(entry)));
            assert forall|id: usize|
                #![trigger self@.occurrences(id)]
                self@.occurrences(id) == before.occurrences(id) + if id == task.id {
                    1int
                } else {
                    0int
                } by {
                lemma_count_in_levels_update(before.queues, 0, before.queues[0].push(entry), id, 16);
                lemma_count_in_push(before.queues[0], entry, id);
            }
        }
    }

    /// Takes the task that runs next: the first of the highest level on
    /// which a task waits. There is none if no task waits.
    pub fn fetch(&mut self) -> (r: Option<TaskHandle>)
        requires
            old(self)@.wf(),
        ensures
            final(self)@.wf(),
            final(self)@.timer == old(self)@.timer,
            old(self)@.first_busy_level(0) == PRIORITY_LEVEL ==> r is None && final(self)@ == old(self)@,
            old(self)@.first_busy_level(0) < PRIORITY_LEVEL ==> {
                let l = old(self)@.first_busy_level(0);
                &&& 0 <= l
                &&& old(self)@.queues[l].len() > 0
                &&& r == Some(old(self)@.queues[l][0].task)
                &&& r.unwrap().priority == l
                &&& final(self)@.queues == old(self)@.queues.update(
                    l,
                    old(self)@.queues[l].subrange(1, old(self)@.queues[l].len() as int),
                )
                &&& forall|id: usize|
                    #![trigger final(self)@.occurrences(id)]
                    final(self)@.occurrences(id) == old(self)@.occurrences(id) - if id
                        == r.unwrap().id {
                        1int
                    } else {
                        0int
                    }
            },
    {
        let ghost before = self@;
        let mut l: usize = 0;
        while l < PRIORITY_LEVEL
            invariant
                l <= PRIORITY_LEVEL,
                self@ == before,
                before == old(self)@,
                before.wf(),
                before.first_busy_level(0) == before.first_busy_level(l as int),
            decreases PRIORITY_LEVEL - l,
        {
            if self.queues[l].len() > 0 {
                let entry = self.queues[l].pop_front().unwrap();
                proof {
                    let rest = before.queues[l as int].subrange(
                        1,
                        before.queues[l as int].len() as int,
                    );
                    assert(self@.queues =~= before.queues.update(l as int, rest));
                    assert(before.queues[l as int][0].task.priority == l);
                    assert forall|id: usize|
                        #![trigger self@.occurrences(id)]
                        self@.occurrences(id) == before.occurrences(id) - if id == entry.task.id {
                            1int
                        } else {
                            0int
                        } by {
                        lemma_count_in_levels_update(before.queues, l as int, rest, id, 16);
                        lemma_count_in_pop_front(before.queues[l as int], id);
                    }
                    assert forall|k: int, i: int|
                        0 <= k < self@.queues.len() && 0 <= i < self@.queues[k].len() implies (
                    #[trigger] self@.queues[k][i]).task.priority == k by {
                        if k == l {
                            assert(self@.queues[k][i] == before.queues[k][i + 1]);
                        } else {
                            assert(self@.queues[k][i] == before.queues[k][i]);
                        }
                    }
                }
                return Some(entry.task);
            }
            l += 1;
        }
        None
    }

    /// Takes back a task that has used up its time slice. It waits one
    /// level below the level it was served on, or on the lowest level if it
    /// was served there, behind the tasks that wait there.
    pub fn low(&mut self, task: TaskHandle)
        requires
            old(self)@.wf(),
            task.priority < PRIORITY_LEVEL,
        ensures
            final(self)@.wf(),
            final(self)@.timer == old(self)@.timer,
            ({
                let level = if task.priority < PRIORITY_LEVEL - 1 {
                    task.priority + 1
                } else {
                    task.priority as int
                };
                final(self)@.queues == old(self)@.queues.update(
                    level,
                    old(self)@.queues[level].push(
                        QueueEntry {
                            task: TaskHandle { id: task.id, priority: level as usize },
                            ready_time: 0,
                        },
                    ),
                )
            }),
            forall|id: usize|
                #![trigger final(self)@.occurrences(id)]
                final(self)@.occurrences(id) == old(self)@.occurrences(id) + if id == task.id {
                    1int
                } else {
                    0int
                },
    {
        let mut priority = task.priority;
        if priority < PRIORITY_LEVEL - 1 {
            priority += 1;
        }
        let entry = QueueEntry { task: TaskHandle { id: task.id, priority }, ready_time: 0 };
        let ghost before = self@;
        self.queues[priority].push_back(entry);
        proof {
            let level = priority as int;
            assert(self@.queues =~= before.queues.update(level, before.queues[level].push(entry)));
            assert forall|id: usize|
                #![trigger self@.occurrences(id)]
                self@.occurrences(id) == before.occurrences(id) + if id == task.id {
                    1int
                } else {
                    0int
                } by {
                lemma_count_in_levels_update(
                    before.queues,
                    level,
                    before.queues[level].push(entry),
                    id,
                    16,
                );
                lemma_count_in_push(before.queues[level], entry, id);
            }
        }
    }

    /// Counts one tick of the clock for every task that waits.
    pub fn tick(&mut self)
        requires
            old(self)@.wf(),
        ensures
            final(self)@.wf(),
            final(self)@.timer == old(self)@.timer,
            final(self)@.queues.len() == old(self)@.queues.len(),
            forall|l: int|
                0 <= l < PRIORITY_LEVEL ==> #[trigger] final(self)@.queues[l] == old(self)@.queues[l].map_values(aging()),
            forall|id: usize|
                #![trigger final(self)@.occurrences(id)]
                final(self)@.occurrences(id) == old(self)@.occurrences(id),
    {
        let ghost before = self@;
        let mut l: usize = 0;
        while l < PRIORITY_LEVEL
            invariant
                l <= PRIORITY_LEVEL,
                before.wf(),
                before == old(self)@,
                self@.timer == before.timer,
                self@.queues.len() == PRIORITY_LEVEL,
                forall|k: int|
                    0 <= k < l ==> #[trigger] self@.queues[k] == before.queues[k].map_values(
                        aging(),
                    ),
                forall|k: int| l <= k < PRIORITY_LEVEL ==> #[trigger] self@.queues[k] == before.queues[k],
            decreases PRIORITY_LEVEL - l,
        {
            let n = self.queues[l].len();
            let ghost start = self@;
            let mut i: usize = 0;
            proof {
                let q = before.queues[l as int];
                assert(self@.queues[l as int] == q);
                assert(q.take(0).map_values(aging()) =~= Seq::<QueueEntry>::empty());
                assert(q =~= q.subrange(0, n as int) + q.take(0).map_values(aging()));
            }
            while i < n
                invariant
                    i <= n,
                    l < PRIORITY_LEVEL,
                    n == before.queues[l as int].len(),
                    self@.timer == before.timer,
                    self@.queues.len() == PRIORITY_LEVEL,
                    forall|k: int|
                        0 <= k < PRIORITY_LEVEL && k != l ==> #[trigger] self@.queues[k]
                            == start.queues[k],
                    self@.queues[l as int] == before.queues[l as int].subrange(i as int, n as int)
                        + before.queues[l as int].take(i as int).map_values(aging()),
                decreases n - i,
            {
                let ghost cur = self@;
                let entry = self.queues[l].pop_front().unwrap();
                let aged = QueueEntry {
                    task: entry.task,
                    ready_time: if entry.ready_time < usize::MAX {
                        entry.ready_time + 1
                    } else {
                        entry.ready_time
                    },
                };
                self.queues[l].push_back(aged);
                proof {
                    let q = before.queues[l as int];
                    assert(entry == q[i as int]);
                    assert(aged == aged_entry(entry));
                    assert(q.take(i + 1).map_values(aging()) =~= q.take(i as int).map_values(
                        aging(),
                    ).push(aged));
                    assert(self@.queues[l as int] =~= q.subrange(i + 1, n as int) + q.take(
                        i + 1,
                    ).map_values(aging()));
                    assert forall|k: int|
                        0 <= k < PRIORITY_LEVEL && k != l implies #[trigger] self@.queues[k]
                        == start.queues[k] by {
                        assert(self@.queues[k] == cur.queues[k]);
                    }
                }
                i += 1;
            }
            proof {
                let q = before.queues[l as int];
                assert(q.take(n as int) =~= q);
                assert(self@.queues[l as int] =~= q.map_values(aging()));
            }
            l += 1;
        }
        proof {
            assert forall|id: usize|
                #![trigger self@.occurrences(id)]
                self@.occurrences(id) == before.occurrences(id) by {
                lemma_count_in_levels_aged(before.queues, self@.queues, id, 16);
            }
            assert forall|k: int, i: int|
                0 <= k < self@.queues.len() && 0 <= i < self@.queues[k].len() implies (
            #[trigger] self@.queues[k][i]).task.priority == k by {
                assert(self@.queues[k] == before.queues[k].map_values(aging()));
                assert(before.queues[k][i].task.priority == k);
            }
        }
    }

    /// The shortest and the longest time that a waiting task has waited.
    /// There is none if no task waits.
    pub fn calculate_ready_time(&self) -> (r: Option<(usize, usize)>)
        requires
            self@.wf(),
        ensures
            r is None <==> self@.all().len() == 0,
            r matches Some(times) ==> is_shortest_wait(self@.all(), times.0) && is_longest_wait(
                self@.all(),
                times.1,
            ),
    {
        let mut shortest: Option<usize> = None;
        let mut longest: Option<usize> = None;
        let ghost mut seen: Seq<QueueEntry> = Seq::empty();
        let mut l: usize = 0;
        proof {
            lemma_flatten_take_step(self@.queues, 0);
        }
        while l < PRIORITY_LEVEL
            invariant
                l <= PRIORITY_LEVEL,
                self@.wf(),
                seen == self@.queues.take(l as int).flatten(),
                shortest is None <==> seen.len() == 0,
                longest is None <==> seen.len() == 0,
                shortest matches Some(s) ==> is_shortest_wait(seen, s),
                longest matches Some(t) ==> is_longest_wait(seen, t),
            decreases PRIORITY_LEVEL - l,
        {
            let n = self.queues[l].len();
            let ghost base = seen;
            let mut i: usize = 0;
            while i < n
                invariant
                    i <= n,
                    l < PRIORITY_LEVEL,
                    self@.wf(),
                    n == self@.queues[l as int].len(),
                    seen == base + self@.queues[l as int].take(i as int),
                    shortest is None <==> seen.len() == 0,
                    longest is None <==> seen.len() == 0,
                    shortest matches Some(s) ==> is_shortest_wait(seen, s),
                    longest matches Some(t) ==> is_longest_wait(seen, t),
                decreases n - i,
            {
                let time = self.queues[l][i].ready_time;
                let ghost entry = self@.queues[l as int][i as int];
                let ghost next = seen.push(entry);
                proof {
                    assert(self@.queues[l as int].take(i + 1) =~= self@.queues[l as int].take(
                        i as int,
                    ).push(entry));
                    assert(next =~= base + self@.queues[l as int].take(i + 1));
                    assert(next[next.len() - 1] == entry);
                    assert forall|k: int| 0 <= k < seen.len() implies #[trigger] next[k] == seen[k] by {}
                }
                let lower = match shortest {
                    None => true,
                    Some(min_key) => time < min_key,
                };
                if lower {
                    shortest = Some(time);
                } else {
                    proof {
                        let s = shortest.unwrap();
                        let w = choose|w: int| 0 <= w < seen.len() && (#[trigger] seen[w]).ready_time == s;
                        assert(next[w].ready_time == s);
                    }
                }
                let higher = match longest {
                    None => true,
                    Some(max_key) => time > max_key,
                };
                if higher {
                    longest = Some(time);
                } else {
                    proof {
                        let t = longest.unwrap();
                        let w = choose|w: int| 0 <= w < seen.len() && (#[trigger] seen[w]).ready_time == t;
                        assert(next[w].ready_time == t);
                    }
                }
                proof {
                    seen = next;
                }
                i += 1;
            }
            proof {
                assert(self@.queues[l as int].take(n as int) =~= self@.queues[l as int]);
                lemma_flatten_take_step(self@.queues, l as int);
            }
            l += 1;
        }
        proof {
            lemma_flatten_take_step(self@.queues, 0);
        }
        match (shortest, longest) {
            (Some(s), Some(t)) => Some((s, t)),
            _ => None,
        }
    }

    /// Sweeps the queues: every waiting task is lifted by the number of
    /// levels that its wait above `shortest` is worth, the step between
    /// levels being the fifteenth part of the span from `shortest` to
    /// `longest`. On each level the tasks stand in the order in which they
    /// stood before, level by level. No task is lost and none is doubled,
    /// whatever the two waits are.
    pub fn update_priority(&mut self, shortest: usize, longest: usize)
        requires
            old(self)@.wf(),
        ensures
            final(self)@.wf(),
            final(self)@.timer == old(self)@.timer,
            final(self)@.queues == old(self)@.swept(shortest, longest),
            forall|id: usize|
                #![trigger final(self)@.occurrences(id)]
                final(self)@.occurrences(id) == old(self)@.occurrences(id),
    {
        let ghost before = self@;
        let mut new_queues = empty_levels();
        let delta = if longest > shortest {
            (longest - shortest) / (PRIORITY_LEVEL - 1)
        } else {
            0
        };
        let ghost mut seen: Seq<QueueEntry> = Seq::empty();
        let mut l: usize = 0;
        proof {
            lemma_flatten_take_step(before.queues, 0);
            assert forall|p: int| 0 <= p < PRIORITY_LEVEL implies (#[trigger] new_queues@[p])@
                == swept_level(seen, shortest, longest, p) by {
                assert(seen.map_values(sweep_of(shortest, longest)) =~= Seq::<QueueEntry>::empty());
                assert(new_queues@[p]@ =~= Seq::<QueueEntry>::empty());
            }
            assert forall|id: usize|
                count_in_levels(
                    new_queues@.map_values(|q: VecDeque<QueueEntry>| q@),
                    id,
                    16,
                ) == #[trigger] count_in(seen, id) by {
                lemma_count_in_levels_empty(
                    new_queues@.map_values(|q: VecDeque<QueueEntry>| q@),
                    id,
                    16,
                );
            }
        }
        while l < PRIORITY_LEVEL
            invariant
                l <= PRIORITY_LEVEL,
                self@ == before,
                before.wf(),
                delta == step_of(shortest as int, longest as int),
                new_queues@.len() == PRIORITY_LEVEL,
                seen == before.queues.take(l as int).flatten(),
                forall|p: int|
                    0 <= p < PRIORITY_LEVEL ==> (#[trigger] new_queues@[p])@ == swept_level(
                        seen,
                        shortest,
                        longest,
                        p,
                    ),
                forall|p: int, i: int|
                    0 <= p < PRIORITY_LEVEL && 0 <= i < new_queues@[p]@.len() ==> (
                    #[trigger] new_queues@[p]@[i]).task.priority == p,
                forall|id: usize|
                    count_in_levels(
                        new_queues@.map_values(|q: VecDeque<QueueEntry>| q@),
                        id,
                        16,
                    ) == #[trigger] count_in(seen, id),
            decreases PRIORITY_LEVEL - l,
        {
            let n = self.queues[l].len();
            let ghost base = seen;
            let mut i: usize = 0;
            while i < n
                invariant
                    i <= n,
                    l < PRIORITY_LEVEL,
                    self@ == before,
                    before.wf(),
                    delta == step_of(shortest as int, longest as int),
                    n == before.queues[l as int].len(),
                    new_queues@.len() == PRIORITY_LEVEL,
                    base == before.queues.take(l as int).flatten(),
                    seen == base + before.queues[l as int].take(i as int),
                    forall|p: int|
                        0 <= p < PRIORITY_LEVEL ==> (#[trigger] new_queues@[p])@ == swept_level(
                            seen,
                            shortest,
                            longest,
                            p,
                        ),
                    forall|p: int, i: int|
                        0 <= p < PRIORITY_LEVEL && 0 <= i < new_queues@[p]@.len() ==> (
                        #[trigger] new_queues@[p]@[i]).task.priority == p,
                    forall|id: usize|
                        count_in_levels(
                            new_queues@.map_values(|q: VecDeque<QueueEntry>| q@),
                            id,
                            16,
                        ) == #[trigger] count_in(seen, id),
                decreases n - i,
            {
                let entry = self.queues[l][i];
                proof {
                    assert(entry == before.queues[l as int][i as int]);
                    assert(entry.task.priority == l);
                }
                let waited = if entry.ready_time > shortest {
                    entry.ready_time - shortest
                } else {
                    0
                };
                let upper_level = if waited == 0 {
                    0
                } else if delta == 0 {
                    entry.task.priority
                } else {
                    proof {
                        lemma_div_ceil(waited as int, delta as int);
                    }
                    if waited % delta > 0 {
                        waited / delta + 1
                    } else {
                        waited / delta
                    }
                };
                let mut prio: usize = 0;
                if entry.task.priority > upper_level {
                    prio = entry.task.priority - upper_level;
                }
                let moved = QueueEntry {
                    task: TaskHandle { id: entry.task.id, priority: prio },
                    ready_time: entry.ready_time,
                };
                assert(moved == swept_entry(entry, shortest, longest));
                let ghost views = new_queues@.map_values(|q: VecDeque<QueueEntry>| q@);
                let ghost next = seen.push(entry);
                new_queues[prio].push_back(moved);
                proof {
                    let q = before.queues[l as int];
                    assert(q.take(i + 1) =~= q.take(i as int).push(entry));
                    assert(next =~= base + q.take(i + 1));
                    assert forall|p: int| 0 <= p < PRIORITY_LEVEL implies (
                    #[trigger] new_queues@[p])@ == swept_level(next, shortest, longest, p) by {
                        lemma_swept_level_push(seen, entry, shortest, longest, p);
                    }
                    let views2 = new_queues@.map_values(|q: VecDeque<QueueEntry>| q@);
                    assert(views2 =~= views.update(prio as int, views[prio as int].push(moved)));
                    assert forall|id: usize|
                        count_in_levels(views2, id, 16) == #[trigger] count_in(next, id) by {
                        lemma_count_in_levels_update(
                            views,
                            prio as int,
                            views[prio as int].push(moved),
                            id,
                            16,
                        );
                        lemma_count_in_push(views[prio as int], moved, id);
                        lemma_count_in_push(seen, entry, id);
                        assert(count_in_levels(views, id, 16) == count_in(seen, id));
                    }
                    seen = next;
                }
                i += 1;
            }
            proof {
                assert(before.queues[l as int].take(n as int) =~= before.queues[l as int]);
                lemma_flatten_take_step(before.queues, l as int);
            }
            l += 1;
        }
        self.queues = new_queues;
        proof {
            lemma_flatten_take_step(before.queues, 0);
            assert(seen == before.all());
            assert(self@.queues =~= before.swept(shortest, longest));
            assert forall|id: usize|
                #![trigger self@.occurrences(id)]
                self@.occurrences(id) == before.occurrences(id) by {
                lemma_count_in_flatten(before.queues, id, 16);
                assert(count_in_levels(self@.queues, id, 16) == count_in(seen, id));
            }
        }
    }

    /// Counts one call, and at every `TIMER_LIMIT`-th call sweeps the
    /// queues by the shortest and the longest wait found in them.
    pub fn check_priority(&mut self)
        requires
            old(self)@.wf(),
        ensures
            final(self)@.wf(),
            old(self)@.timer + 1 < TIMER_LIMIT ==> final(self)@.timer == old(self)@.timer + 1
                && final(self)@.queues == old(self)@.queues,
            old(self)@.timer + 1 == TIMER_LIMIT ==> final(self)@.timer == 0,
            old(self)@.timer + 1 == TIMER_LIMIT && old(self)@.all().len() == 0 ==> final(self)@.queues == old(self)@.queues,
            old(self)@.timer + 1 == TIMER_LIMIT && old(self)@.all().len() > 0 ==> exists|
                shortest: usize,
                longest: usize,
            |
                is_shortest_wait(old(self)@.all(), shortest) && is_longest_wait(
                    old(self)@.all(),
                    longest,
                ) && #[trigger] old(self)@.swept(shortest, longest) == final(self)@.queues,
            forall|id: usize|
                #![trigger final(self)@.occurrences(id)]
                final(self)@.occurrences(id) == old(self)@.occurrences(id),
    {
        self.timer += 1;
        if self.timer == TIMER_LIMIT {
            self.timer = 0;
            let ghost cleared = self@;
            assert(cleared.queues == old(self)@.queues);
            if let Some((shortest, longest)) = self.calculate_ready_time() {
                proof {
                    let all = self@.all();
                    let w = choose|w: int| 0 <= w < all.len() && (#[trigger] all[w]).ready_time == shortest;
                    assert(all[w].ready_time <= longest);
                }
                self.update_priority(shortest, longest);
                assert(old(self)@.swept(shortest, longest) == self@.queues);
            }
        }
    }

    /// The number of tasks that wait on level `level`.
    pub fn level_len(&self, level: usize) -> (r: usize)
        requires
            self@.wf(),
            level < PRIORITY_LEVEL,
        ensures
            r == self@.queues[level as int].len(),
    {
        self.queues[level].len()
    }

    /// The entry at place `i` of level `level`.
    pub fn entry(&self, level: usize, i: usize) -> (r: QueueEntry)
        requires
            self@.wf(),
            level < PRIORITY_LEVEL,
            i < self@.queues[level as int].len(),
        ensures
            r == self@.queues[level as int][i as int],
    {
        self.queues[level][i]
    }
}

/// Empty levels have no entries.
proof fn lemma_flatten_of_empty_levels(queues: Seq<Seq<QueueEntry>>, n: int)
    requires
        0 <= n <= queues.len(),
        forall|l: int| 0 <= l < n ==> (#[trigger] queues[l]).len() == 0,
    ensures
        queues.take(n).flatten().len() == 0,
    decreases n,
{
    if n == 0 {
        assert(queues.take(0) =~= Seq::<Seq<QueueEntry>>::empty());
    } else {
        lemma_flatten_of_empty_levels(queues, n - 1);
        lemma_flatten_take_step(queues, n - 1);
        assert(queues[n - 1].len() == 0);
    }
}


/// A tick of the clock keeps the count of each task.
proof fn lemma_count_in_levels_aged(
    before: Seq<Seq<QueueEntry>>,
    after: Seq<Seq<QueueEntry>>,
    id: usize,
    n: int,
)
    requires
        0 <= n <= before.len(),
        n <= after.len(),
        forall|l: int| 0 <= l < n ==> #[trigger] after[l] == before[l].map_values(aging()),
    ensures
        count_in_levels(after, id, n) == count_in_levels(before, id, n),
    decreases n,
{
    if n > 0 {
        lemma_count_in_levels_aged(before, after, id, n - 1);
        assert(after[n - 1] == before[n - 1].map_values(aging()));
        lemma_count_in_map(before[n - 1], aging(), id);
    }
}

/// An entry of a queue is an entry of the list of all entries.
pub proof fn lemma_entry_of_all(queues: Seq<Seq<QueueEntry>>, l: int, i: int)
    requires
        0 <= l < queues.len(),
        0 <= i < queues[l].len(),
    ensures
        exists|k: int| 0 <= k < queues.flatten().len() && #[trigger] queues.flatten()[k] == queues[l][i],
    decreases queues.len(),
{
    if l == 0 {
        let k = i;
        assert(queues.flatten() == queues.first() + queues.drop_first().flatten());
        assert(queues.flatten()[k] == queues[l][i]);
    } else {
        lemma_entry_of_all(queues.drop_first(), l - 1, i);
        let rest = queues.drop_first().flatten();
        let k0 = choose|k: int| 0 <= k < rest.len() && #[trigger] rest[k] == queues.drop_first()[l - 1][i];
        let k = queues.first().len() + k0;
        assert(queues.flatten() == queues.first() + rest);
        assert(queues.flatten()[k] == rest[k0]);
    }
}

/// Division that rounds up, from the quotient and the remainder.
pub proof fn lemma_div_ceil(x: int, d: int)
    requires
        x >= 0,
        d > 0,
    ensures
        (x + d - 1) / d == if x % d > 0 {
            x / d + 1
        } else {
            x / d
        },
        x / d <= x,
        x % d > 0 ==> x / d < x,
{
    assert((x + d - 1) / d == if x % d > 0 {
        x / d + 1
    } else {
        x / d
    }) by (nonlinear_arith)
        requires
            x >= 0,
            d > 0,
    ;
    assert(x / d <= x && (x % d > 0 ==> x / d < x)) by (nonlinear_arith)
        requires
            x >= 0,
            d > 0,
    ;
}

/// A sweep puts a task that has waited longest, and longer than some
/// other task, on level 0.
pub proof fn lemma_sweep_promotes_longest_waiting(
    s: FeedbackQueueState,
    level: int,
    i: int,
    shortest: usize,
    longest: usize,
)
    requires
        s.wf(),
        0 <= level < PRIORITY_LEVEL,
        0 <= i < s.queues[level].len(),
        s.queues[level][i].ready_time == longest,
        shortest < longest,
    ensures
        swept_entry(s.queues[level][i], shortest, longest).task.id == s.queues[level][i].task.id,
        swept_entry(s.queues[level][i], shortest, longest).task.priority == 0,
        s.swept(shortest, longest)[0].contains(swept_entry(s.queues[level][i], shortest, longest)),
{
    let e = s.queues[level][i];
    let f = sweep_of(shortest, longest);
    let all = s.all();
    lemma_longest_waiting_is_promoted(e, shortest, longest);
    lemma_entry_of_all(s.queues, level, i);
    let k = choose|k: int| 0 <= k < all.len() && #[trigger] all[k] == e;
    let mapped = all.map_values(f);
    assert(mapped[k] == f(e));
    assert(mapped.contains(f(e)));
    assert(on_level(0)(f(e)));
    mapped.lemma_filter_contains_rev(on_level(0), f(e));
    assert(s.swept(shortest, longest)[0] == swept_level(all, shortest, longest, 0));
}

/// The ready queue of a kernel that schedules by multi-level feedback.
pub struct TaskManagerMlfq {
    ready_queue: FeedbackQueue,
}

impl View for TaskManagerMlfq {
    type V = FeedbackQueueState;

    closed spec fn view(&self) -> FeedbackQueueState {
        self.ready_queue@
    }
}

impl TaskManagerMlfq {
    /// A ready queue in which no task waits.
    pub fn new() -> (m: Self)
        ensures
            m@.wf(),
            m@.timer == 0,
            m@.all().len() == 0,
            forall|id: usize| m@.occurrences(id) == 0,
    {
        TaskManagerMlfq { ready_queue: FeedbackQueue::new() }
    }

    /// Adds a task to the ready queue, on level 0.
    pub fn add(&mut self, task: TaskHandle)
        requires
            old(self)@.wf(),
        ensures
            final(self)@.wf(),
            final(self)@.timer == old(self)@.timer,
            final(self)@.queues == old(self)@.queues.update(
                0,
                old(self)@.queues[0].push(
                    QueueEntry { task: TaskHandle { id: task.id, priority: 0 }, ready_time: 0 },
                ),
            ),
            forall|id: usize|
                #![trigger final(self)@.occurrences(id)]
                final(self)@.occurrences(id) == old(self)@.occurrences(id) + if id == task.id {
                    1int
                } else {
                    0int
                },
    {
        self.ready_queue.add(task);
    }

    /// Takes the task that runs next out of the ready queue.
    pub fn fetch(&mut self) -> (r: Option<TaskHandle>)
        requires
            old(self)@.wf(),
        ensures
            final(self)@.wf(),
            final(self)@.timer == old(self)@.timer,
            old(self)@.first_busy_level(0) == PRIORITY_LEVEL ==> r is None && final(self)@ == old(self)@,
            old(self)@.first_busy_level(0) < PRIORITY_LEVEL ==> {
                let l = old(self)@.first_busy_level(0);
                &&& 0 <= l
                &&& old(self)@.queues[l].len() > 0
                &&& r == Some(old(self)@.queues[l][0].task)
                &&& final(self)@.queues == old(self)@.queues.update(
                    l,
                    old(self)@.queues[l].subrange(1, old(self)@.queues[l].len() as int),
                )
                &&& forall|id: usize|
                    #![trigger final(self)@.occurrences(id)]
                    final(self)@.occurrences(id) == old(self)@.occurrences(id) - if id
                        == r.unwrap().id {
                        1int
                    } else {
                        0int
                    }
            },
    {
        self.ready_queue.fetch()
    }

    /// Called when a task is suspended: counts the call, and sweeps the
    /// queues at every `TIMER_LIMIT`-th call.
    pub fn check_priority(&mut self)
        requires
            old(self)@.wf(),
        ensures
            final(self)@.wf(),
            old(self)@.timer + 1 < TIMER_LIMIT ==> final(self)@.timer == old(self)@.timer + 1
                && final(self)@.queues == old(self)@.queues,
            old(self)@.timer + 1 == TIMER_LIMIT ==> final(self)@.timer == 0,
            old(self)@.timer + 1 == TIMER_LIMIT && old(self)@.all().len() == 0 ==> final(self)@.queues == old(self)@.queues,
            old(self)@.timer + 1 == TIMER_LIMIT && old(self)@.all().len() > 0 ==> exists|
                shortest: usize,
                longest: usize,
            |
                is_shortest_wait(old(self)@.all(), shortest) && is_longest_wait(
                    old(self)@.all(),
                    longest,
                ) && #[trigger] old(self)@.swept(shortest, longest) == final(self)@.queues,
            forall|id: usize|
                #![trigger final(self)@.occurrences(id)]
                final(self)@.occurrences(id) == old(self)@.occurrences(id),
    {
        self.ready_queue.check_priority();
    }
}

} // verus!
