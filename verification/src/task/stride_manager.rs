//! The ready queue of the stride discipline: the task with the least
//! stride runs next and advances by its pass.

use crate::task::stride::stride_after;
use crate::task::stride::stride_precedes;
use crate::task::stride::wrap_distance;
use crate::task::stride::Stride;
use crate::task::stride::BIG_STRIDE;
use vstd::prelude::*;

verus! {

/// A task that waits to run, with its stride and with the pass that its
/// stride advances by when it is selected.
#[derive(Debug, Clone, Copy, PartialEq, Eq, Structural)]
pub struct StrideTask {
    pub task: usize,
    pub stride: usize,
    pub pass: usize,
}

/// The pass of a task of weight `weight`: the heavier the task, the
/// smaller its pass and the more often it runs.
pub fn pass_of(weight: usize) -> (pass: usize)
    requires
        weight > 0,
    ensures
        pass == BIG_STRIDE / weight,
        weight >= 2 ==> pass <= BIG_STRIDE / 2,
{
    proof {
        if weight >= 2 {
            assert(BIG_STRIDE / weight <= BIG_STRIDE / 2) by (nonlinear_arith)
                requires
                    weight >= 2,
            ;
        }
    }
    BIG_STRIDE / weight
}

/// The place among the first `n` waiting tasks that a scan from the front
/// selects: it moves on to a later task only if the stride of that task
/// comes before the stride of the task selected so far.
pub open spec fn selected(ready: Seq<StrideTask>, n: int) -> int
    decreases n,
{
    if n <= 1 {
        0
    } else {
        let best = selected(ready, n - 1);
        if stride_precedes(ready[n - 1].stride, ready[best].stride) {
            n - 1
        } else {
            best
        }
    }
}

/// All strides lie on one arc of the circle that begins at `base` and is
/// no longer than half of `BIG_STRIDE`.
pub open spec fn in_window(ready: Seq<StrideTask>, base: usize) -> bool {
    forall|j: int|
        0 <= j < ready.len() ==> wrap_distance(base, (#[trigger] ready[j]).stride) <= BIG_STRIDE / 2
}

/// With all strides in a window, the task selected is the first of those
/// with the least stride: no stride comes before its stride, and its
/// stride comes before the stride of every task in front of it.
pub proof fn lemma_selected_is_least(ready: Seq<StrideTask>, base: usize, n: int)
    requires
        0 < n <= ready.len(),
        in_window(ready, base),
    ensures
        0 <= selected(ready, n) < n,
        forall|j: int|
            0 <= j < n ==> !stride_precedes(
                (#[trigger] ready[j]).stride,
                ready[selected(ready, n)].stride,
            ),
        forall|j: int|
            0 <= j < selected(ready, n) ==> stride_precedes(
                ready[selected(ready, n)].stride,
                (#[trigger] ready[j]).stride,
            ),
    decreases n,
{
    if n > 1 {
        lemma_selected_is_least(ready, base, n - 1);
        let best = selected(ready, n - 1);
        let k = selected(ready, n);
        assert(wrap_distance(base, ready[n - 1].stride) <= BIG_STRIDE / 2);
        assert(wrap_distance(base, ready[best].stride) <= BIG_STRIDE / 2);
        assert forall|j: int| 0 <= j < n implies !stride_precedes(
            (#[trigger] ready[j]).stride,
            ready[k].stride,
        ) by {
            assert(wrap_distance(base, ready[j].stride) <= BIG_STRIDE / 2);
            if j < n - 1 {
                assert(!stride_precedes(ready[j].stride, ready[best].stride));
            }
        }
        assert forall|j: int| 0 <= j < k implies stride_precedes(
            ready[k].stride,
            (#[trigger] ready[j]).stride,
        ) by {
            assert(wrap_distance(base, ready[j].stride) <= BIG_STRIDE / 2);
            if k == n - 1 {
                assert(!stride_precedes(ready[j].stride, ready[best].stride));
            }
        }
    }
}

/// The task as it leaves the processor: its stride advanced by its pass.
pub open spec fn advanced(t: StrideTask) -> StrideTask {
    StrideTask { task: t.task, stride: stride_after(t.stride, t.pass), pass: t.pass }
}

/// The queue after one round: the selected task is taken out, advances by
/// its pass and goes behind the tasks that wait.
pub open spec fn after_round(ready: Seq<StrideTask>) -> Seq<StrideTask> {
    if ready.len() == 0 {
        ready
    } else {
        let k = selected(ready, ready.len() as int);
        ready.remove(k).push(advanced(ready[k]))
    }
}

/// The queue after `n` rounds.
pub open spec fn after_rounds(ready: Seq<StrideTask>, n: nat) -> Seq<StrideTask>
    decreases n,
{
    if n == 0 {
        ready
    } else {
        after_round(after_rounds(ready, (n - 1) as nat))
    }
}

/// Whether a round on the queue selects the task `task`.
pub open spec fn selects(ready: Seq<StrideTask>, task: usize) -> bool {
    ready.len() > 0 && ready[selected(ready, ready.len() as int)].task == task
}

/// In how many of the first `n` rounds the task `task` is selected.
pub open spec fn times_selected(ready: Seq<StrideTask>, task: usize, n: nat) -> nat
    decreases n,
{
    if n == 0 {
        0
    } else {
        let earlier = times_selected(ready, task, (n - 1) as nat);
        if selects(after_rounds(ready, (n - 1) as nat), task) {
            earlier + 1
        } else {
            earlier
        }
    }
}

/// The stride with which the task `task` waits in a queue of two tasks.
pub open spec fn stride_in(ready: Seq<StrideTask>, task: usize) -> usize {
    if ready[0].task == task {
        ready[0].stride
    } else {
        ready[1].stride
    }
}

/// By how much the first of two tasks is ahead of the second after `n`
/// rounds: the rounds of each, multiplied by its pass.
pub open spec fn lead(a: StrideTask, b: StrideTask, n: nat) -> int {
    (times_selected(seq![a, b], a.task, n) as int) * (a.pass as int) - (times_selected(
        seq![a, b],
        b.task,
        n,
    ) as int) * (b.pass as int)
}

/// What holds of a queue of two tasks after every round: both wait with
/// their passes, each round went to one of them, and the strides lie as
/// far apart on the circle as the lead says.
spec fn shared_fairly(a: StrideTask, b: StrideTask, n: nat) -> bool {
    let q = after_rounds(seq![a, b], n);
    let d = lead(a, b, n);
    let sa = stride_in(q, a.task);
    let sb = stride_in(q, b.task);
    &&& q.len() == 2
    &&& (q[0].task == a.task && q[1].task == b.task && q[0].pass == a.pass && q[1].pass
        == b.pass) || (q[0].task == b.task && q[1].task == a.task && q[0].pass == b.pass
        && q[1].pass == a.pass)
    &&& times_selected(seq![a, b], a.task, n) + times_selected(seq![a, b], b.task, n) == n
    &&& -b.pass <= d <= a.pass
    &&& d >= 0 ==> wrap_distance(sb, sa) == d
    &&& d <= 0 ==> wrap_distance(sa, sb) == -d
}

/// One round of two tasks, seen from the task that runs: it was not
/// ahead, and after the round it is ahead by at most its pass.
proof fn lemma_lead_step(sa: usize, sb: usize, pa: usize, pb: usize, d: int)
    requires
        0 < pa <= BIG_STRIDE / 2,
        0 < pb <= BIG_STRIDE / 2,
        -pb <= d <= pa,
        d >= 0 ==> wrap_distance(sb, sa) == d,
        d <= 0 ==> wrap_distance(sa, sb) == -d,
        !stride_precedes(sb, sa),
    ensures
        d <= 0,
        d + pa >= 0 ==> wrap_distance(sb, stride_after(sa, pa)) == d + pa,
        d + pa <= 0 ==> wrap_distance(stride_after(sa, pa), sb) == -(d + pa),
{
}

proof fn lemma_shared_fairly(a: StrideTask, b: StrideTask, n: nat)
    requires
        a.task != b.task,
        a.stride == b.stride,
        0 < a.pass <= BIG_STRIDE / 2,
        0 < b.pass <= BIG_STRIDE / 2,
    ensures
        shared_fairly(a, b, n),
    decreases n,
{
    let start = seq![a, b];
    if n == 0 {
        assert(after_rounds(start, 0) == start);
        assert(times_selected(start, a.task, 0) == 0);
        assert(times_selected(start, b.task, 0) == 0);
        assert(lead(a, b, 0) == 0);
    } else {
        let m = (n - 1) as nat;
        lemma_shared_fairly(a, b, m);
        let q = after_rounds(start, m);
        let ca = times_selected(start, a.task, m) as int;
        let cb = times_selected(start, b.task, m) as int;
        let pa = a.pass as int;
        let pb = b.pass as int;
        let d = lead(a, b, m);
        let sa = stride_in(q, a.task);
        let sb = stride_in(q, b.task);
        assert(d == ca * pa - cb * pb);
        assert(selected(q, 1) == 0);
        let k = selected(q, 2);
        assert(k == if stride_precedes(q[1].stride, q[0].stride) {
            1int
        } else {
            0int
        });
        let next = after_round(q);
        assert(next == after_rounds(start, n));
        assert(next.len() == 2);
        assert(next[0] == q[1 - k]);
        assert(next[1] == advanced(q[k]));
        if q[k].task == a.task {
            assert(selects(q, a.task) && !selects(q, b.task));
            assert(times_selected(start, a.task, n) == ca + 1);
            assert(times_selected(start, b.task, n) == cb);
            assert((ca + 1) * pa == ca * pa + pa) by (nonlinear_arith);
            assert(lead(a, b, n) == d + pa);
            lemma_lead_step(sa, sb, a.pass, b.pass, d);
            assert(stride_in(next, a.task) == stride_after(sa, a.pass));
            assert(stride_in(next, b.task) == sb);
        } else {
            assert(q[k].task == b.task);
            assert(selects(q, b.task) && !selects(q, a.task));
            assert(times_selected(start, b.task, n) == cb + 1);
            assert(times_selected(start, a.task, n) == ca);
            assert((cb + 1) * pb == cb * pb + pb) by (nonlinear_arith);
            assert(lead(a, b, n) == d - pb);
            lemma_lead_step(sb, sa, b.pass, a.pass, -d);
            assert(stride_in(next, b.task) == stride_after(sb, b.pass));
            assert(stride_in(next, a.task) == sa);
        }
    }
}

/// Two tasks that start with the same stride share the processor by their
/// passes. After any number of rounds each round has gone to one of the
/// two, and the rounds of the one multiplied by its pass differ from the
/// rounds of the other multiplied by its pass by at most one pass.
pub proof fn lemma_two_tasks_share_by_their_passes(a: StrideTask, b: StrideTask, n: nat)
    requires
        a.task != b.task,
        a.stride == b.stride,
        0 < a.pass <= BIG_STRIDE / 2,
        0 < b.pass <= BIG_STRIDE / 2,
    ensures
        times_selected(seq![a, b], a.task, n) + times_selected(seq![a, b], b.task, n) == n,
        -b.pass <= lead(a, b, n) <= a.pass,
{
    lemma_shared_fairly(a, b, n);
}

/// Two tasks whose weights are as one to two, and that start with the same
/// stride, run as one to two: of `n` rounds the lighter task has a third
/// and the heavier task two thirds, each give or take one round. The
/// weights must be at least 2, so that no pass is longer than half of
/// `BIG_STRIDE`, and the rounds fewer than the smaller pass, since the
/// passes are whole numbers and need not be as two to one exactly.
pub proof fn lemma_weights_one_to_two_share_one_to_two(
    a: StrideTask,
    b: StrideTask,
    weight: usize,
    n: nat,
)
    requires
        a.task != b.task,
        a.stride == b.stride,
        2 <= weight,
        2 * weight <= usize::MAX,
        a.pass == BIG_STRIDE / weight,
        b.pass == BIG_STRIDE / ((2 * weight) as usize),
        n < b.pass,
    ensures
        times_selected(seq![a, b], a.task, n) + times_selected(seq![a, b], b.task, n) == n,
        n / 3 <= times_selected(seq![a, b], a.task, n) <= n / 3 + 1,
        2 * n / 3 - 1 <= times_selected(seq![a, b], b.task, n) <= 2 * n / 3 + 1,
{
    let ca = times_selected(seq![a, b], a.task, n) as int;
    let cb = times_selected(seq![a, b], b.task, n) as int;
    let pa = a.pass as int;
    let pb = b.pass as int;
    let w = weight as int;
    let big = BIG_STRIDE as int;
    assert(pa <= big / 2 && 2 * pb <= pa <= 2 * pb + 1) by (nonlinear_arith)
        requires
            2 <= w,
            big >= 0,
            pa == big / w,
            pb == big / (2 * w),
    ;
    lemma_shared_fairly(a, b, n);
    let x = 2 * ca - cb;
    let e = pa - 2 * pb;
    assert(ca * pa == 2 * (ca * pb) + e * ca) by (nonlinear_arith)
        requires
            pa == 2 * pb + e,
    ;
    assert(x * pb == 2 * (ca * pb) - cb * pb) by (nonlinear_arith)
        requires
            x == 2 * ca - cb,
    ;
    assert(e * ca <= ca && e * ca >= 0) by (nonlinear_arith)
        requires
            0 <= e <= 1,
            0 <= ca,
    ;
    assert(-2 * pb < x * pb);
    assert(x > -2) by (nonlinear_arith)
        requires
            -2 * pb < x * pb,
            pb > 0,
    ;
    if ca >= 1 {
        assert(e * ca >= e) by (nonlinear_arith)
            requires
                0 <= e <= 1,
                1 <= ca,
        ;
        assert(x * pb <= 2 * pb);
        assert(x <= 2) by (nonlinear_arith)
            requires
                x * pb <= 2 * pb,
                pb > 0,
        ;
    }
}

/// The ready queue of the stride discipline.
pub struct StrideManager {
    ready: Vec<StrideTask>,
}

impl View for StrideManager {
    type V = Seq<StrideTask>;

    closed spec fn view(&self) -> Seq<StrideTask> {
        self.ready@
    }
}

impl StrideManager {
    /// A ready queue in which no task waits.
    pub fn new() -> (m: Self)
        ensures
            m@ == Seq::<StrideTask>::empty(),
    {
        StrideManager { ready: Vec::new() }
    }

    /// Adds a task behind the tasks that wait.
    pub fn add(&mut self, task: StrideTask)
        ensures
            final(self)@ == old(self)@.push(task),
    {
        self.ready.push(task);
    }

    /// The number of waiting tasks.
    pub fn len(&self) -> (r: usize)
        ensures
            r == self@.len(),
    {
        self.ready.len()
    }

    /// Takes the selected task out of the queue and returns it with its
    /// stride advanced by its pass.
    pub fn fetch(&mut self) -> (r: Option<StrideTask>)
        ensures
            old(self)@.len() == 0 ==> r is None && final(self)@ == old(self)@,
            old(self)@.len() > 0 ==> {
                let k = selected(old(self)@, old(self)@.len() as int);
                &&& 0 <= k < old(self)@.len()
                &&& r == Some(
                    StrideTask {
                        task: old(self)@[k].task,
                        stride: stride_after(old(self)@[k].stride, old(self)@[k].pass),
                        pass: old(self)@[k].pass,
                    },
                )
                &&& final(self)@ == old(self)@.remove(k)
            },
    {
        if self.ready.len() == 0 {
            return None;
        }
        let mut best: usize = 0;
        let mut j: usize = 1;
        while j < self.ready.len()
            invariant
                1 <= j <= self.ready.len(),
                best < j,
                best == selected(self@, j as int),
                self@ == old(self)@,
            decreases self.ready.len() - j,
        {
            let candidate = Stride(self.ready[j].stride);
            let current = Stride(self.ready[best].stride);
            if candidate.precedes(&current) {
                best = j;
            }
            j += 1;
        }
        let entry = self.ready.remove(best);
        let mut stride = Stride(entry.stride);
        stride.add(entry.pass);
        Some(StrideTask { task: entry.task, stride: stride.0, pass: entry.pass })
    }
}

} // verus!
