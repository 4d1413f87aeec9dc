//! The banker: it keeps, for one class of resources of a process, what is
//! free, what each thread holds and what each thread waits for, and decides
//! whether a request would leave the threads in a state from which some of
//! them can never proceed.

use vstd::prelude::*;

verus! {

/// What a banker knows, as plain sequences. Rows of `allocation` are
/// threads, columns are resources.
#[verifier::ext_equal]
pub struct BankerState {
    /// Units of each resource that nobody holds.
    pub available: Seq<usize>,
    /// Units of each resource that each thread holds.
    pub allocation: Seq<Seq<usize>>,
    /// The resource that each thread has asked for and not yet got.
    pub need: Seq<Option<usize>>,
    /// Units of each resource that are in circulation.
    pub total_units: Seq<nat>,
}

/// A row of `m` zeros.
pub open spec fn zero_row(m: nat) -> Seq<usize> {
    Seq::new(m, |j: int| 0usize)
}

/// The units of resource `j` held by the first `n` threads together.
pub open spec fn column_sum(allocation: Seq<Seq<usize>>, j: int, n: int) -> int
    decreases n,
{
    if n <= 0 {
        0
    } else {
        column_sum(allocation, j, n - 1) + allocation[n - 1][j]
    }
}

/// The units of resource `j` held by those of the first `n` threads that
/// are not `pending`.
pub open spec fn released_sum(allocation: Seq<Seq<usize>>, pending: Seq<bool>, j: int, n: int) -> int
    decreases n,
{
    if n <= 0 {
        0
    } else {
        released_sum(allocation, pending, j, n - 1) + if pending[n - 1] {
            0int
        } else {
            allocation[n - 1][j] as int
        }
    }
}

/// How many of the first `n` threads are `pending`.
pub open spec fn pending_count(pending: Seq<bool>, n: int) -> int
    decreases n,
{
    if n <= 0 {
        0
    } else {
        pending_count(pending, n - 1) + if pending[n - 1] {
            1int
        } else {
            0int
        }
    }
}

/// The thread holds at least one unit of some resource.
pub open spec fn holds_any(row: Seq<usize>) -> bool {
    exists|j: int| 0 <= j < row.len() && #[trigger] row[j] != 0
}

impl BankerState {
    /// The number of thread slots.
    pub open spec fn thread_num(self) -> nat {
        self.allocation.len()
    }

    /// The number of resources.
    pub open spec fn lock_num(self) -> nat {
        self.available.len()
    }

    /// The units of resource `j` that the threads hold together.
    pub open spec fn held(self, j: int) -> int {
        column_sum(self.allocation, j, self.allocation.len() as int)
    }

    /// The state is consistent: the tables have matching sizes, a pending
    /// request names an existing resource, and for every resource the free
    /// units and the held units add up to the units in circulation.
    pub open spec fn wf(self) -> bool {
        &&& self.need.len() == self.allocation.len()
        &&& self.total_units.len() == self.available.len()
        &&& forall|i: int|
            0 <= i < self.allocation.len() ==> (#[trigger] self.allocation[i]).len()
                == self.available.len()
        &&& forall|i: int|
            0 <= i < self.need.len() ==> ((#[trigger] self.need[i]) matches Some(r) ==> r
                < self.available.len())
        &&& forall|j: int|
            0 <= j < self.available.len() ==> self.available[j] + self.held(j)
                == #[trigger] self.total_units[j]
        &&& forall|j: int|
            0 <= j < self.available.len() ==> #[trigger] self.total_units[j] <= usize::MAX
    }

    /// No thread waits for anything.
    pub open spec fn quiescent(self) -> bool {
        forall|i: int| 0 <= i < self.need.len() ==> (#[trigger] self.need[i]) is None
    }

    /// The state after thread `tid` is registered. A slot that is used
    /// again starts with nothing held and nothing asked for; what its
    /// earlier owner still held leaves circulation.
    pub open spec fn add_thread(self, tid: int) -> BankerState {
        if tid < self.need.len() {
            BankerState {
                allocation: self.allocation.update(tid, zero_row(self.available.len())),
                need: self.need.update(tid, None),
                total_units: Seq::new(
                    self.total_units.len(),
                    |j: int| (self.total_units[j] - self.allocation[tid][j]) as nat,
                ),
                ..self
            }
        } else {
            let grow = (tid + 1 - self.need.len()) as nat;
            BankerState {
                allocation: self.allocation + Seq::new(
                    grow,
                    |i: int| zero_row(self.available.len()),
                ),
                need: self.need + Seq::new(grow, |i: int| None::<usize>),
                ..self
            }
        }
    }

    /// The state after resource `lock_id` is created anew with `res_count`
    /// units by thread `tid`.
    pub open spec fn modify_lock(self, tid: int, lock_id: int, res_count: usize) -> BankerState {
        BankerState {
            available: self.available.update(lock_id, res_count),
            allocation: self.allocation.update(tid, self.allocation[tid].update(lock_id, 0)),
            need: self.need.update(tid, None),
            total_units: self.total_units.update(
                lock_id,
                (res_count + self.held(lock_id) - self.allocation[tid][lock_id]) as nat,
            ),
        }
    }

    /// The state after a new resource with `res_count` units is appended by
    /// thread `tid`; threads up to `tid` are registered on the way.
    pub open spec fn add_lock(self, tid: int, res_count: usize) -> BankerState {
        let n = if tid + 1 > self.allocation.len() {
            (tid + 1) as nat
        } else {
            self.allocation.len()
        };
        BankerState {
            available: self.available.push(res_count),
            allocation: Seq::new(
                n,
                |i: int|
                    if i < self.allocation.len() {
                        self.allocation[i].push(0)
                    } else {
                        zero_row(self.available.len() + 1)
                    },
            ),
            need: Seq::new(
                n,
                |i: int|
                    if i < self.need.len() {
                        self.need[i]
                    } else {
                        None
                    },
            ),
            total_units: self.total_units.push(res_count as nat),
        }
    }

    /// The state after thread `tid` was granted one unit of `lock_id`.
    pub open spec fn lock(self, tid: int, lock_id: int) -> BankerState {
        BankerState {
            available: self.available.update(lock_id, (self.available[lock_id] - 1) as usize),
            allocation: self.allocation.update(
                tid,
                self.allocation[tid].update(lock_id, (self.allocation[tid][lock_id] + 1) as usize),
            ),
            need: self.need.update(tid, None),
            ..self
        }
    }

    /// The state after thread `tid` gave one unit of `lock_id` back.
    pub open spec fn unlock(self, tid: int, lock_id: int) -> BankerState {
        BankerState {
            available: self.available.update(lock_id, (self.available[lock_id] + 1) as usize),
            allocation: self.allocation.update(
                tid,
                self.allocation[tid].update(lock_id, (self.allocation[tid][lock_id] - 1) as usize),
            ),
            ..self
        }
    }

    /// The state after thread `tid` asked for one unit of `lock_id`.
    pub open spec fn request(self, tid: int, lock_id: usize) -> BankerState {
        BankerState { need: self.need.update(tid, Some(lock_id)), ..self }
    }

    /// Every thread of `d` holds something and waits for a resource of
    /// which no unit is free and none is held outside `d`: whatever the
    /// other threads give back, no thread of `d` can ever proceed.
    pub open spec fn is_deadlocked_set(self, d: Set<int>) -> bool {
        &&& exists|i: int| d.contains(i)
        &&& forall|i: int| #[trigger]
            d.contains(i) ==> {
                &&& 0 <= i < self.allocation.len()
                &&& holds_any(self.allocation[i])
                &&& self.need[i] is Some
                &&& self.available[self.need[i].unwrap() as int] == 0
                &&& forall|k: int|
                    0 <= k < self.allocation.len() && !d.contains(k) ==> (
                    #[trigger] self.allocation[k])[self.need[i].unwrap() as int] == 0
            }
    }

    /// Thread `k` waits for a resource of which `work` has no unit.
    pub open spec fn is_blocked(self, k: int, work: Seq<usize>) -> bool {
        self.need[k] matches Some(r) && work[r as int] == 0
    }

    /// The state is unsafe: no order in which the threads run lets all of
    /// those that hold something finish.
    pub open spec fn is_unsafe(self) -> bool {
        exists|d: Set<int>| self.is_deadlocked_set(d)
    }
}

/// The units held of a resource depend on nothing but its column.
proof fn lemma_column_sum_congruent(a: Seq<Seq<usize>>, b: Seq<Seq<usize>>, j: int, n: int)
    requires
        forall|i: int| 0 <= i < n ==> (#[trigger] a[i])[j] == (#[trigger] b[i])[j],
    ensures
        column_sum(a, j, n) == column_sum(b, j, n),
    decreases n,
{
    if n > 0 {
        lemma_column_sum_congruent(a, b, j, n - 1);
        assert(a[n - 1][j] == b[n - 1][j]);
    }
}

/// Replacing the row of one thread changes the units held of a resource by
/// the difference of the two rows in its column.
proof fn lemma_column_sum_update(a: Seq<Seq<usize>>, tid: int, row: Seq<usize>, j: int, n: int)
    requires
        0 <= tid < a.len(),
        0 <= n <= a.len(),
    ensures
        column_sum(a.update(tid, row), j, n) == if tid < n {
            column_sum(a, j, n) - a[tid][j] + row[j]
        } else {
            column_sum(a, j, n)
        },
    decreases n,
{
    if n > 0 {
        lemma_column_sum_update(a, tid, row, j, n - 1);
    }
}

/// Threads that hold nothing of a resource add nothing to the units held.
proof fn lemma_column_sum_zero_tail(a: Seq<Seq<usize>>, j: int, n0: int, n: int)
    requires
        0 <= n0 <= n,
        forall|i: int| n0 <= i < n ==> (#[trigger] a[i])[j] == 0,
    ensures
        column_sum(a, j, n) == column_sum(a, j, n0),
    decreases n,
{
    if n > n0 {
        lemma_column_sum_zero_tail(a, j, n0, n - 1);
        assert(a[n - 1][j] == 0);
    }
}

/// No thread holds more of a resource than all threads together.
proof fn lemma_column_sum_bounds(a: Seq<Seq<usize>>, j: int, n: int, i: int)
    requires
        0 <= i < n,
    ensures
        0 <= a[i][j] <= column_sum(a, j, n),
    decreases n,
{
    lemma_column_sum_nonnegative(a, j, n - 1);
    if i < n - 1 {
        lemma_column_sum_bounds(a, j, n - 1, i);
    }
}

/// The first threads hold no more of a resource than all threads together.
proof fn lemma_column_sum_prefix(a: Seq<Seq<usize>>, j: int, k: int, n: int)
    requires
        0 <= k <= n,
    ensures
        0 <= column_sum(a, j, k) <= column_sum(a, j, n),
    decreases n,
{
    lemma_column_sum_nonnegative(a, j, k);
    if k < n {
        lemma_column_sum_prefix(a, j, k, n - 1);
    }
}

/// The units held are not negative.
proof fn lemma_column_sum_nonnegative(a: Seq<Seq<usize>>, j: int, n: int)
    ensures
        0 <= column_sum(a, j, n),
    decreases n,
{
    if n > 0 {
        lemma_column_sum_nonnegative(a, j, n - 1);
    }
}

/// The threads that are not pending hold no more than all threads together.
proof fn lemma_released_sum_bounds(a: Seq<Seq<usize>>, pending: Seq<bool>, j: int, n: int)
    ensures
        0 <= released_sum(a, pending, j, n) <= column_sum(a, j, n),
    decreases n,
{
    if n > 0 {
        lemma_released_sum_bounds(a, pending, j, n - 1);
    }
}

/// A thread that stops being pending adds what it holds to the units of the
/// threads that are not pending.
proof fn lemma_released_sum_finish(
    a: Seq<Seq<usize>>,
    pending: Seq<bool>,
    i: int,
    j: int,
    n: int,
)
    requires
        0 <= i < pending.len(),
        0 <= n <= pending.len(),
        pending[i],
    ensures
        released_sum(a, pending.update(i, false), j, n) == released_sum(a, pending, j, n) + if i
            < n {
            a[i][j] as int
        } else {
            0int
        },
    decreases n,
{
    if n > 0 {
        lemma_released_sum_finish(a, pending, i, j, n - 1);
    }
}

/// If no thread that is not pending holds a unit of a resource, the units of
/// these threads are zero.
proof fn lemma_released_sum_zero(a: Seq<Seq<usize>>, pending: Seq<bool>, j: int, n: int)
    requires
        forall|k: int| 0 <= k < n && !pending[k] ==> (#[trigger] a[k])[j] == 0,
    ensures
        released_sum(a, pending, j, n) == 0,
    decreases n,
{
    if n > 0 {
        lemma_released_sum_zero(a, pending, j, n - 1);
        if !pending[n - 1] {
            assert(a[n - 1][j] == 0);
        }
    }
}

/// A thread that is not pending holds no more than all such threads together.
proof fn lemma_released_sum_member(
    a: Seq<Seq<usize>>,
    pending: Seq<bool>,
    j: int,
    n: int,
    k: int,
)
    requires
        0 <= k < n,
        !pending[k],
    ensures
        a[k][j] <= released_sum(a, pending, j, n),
    decreases n,
{
    lemma_released_sum_bounds(a, pending, j, n - 1);
    if k < n - 1 {
        lemma_released_sum_member(a, pending, j, n - 1, k);
    }
}

/// The number of pending threads depends on nothing but the flags counted.
proof fn lemma_pending_count_congruent(p: Seq<bool>, q: Seq<bool>, n: int)
    requires
        forall|k: int| 0 <= k < n ==> p[k] == q[k],
    ensures
        pending_count(p, n) == pending_count(q, n),
    decreases n,
{
    if n > 0 {
        lemma_pending_count_congruent(p, q, n - 1);
    }
}

/// Among `n` threads between zero and `n` are pending.
proof fn lemma_pending_count_bounds(pending: Seq<bool>, n: int)
    requires
        0 <= n,
    ensures
        0 <= pending_count(pending, n) <= n,
    decreases n,
{
    if n > 0 {
        lemma_pending_count_bounds(pending, n - 1);
    }
}

/// A thread that stops being pending lowers the count by one.
proof fn lemma_pending_count_finish(pending: Seq<bool>, i: int, n: int)
    requires
        0 <= i < pending.len(),
        0 <= n <= pending.len(),
        pending[i],
    ensures
        pending_count(pending.update(i, false), n) == pending_count(pending, n) - if i < n {
            1int
        } else {
            0int
        },
    decreases n,
{
    if n > 0 {
        lemma_pending_count_finish(pending, i, n - 1);
    }
}

/// With a pending thread the count is positive.
proof fn lemma_pending_count_member(pending: Seq<bool>, n: int, k: int)
    requires
        0 <= k < n,
        pending[k],
    ensures
        pending_count(pending, n) > 0,
    decreases n,
{
    lemma_pending_count_bounds(pending, n - 1);
    if k < n - 1 {
        lemma_pending_count_member(pending, n - 1, k);
    }
}

/// With a positive count some thread is pending.
proof fn lemma_pending_count_positive(pending: Seq<bool>, n: int) -> (k: int)
    requires
        pending_count(pending, n) > 0,
    ensures
        0 <= k < n,
        pending[k],
    decreases n,
{
    if n <= 0 {
        0
    } else if pending[n - 1] {
        n - 1
    } else {
        lemma_pending_count_positive(pending, n - 1)
    }
}


/// Registering a thread keeps the state consistent.
pub proof fn lemma_add_thread_preserves_wf(s: BankerState, tid: int)
    requires
        s.wf(),
        0 <= tid,
    ensures
        s.add_thread(tid).wf(),
{
    let t = s.add_thread(tid);
    let n = s.allocation.len() as int;
    if tid < s.need.len() {
        assert forall|j: int| 0 <= j < t.available.len() implies t.available[j] + t.held(j)
            == #[trigger] t.total_units[j] && t.total_units[j] <= usize::MAX by {
            lemma_column_sum_update(s.allocation, tid, zero_row(s.available.len()), j, n);
            lemma_column_sum_bounds(s.allocation, j, n, tid);
            assert(s.total_units[j] <= usize::MAX);
        }
    } else {
        assert forall|j: int| 0 <= j < t.available.len() implies t.available[j] + t.held(j)
            == #[trigger] t.total_units[j] && t.total_units[j] <= usize::MAX by {
            lemma_column_sum_zero_tail(t.allocation, j, n, t.allocation.len() as int);
            lemma_column_sum_congruent(t.allocation, s.allocation, j, n);
            assert(s.total_units[j] <= usize::MAX);
        }
    }
}

/// Creating a resource anew under a used id keeps the state consistent,
/// as long as the units in circulation still fit in a machine word.
pub proof fn lemma_modify_lock_preserves_wf(s: BankerState, tid: int, lock_id: int, res_count: usize)
    requires
        s.wf(),
        0 <= tid < s.thread_num(),
        0 <= lock_id < s.lock_num(),
        res_count + s.held(lock_id) - s.allocation[tid][lock_id] <= usize::MAX,
    ensures
        s.modify_lock(tid, lock_id, res_count).wf(),
{
    let t = s.modify_lock(tid, lock_id, res_count);
    let n = s.allocation.len() as int;
    let row = s.allocation[tid].update(lock_id, 0);
    assert forall|j: int| 0 <= j < t.available.len() implies t.available[j] + t.held(j)
        == #[trigger] t.total_units[j] && t.total_units[j] <= usize::MAX by {
        lemma_column_sum_update(s.allocation, tid, row, j, n);
        lemma_column_sum_bounds(s.allocation, j, n, tid);
        assert(s.total_units[j] <= usize::MAX);
    }
}

/// Appending a resource keeps the state consistent.
pub proof fn lemma_add_lock_preserves_wf(s: BankerState, tid: int, res_count: usize)
    requires
        s.wf(),
        0 <= tid,
    ensures
        s.add_lock(tid, res_count).wf(),
{
    let t = s.add_lock(tid, res_count);
    let n = s.allocation.len() as int;
    let m = s.available.len() as int;
    assert forall|j: int| 0 <= j < t.available.len() implies t.available[j] + t.held(j)
        == #[trigger] t.total_units[j] && t.total_units[j] <= usize::MAX by {
        lemma_column_sum_zero_tail(t.allocation, j, n, t.allocation.len() as int);
        if j < m {
            lemma_column_sum_congruent(t.allocation, s.allocation, j, n);
            assert(s.total_units[j] <= usize::MAX);
        } else {
            lemma_column_sum_zero_tail(t.allocation, j, 0, n);
        }
    }
}

/// Granting a free unit keeps the state consistent and leaves the units
/// in circulation as they were.
pub proof fn lemma_lock_preserves_wf(s: BankerState, tid: int, lock_id: int)
    requires
        s.wf(),
        0 <= tid < s.thread_num(),
        0 <= lock_id < s.lock_num(),
        s.available[lock_id] >= 1,
    ensures
        s.allocation[tid][lock_id] < usize::MAX,
        s.lock(tid, lock_id).wf(),
        s.lock(tid, lock_id).total_units == s.total_units,
{
    let t = s.lock(tid, lock_id);
    let n = s.allocation.len() as int;
    let row = s.allocation[tid].update(lock_id, (s.allocation[tid][lock_id] + 1) as usize);
    lemma_column_sum_bounds(s.allocation, lock_id, n, tid);
    assert(s.total_units[lock_id] <= usize::MAX);
    assert forall|j: int| 0 <= j < t.available.len() implies t.available[j] + t.held(j)
        == #[trigger] t.total_units[j] && t.total_units[j] <= usize::MAX by {
        lemma_column_sum_update(s.allocation, tid, row, j, n);
        assert(s.total_units[j] <= usize::MAX);
    }
}

/// Giving a held unit back keeps the state consistent and leaves the units
/// in circulation as they were.
pub proof fn lemma_unlock_preserves_wf(s: BankerState, tid: int, lock_id: int)
    requires
        s.wf(),
        0 <= tid < s.thread_num(),
        0 <= lock_id < s.lock_num(),
        s.allocation[tid][lock_id] >= 1,
    ensures
        s.available[lock_id] < usize::MAX,
        s.unlock(tid, lock_id).wf(),
        s.unlock(tid, lock_id).total_units == s.total_units,
{
    let t = s.unlock(tid, lock_id);
    let n = s.allocation.len() as int;
    let row = s.allocation[tid].update(lock_id, (s.allocation[tid][lock_id] - 1) as usize);
    lemma_column_sum_bounds(s.allocation, lock_id, n, tid);
    assert(s.total_units[lock_id] <= usize::MAX);
    assert forall|j: int| 0 <= j < t.available.len() implies t.available[j] + t.held(j)
        == #[trigger] t.total_units[j] && t.total_units[j] <= usize::MAX by {
        lemma_column_sum_update(s.allocation, tid, row, j, n);
        assert(s.total_units[j] <= usize::MAX);
    }
}

/// Recording a request keeps the state consistent.
pub proof fn lemma_request_preserves_wf(s: BankerState, tid: int, lock_id: usize)
    requires
        s.wf(),
        0 <= tid < s.thread_num(),
        0 <= lock_id < s.lock_num(),
    ensures
        s.request(tid, lock_id).wf(),
{
    let t = s.request(tid, lock_id);
    assert forall|j: int| 0 <= j < t.available.len() implies t.available[j] + t.held(j)
        == #[trigger] t.total_units[j] && t.total_units[j] <= usize::MAX by {
        assert(s.total_units[j] <= usize::MAX);
    }
}

/// A request for a resource that has just been created with at least one
/// unit, made while no other thread waits for anything, is never refused.
pub proof fn lemma_fresh_lock_request_is_safe(
    s: BankerState,
    tid: int,
    lock_id: usize,
    res_count: usize,
    requester: int,
)
    requires
        s.wf(),
        s.quiescent(),
        0 <= tid < s.thread_num(),
        0 <= requester < s.thread_num(),
        0 <= lock_id < s.lock_num(),
        res_count > 0,
    ensures
        !s.modify_lock(tid, lock_id as int, res_count).request(requester, lock_id).is_unsafe(),
{
    let t = s.modify_lock(tid, lock_id as int, res_count).request(requester, lock_id);
    assert forall|d: Set<int>| !t.is_deadlocked_set(d) by {
        if t.is_deadlocked_set(d) {
            let i = choose|i: int| d.contains(i);
            assert(d.contains(i));
            assert(0 <= i < s.need.len());
            if i != requester {
                assert(s.need[i] is None);
                assert(t.need[i] is None);
            } else {
                assert(t.need[i] == Some(lock_id));
                assert(t.available[lock_id as int] == res_count);
            }
        }
    }
}

/// The banker of one class of resources of a process.
pub struct Banker {
    available: Vec<usize>,
    allocation: Vec<Vec<usize>>,
    need: Vec<Option<usize>>,
    total: Ghost<Seq<nat>>,
}

impl View for Banker {
    type V = BankerState;

    closed spec fn view(&self) -> BankerState {
        BankerState {
            available: self.available@,
            allocation: self.allocation@.map_values(|row: Vec<usize>| row@),
            need: self.need@,
            total_units: self.total@,
        }
    }
}

fn row_holds_any(row: &Vec<usize>) -> (r: bool)
    ensures
        r == holds_any(row@),
{
    let mut j: usize = 0;
    while j < row.len()
        invariant
            j <= row.len(),
            forall|k: int| 0 <= k < j ==> row@[k] == 0,
        decreases row.len() - j,
    {
        if row[j] != 0 {
            return true;
        }
        j += 1;
    }
    false
}

impl Banker {
    /// A banker that knows no thread and no resource.
    pub fn new() -> (b: Banker)
        ensures
            b@.wf(),
            b@.thread_num() == 0,
            b@.lock_num() == 0,
    {
        let b = Banker {
            available: Vec::new(),
            allocation: Vec::new(),
            need: Vec::new(),
            total: Ghost(Seq::empty()),
        };
        assert(b@.need.len() == 0 && b@.total_units.len() == 0);
        b
    }

    /// The number of resources created so far.
    pub fn lock_num(&self) -> (r: usize)
        ensures
            r == self@.lock_num(),
    {
        self.available.len()
    }

    /// The number of thread slots.
    pub fn thread_num(&self) -> (r: usize)
        ensures
            r == self@.thread_num(),
    {
        self.allocation.len()
    }

    /// The free units of resource `lock_id`.
    pub fn available(&self, lock_id: usize) -> (r: usize)
        requires
            lock_id < self@.lock_num(),
        ensures
            r == self@.available[lock_id as int],
    {
        self.available[lock_id]
    }

    /// The units of resource `lock_id` that thread `tid` holds.
    pub fn allocation(&self, tid: usize, lock_id: usize) -> (r: usize)
        requires
            tid < self@.thread_num(),
            lock_id < self@.allocation[tid as int].len(),
        ensures
            r == self@.allocation[tid as int][lock_id as int],
    {
        self.allocation[tid][lock_id]
    }

    /// The units of resource `lock_id` that the threads hold together.
    pub fn held(&self, lock_id: usize) -> (r: usize)
        requires
            self@.wf(),
            lock_id < self@.lock_num(),
        ensures
            r == self@.held(lock_id as int),
            r + self@.available[lock_id as int] == self@.total_units[lock_id as int],
    {
        let n = self.allocation.len();
        let mut sum: usize = 0;
        let mut i: usize = 0;
        proof {
            assert(self@.total_units[lock_id as int] <= usize::MAX);
            lemma_column_sum_nonnegative(self@.allocation, lock_id as int, n as int);
        }
        while i < n
            invariant
                i <= n,
                n == self@.allocation.len(),
                self@.wf(),
                lock_id < self@.lock_num(),
                sum == column_sum(self@.allocation, lock_id as int, i as int),
                column_sum(self@.allocation, lock_id as int, n as int) <= usize::MAX,
            decreases n - i,
        {
            proof {
                assert(self@.allocation[i as int].len() == self@.available.len());
                lemma_column_sum_prefix(self@.allocation, lock_id as int, i as int + 1, n as int);
            }
            sum = sum + self.allocation[i][lock_id];
            i += 1;
        }
        sum
    }

    /// The resource that thread `tid` waits for, if any.
    pub fn need(&self, tid: usize) -> (r: Option<usize>)
        requires
            tid < self@.need.len(),
        ensures
            r == self@.need[tid as int],
    {
        self.need[tid]
    }

    /// Registers thread `tid`: a slot that is used again is emptied, and
    /// otherwise the tables grow by empty slots up to `tid`.
    pub fn add_thread(&mut self, tid: usize)
        requires
            old(self)@.wf(),
        ensures
            final(self)@ == old(self)@.add_thread(tid as int),
            final(self)@.wf(),
    {
        proof {
            lemma_add_thread_preserves_wf(self@, tid as int);
        }
        let lock_num = self.lock_num();
        if self.need.len() > tid {
            let ghost before = self@;
            self.allocation[tid].clear();
            self.allocation[tid].resize(lock_num, 0);
            self.need[tid] = None;
            self.total = Ghost(
                Seq::new(
                    before.total_units.len(),
                    |j: int| (before.total_units[j] - before.allocation[tid as int][j]) as nat,
                ),
            );
            assert(self@.allocation[tid as int] =~= zero_row(lock_num as nat));
            assert(self@.allocation =~= before.add_thread(tid as int).allocation);
            assert(self@ =~= before.add_thread(tid as int));
        } else {
            let ghost before = self@;
            while self.need.len() <= tid
                invariant
                    before.wf(),
                    self.need.len() <= tid + 1,
                    self.need.len() >= before.need.len(),
                    self.need.len() == self.allocation.len(),
                    before == old(self)@,
                    before.need.len() <= tid,
                    self.available@ == before.available,
                    lock_num == before.available.len(),
                    self.total@ == before.total_units,
                    forall|i: int|
                        0 <= i < before.need.len() ==> #[trigger] self.need@[i] == before.need[i],
                    forall|i: int|
                        before.need.len() <= i < self.need.len() ==> (#[trigger] self.need@[i])
                            is None,
                    forall|i: int|
                        0 <= i < before.need.len() ==> (#[trigger] self.allocation@[i])@
                            == before.allocation[i],
                    forall|i: int|
                        before.need.len() <= i < self.need.len() ==> (
                        #[trigger] self.allocation@[i])@ == zero_row(lock_num as nat),
                decreases tid + 1 - self.need.len(),
            {
                let row: Vec<usize> = vec![0; lock_num];
                assert(row@ =~= zero_row(lock_num as nat));
                self.allocation.push(row);
                self.need.push(None);
            }
            assert(self@.need =~= before.add_thread(tid as int).need);
            assert(self@.allocation =~= before.add_thread(tid as int).allocation);
            assert(self@ =~= before.add_thread(tid as int));
        }
    }

    /// Creates resource `lock_id` anew with `res_count` free units, on
    /// behalf of thread `tid`, which then holds none of it and waits for
    /// nothing.
    pub fn modify_lock(&mut self, tid: usize, lock_id: usize, res_count: usize)
        requires
            old(self)@.wf(),
            tid < old(self)@.thread_num(),
            lock_id < old(self)@.lock_num(),
            res_count + old(self)@.held(lock_id as int) - old(self)@.allocation[tid as int][lock_id as int]
                <= usize::MAX,
        ensures
            final(self)@ == old(self)@.modify_lock(tid as int, lock_id as int, res_count),
            final(self)@.wf(),
    {
        let ghost before = self@;
        proof {
            lemma_modify_lock_preserves_wf(before, tid as int, lock_id as int, res_count);
            assert(before.allocation[tid as int].len() == before.available.len());
        }
        self.available[lock_id] = res_count;
        self.allocation[tid][lock_id] = 0;
        self.need[tid] = None;
        self.total = Ghost(before.modify_lock(tid as int, lock_id as int, res_count).total_units);
        assert(self@.allocation =~= before.modify_lock(
            tid as int,
            lock_id as int,
            res_count,
        ).allocation);
        assert(self@ =~= before.modify_lock(tid as int, lock_id as int, res_count));
    }

    /// Appends a resource with `res_count` free units, on behalf of thread
    /// `tid`, which is registered on the way if it was not.
    pub fn add_lock(&mut self, tid: usize, res_count: usize)
        requires
            old(self)@.wf(),
        ensures
            final(self)@ == old(self)@.add_lock(tid as int, res_count),
            final(self)@.wf(),
            tid < final(self)@.thread_num(),
    {
        let ghost before = self@;
        proof {
            lemma_add_lock_preserves_wf(before, tid as int, res_count);
        }
        self.available.push(res_count);
        self.total = Ghost(before.total_units.push(res_count as nat));
        while tid >= self.allocation.len()
            invariant
                before.wf(),
                self.need.len() == self.allocation.len(),
                self.allocation.len() >= before.allocation.len(),
                self.allocation.len() <= tid + 1 || self.allocation.len() == before.allocation.len(),
                self.available@ == before.available.push(res_count),
                self.total@ == before.total_units.push(res_count as nat),
                forall|i: int|
                    0 <= i < before.allocation.len() ==> (#[trigger] self.allocation@[i])@
                        == before.allocation[i],
                forall|i: int|
                    before.allocation.len() <= i < self.allocation.len() ==> (
                    #[trigger] self.allocation@[i])@.len() == 0,
                forall|i: int|
                    0 <= i < before.need.len() ==> #[trigger] self.need@[i] == before.need[i],
                forall|i: int|
                    before.need.len() <= i < self.need.len() ==> (#[trigger] self.need@[i]) is None,
            decreases tid + 1 - self.allocation.len(),
        {
            self.need.push(None);
            self.allocation.push(Vec::new());
        }
        let lock_num = self.lock_num();
        let n = self.allocation.len();
        let mut i: usize = 0;
        while i < n
            invariant
                i <= n,
                n == self.allocation.len(),
                n == before.add_lock(tid as int, res_count).allocation.len(),
                self.need.len() == n,
                lock_num == before.available.len() + 1,
                before.wf(),
                self.available@ == before.available.push(res_count),
                self.total@ == before.total_units.push(res_count as nat),
                forall|k: int|
                    0 <= k < i ==> (#[trigger] self.allocation@[k])@ =~= before.add_lock(
                        tid as int,
                        res_count,
                    ).allocation[k],
                forall|k: int|
                    i <= k < before.allocation.len() ==> (#[trigger] self.allocation@[k])@
                        == before.allocation[k],
                forall|k: int|
                    i <= k < n && before.allocation.len() <= k ==> (
                    #[trigger] self.allocation@[k])@.len() == 0,
                forall|k: int|
                    0 <= k < before.need.len() ==> #[trigger] self.need@[k] == before.need[k],
                forall|k: int|
                    before.need.len() <= k < self.need.len() ==> (#[trigger] self.need@[k]) is None,
            decreases n - i,
        {
            proof {
                if i < before.allocation.len() {
                    assert(before.allocation[i as int].len() == before.available.len());
                }
            }
            self.allocation[i].resize(lock_num, 0);
            i += 1;
        }
        assert(self@.allocation =~= before.add_lock(tid as int, res_count).allocation);
        assert(self@.need =~= before.add_lock(tid as int, res_count).need);
        assert(self@ =~= before.add_lock(tid as int, res_count));
    }

    /// Accounts for one unit of `lock_id` that thread `tid` was granted.
    pub fn lock(&mut self, tid: usize, lock_id: usize)
        requires
            old(self)@.wf(),
            tid < old(self)@.thread_num(),
            lock_id < old(self)@.lock_num(),
            old(self)@.available[lock_id as int] >= 1,
        ensures
            final(self)@ == old(self)@.lock(tid as int, lock_id as int),
            final(self)@.wf(),
    {
        let ghost before = self@;
        proof {
            lemma_lock_preserves_wf(before, tid as int, lock_id as int);
            assert(before.allocation[tid as int].len() == before.available.len());
        }
        self.available[lock_id] -= 1;
        self.allocation[tid][lock_id] += 1;
        self.need[tid] = None;
        assert(self@.allocation =~= before.lock(tid as int, lock_id as int).allocation);
        assert(self@ =~= before.lock(tid as int, lock_id as int));
    }

    /// Accounts for one unit of `lock_id` that thread `tid` gave back.
    pub fn unlock(&mut self, tid: usize, lock_id: usize)
        requires
            old(self)@.wf(),
            tid < old(self)@.thread_num(),
            lock_id < old(self)@.lock_num(),
            old(self)@.allocation[tid as int][lock_id as int] >= 1,
        ensures
            final(self)@ == old(self)@.unlock(tid as int, lock_id as int),
            final(self)@.wf(),
    {
        let ghost before = self@;
        proof {
            lemma_unlock_preserves_wf(before, tid as int, lock_id as int);
            assert(before.allocation[tid as int].len() == before.available.len());
        }
        self.available[lock_id] += 1;
        self.allocation[tid][lock_id] -= 1;
        assert(self@.allocation =~= before.unlock(tid as int, lock_id as int).allocation);
        assert(self@ =~= before.unlock(tid as int, lock_id as int));
    }

    /// Records that thread `tid` asks for one unit of `lock_id`, and tells
    /// whether that request leaves the threads in an unsafe state. The
    /// request stays recorded whatever the answer is.
    pub fn is_deadlock(&mut self, tid: usize, lock_id: usize) -> (deadlock: bool)
        requires
            old(self)@.wf(),
            tid < old(self)@.thread_num(),
            lock_id < old(self)@.lock_num(),
        ensures
            final(self)@ == old(self)@.request(tid as int, lock_id),
            final(self)@.wf(),
            deadlock == final(self)@.is_unsafe(),
    {
        proof {
            lemma_request_preserves_wf(self@, tid as int, lock_id);
        }
        self.need[tid] = Some(lock_id);
        let ghost s = self@;
        assert(s =~= old(self)@.request(tid as int, lock_id));
        let n = self.allocation.len();
        let m = self.available.len();
        let mut pending: Vec<bool> = Vec::new();
        let mut remaining: usize = 0;
        let mut i: usize = 0;
        while i < n
            invariant
                i <= n,
                n == self.allocation.len(),
                self@ == s,
                pending.len() == i,
                forall|k: int| 0 <= k < i ==> pending@[k] == holds_any(#[trigger] s.allocation[k]),
                remaining == pending_count(pending@, i as int),
                remaining <= i,
            decreases n - i,
        {
            let h = row_holds_any(&self.allocation[i]);
            proof {
                lemma_pending_count_congruent(pending@, pending@.push(h), i as int);
            }
            pending.push(h);
            if h {
                remaining += 1;
            }
            i += 1;
        }
        let mut work = self.available.clone();
        proof {
            assert forall|j: int| 0 <= j < m implies work@[j] == s.available[j] + released_sum(
                s.allocation,
                pending@,
                j,
                n as int,
            ) by {
                assert forall|k: int| 0 <= k < n && !pending@[k] implies (
                #[trigger] s.allocation[k])[j] == 0 by {
                    assert(s.allocation[k].len() == m);
                }
                lemma_released_sum_zero(s.allocation, pending@, j, n as int);
            }
            assert forall|d: Set<int>, k: int| #[trigger]
                s.is_deadlocked_set(d) && #[trigger] d.contains(k) implies pending@[k] by {
                assert(holds_any(s.allocation[k]));
            }
        }
        let mut progressed = true;
        while remaining > 0 && progressed
            invariant
                self@ == s,
                s.wf(),
                n == s.allocation.len(),
                m == s.available.len(),
                pending.len() == n,
                work.len() == m,
                remaining == pending_count(pending@, n as int),
                forall|k: int| 0 <= k < n && pending@[k] ==> holds_any(#[trigger] s.allocation[k]),
                forall|j: int|
                    0 <= j < m ==> #[trigger] work@[j] == s.available[j] + released_sum(
                        s.allocation,
                        pending@,
                        j,
                        n as int,
                    ),
                forall|d: Set<int>, k: int| #[trigger]
                    s.is_deadlocked_set(d) && #[trigger] d.contains(k) ==> pending@[k],
                !progressed ==> forall|k: int|
                    0 <= k < n && #[trigger] pending@[k] ==> s.is_blocked(k, work@),
            decreases remaining, progressed as int,
        {
            let ghost work0 = work@;
            let ghost pending0 = pending@;
            let ghost remaining0 = remaining;
            progressed = false;
            let mut i: usize = 0;
            while i < n
                invariant
                    i <= n,
                    self@ == s,
                    s.wf(),
                    n == s.allocation.len(),
                    m == s.available.len(),
                    pending.len() == n,
                    work.len() == m,
                    remaining == pending_count(pending@, n as int),
                    forall|k: int|
                        0 <= k < n && pending@[k] ==> holds_any(#[trigger] s.allocation[k]),
                    forall|j: int|
                        0 <= j < m ==> #[trigger] work@[j] == s.available[j] + released_sum(
                            s.allocation,
                            pending@,
                            j,
                            n as int,
                        ),
                    forall|d: Set<int>, k: int| #[trigger]
                        s.is_deadlocked_set(d) && #[trigger] d.contains(k) ==> pending@[k],
                    progressed ==> remaining < remaining0,
                    !progressed ==> remaining == remaining0 && work@ == work0 && pending@
                        == pending0,
                    !progressed ==> forall|k: int|
                        0 <= k < i && #[trigger] pending@[k] ==> s.is_blocked(k, work@),
                decreases n - i,
            {
                if pending[i] {
                    let can_proceed = match self.need[i] {
                        Some(r) => work[r] != 0,
                        None => true,
                    };
                    if can_proceed {
                        let ghost before = pending@;
                        let ghost after = pending@.update(i as int, false);
                        proof {
                            assert forall|d: Set<int>, k: int| #[trigger]
                                s.is_deadlocked_set(d) && #[trigger] d.contains(
                                    k,
                                ) implies after[k] by {
                                assert(before[k]);
                                if k == i {
                                    let r = s.need[k].unwrap() as int;
                                    assert forall|k2: int|
                                        0 <= k2 < n && !before[k2] implies (
                                    #[trigger] s.allocation[k2])[r] == 0 by {
                                        assert(!d.contains(k2));
                                    }
                                    lemma_released_sum_zero(s.allocation, before, r, n as int);
                                    assert(work@[r] == 0);
                                    assert(false);
                                }
                            }
                            lemma_pending_count_finish(before, i as int, n as int);
                            lemma_pending_count_member(before, n as int, i as int);
                        }
                        let mut j: usize = 0;
                        while j < m
                            invariant
                                j <= m,
                                i < n,
                                self@ == s,
                                s.wf(),
                                n == s.allocation.len(),
                                m == s.available.len(),
                                pending@ == before,
                                before.len() == n,
                                before[i as int],
                                after == before.update(i as int, false),
                                work.len() == m,
                                forall|c: int|
                                    0 <= c < j ==> #[trigger] work@[c] == s.available[c]
                                        + released_sum(s.allocation, after, c, n as int),
                                forall|c: int|
                                    j <= c < m ==> #[trigger] work@[c] == s.available[c]
                                        + released_sum(s.allocation, before, c, n as int),
                            decreases m - j,
                        {
                            proof {
                                lemma_released_sum_finish(
                                    s.allocation,
                                    before,
                                    i as int,
                                    j as int,
                                    n as int,
                                );
                                lemma_released_sum_bounds(s.allocation, after, j as int, n as int);
                                assert(s.total_units[j as int] <= usize::MAX);
                                assert(s.allocation[i as int].len() == m);
                            }
                            let held = self.allocation[i][j];
                            work[j] = work[j] + held;
                            j += 1;
                        }
                        pending[i] = false;
                        remaining -= 1;
                        progressed = true;
                    }
                }
                i += 1;
            }
        }
        proof {
            if remaining == 0 {
                assert forall|d: Set<int>| !s.is_deadlocked_set(d) by {
                    if s.is_deadlocked_set(d) {
                        let k = choose|k: int| d.contains(k);
                        assert(d.contains(k));
                        assert(pending@[k]);
                        lemma_pending_count_member(pending@, n as int, k);
                    }
                }
            } else {
                let d = Set::new(|k: int| 0 <= k < n && pending@[k]);
                let k0 = lemma_pending_count_positive(pending@, n as int);
                assert(d.contains(k0));
                assert forall|i: int| #[trigger] d.contains(i) implies {
                    &&& 0 <= i < s.allocation.len()
                    &&& holds_any(s.allocation[i])
                    &&& s.need[i] is Some
                    &&& s.available[s.need[i].unwrap() as int] == 0
                    &&& forall|k: int|
                        0 <= k < s.allocation.len() && !d.contains(k) ==> (
                        #[trigger] s.allocation[k])[s.need[i].unwrap() as int] == 0
                } by {
                    assert(pending@[i]);
                    assert(s.is_blocked(i, work@));
                    let r = s.need[i].unwrap() as int;
                    assert(0 <= r < m);
                    lemma_released_sum_bounds(s.allocation, pending@, r, n as int);
                    assert(work@[r] == 0);
                    assert forall|k: int|
                        0 <= k < s.allocation.len() && !d.contains(k) implies (
                    #[trigger] s.allocation[k])[r] == 0 by {
                        lemma_released_sum_member(s.allocation, pending@, r, n as int, k);
                    }
                }
                assert(s.is_deadlocked_set(d));
            }
        }
        remaining > 0
    }
}

} // verus!
