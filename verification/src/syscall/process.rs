//! System calls on the current task: its time, its address space and its
//! place on the processor.

use crate::config::MAX_SYSCALL_NUM;
use crate::mm::address::PhysPageNum;
use crate::mm::address::VirtPageNum;
use crate::mm::frame_allocator::slices_bytes;
use crate::mm::frame_allocator::slices_hold;
use crate::mm::frame_allocator::FrameSlice;
use crate::mm::frame_allocator::slices_touch;
use crate::mm::frame_allocator::slices_wf;
use crate::mm::frame_allocator::word_byte;
use crate::mm::frame_allocator::PhysMemory;
use crate::mm::page_table::buffer_page_count;
use crate::mm::page_table::buffer_slices;
use crate::mm::page_table::is_mapped;
use crate::mm::page_table::lemma_token_round_trip;
use crate::mm::page_table::lookup;
use crate::mm::page_table::walk;
use crate::mm::page_table::mapped_pages;
use crate::mm::page_table::pages_of;
use crate::mm::page_table::port_flags;
use crate::mm::page_table::translated_byte_buffer;
use crate::mm::page_table::walkable;
use crate::mm::page_table::PageTable;
use crate::mm::page_table::unmapped_range;
use crate::task::exit_current_and_run_next;
use crate::task::suspend_current_and_run_next;
use crate::task::Switch;
use crate::task::TaskManager;
use crate::task::TaskStatus;
use vstd::prelude::*;

verus! {

/// The eight bytes of `x`, the lowest first.
pub open spec fn le_bytes(x: u64) -> Seq<u8> {
    Seq::new(8, |i: int| word_byte(x, i as u64))
}

/// The word whose eight bytes, the lowest first, are `b`.
pub open spec fn from_le_bytes(b: Seq<u8>) -> u64 {
    (b[0] as u64) | ((b[1] as u64) << 8) | ((b[2] as u64) << 16) | ((b[3] as u64) << 24) | ((
    b[4] as u64) << 32) | ((b[5] as u64) << 40) | ((b[6] as u64) << 48) | ((b[7] as u64) << 56)
}

/// A word is made of its bytes.
pub proof fn lemma_le_bytes_round_trip(x: u64)
    ensures
        from_le_bytes(le_bytes(x)) == x,
{
    assert(((((x >> 0) & 0xff) as u8) as u64) | (((((x >> 8) & 0xff) as u8) as u64) << 8) | (((((x
        >> 16) & 0xff) as u8) as u64) << 16) | (((((x >> 24) & 0xff) as u8) as u64) << 24) | (((((x
        >> 32) & 0xff) as u8) as u64) << 32) | (((((x >> 40) & 0xff) as u8) as u64) << 40) | (((((x
        >> 48) & 0xff) as u8) as u64) << 48) | (((((x >> 56) & 0xff) as u8) as u64) << 56) == x)
        by (bit_vector);
    assert(8 * 0u64 == 0 && 8 * 1u64 == 8 && 8 * 2u64 == 16 && 8 * 3u64 == 24 && 8 * 4u64 == 32 && 8
        * 5u64 == 40 && 8 * 6u64 == 48 && 8 * 7u64 == 56);
}

fn push_le_bytes(out: &mut Vec<u8>, x: u64)
    ensures
        final(out)@ == old(out)@ + le_bytes(x),
{
    let ghost before = out@;
    let mut i: u64 = 0;
    while i < 8
        invariant
            i <= 8,
            out@.len() == before.len() + i,
            forall|k: int| 0 <= k < before.len() ==> out@[k] == before[k],
            forall|k: int|
                before.len() <= k < before.len() + i ==> #[trigger] out@[k] == word_byte(
                    x,
                    (k - before.len()) as u64,
                ),
        decreases 8 - i,
    {
        out.push(((x >> (8 * i)) & 0xff) as u8);
        i += 1;
    }
    assert(out@ =~= before + le_bytes(x));
}

fn read_le_bytes(bytes: &Vec<u8>, at: usize) -> (x: u64)
    requires
        at + 8 <= bytes@.len(),
    ensures
        x == from_le_bytes(bytes@.subrange(at as int, at + 8)),
{
    let n = bytes.len();
    assert(at + 8 <= n);
    (bytes[at] as u64) | ((bytes[at + 1] as u64) << 8) | ((bytes[at + 2] as u64) << 16) | ((bytes[at
        + 3] as u64) << 24) | ((bytes[at + 4] as u64) << 32) | ((bytes[at + 5] as u64) << 40) | ((
    bytes[at + 6] as u64) << 48) | ((bytes[at + 7] as u64) << 56)
}

/// A time as the user sees it: seconds and microseconds.
#[derive(Debug, Clone, Copy, PartialEq, Eq, Structural)]
pub struct TimeVal {
    pub sec: usize,
    pub usec: usize,
}

impl TimeVal {
    /// The number of bytes of a time in the memory of the user.
    pub const SIZE: u64 = 16;

    /// The sixteen bytes of the time in the memory of the user: the
    /// seconds and then the microseconds, the lowest byte first.
    pub open spec fn spec_to_bytes(&self) -> Seq<u8> {
        le_bytes(self.sec as u64) + le_bytes(self.usec as u64)
    }

    /// The time `us` microseconds after the start of the clock.
    pub open spec fn spec_from_us(us: usize) -> TimeVal {
        TimeVal { sec: us / 1_000_000, usec: us % 1_000_000 }
    }

    /// The time `us` microseconds after the start of the clock.
    pub fn from_us(us: usize) -> (tv: Self)
        ensures
            tv == Self::spec_from_us(us),
    {
        TimeVal { sec: us / 1_000_000, usec: us % 1_000_000 }
    }

    /// The bytes of the time in the memory of the user.
    pub fn to_bytes(&self) -> (bytes: Vec<u8>)
        ensures
            bytes@ == self.spec_to_bytes(),
            bytes@.len() == 16,
    {
        let mut bytes: Vec<u8> = Vec::new();
        push_le_bytes(&mut bytes, self.sec as u64);
        push_le_bytes(&mut bytes, self.usec as u64);
        bytes
    }

    /// The time that the sixteen bytes stand for. It is the time they were
    /// made from.
    pub fn from_bytes(bytes: &Vec<u8>) -> (tv: Self)
        requires
            bytes@.len() == 16,
        ensures
            tv.sec == from_le_bytes(bytes@.subrange(0, 8)) as usize,
            tv.usec == from_le_bytes(bytes@.subrange(8, 16)) as usize,
            forall|t: TimeVal| bytes@ == t.spec_to_bytes() ==> tv == t,
    {
        let sec = read_le_bytes(bytes, 0);
        let usec = read_le_bytes(bytes, 8);
        proof {
            assert forall|t: TimeVal| bytes@ == t.spec_to_bytes() implies sec as usize == t.sec
                && usec as usize == t.usec by {
                lemma_le_bytes_round_trip(t.sec as u64);
                lemma_le_bytes_round_trip(t.usec as u64);
                assert(bytes@.subrange(0, 8) =~= le_bytes(t.sec as u64));
                assert(bytes@.subrange(8, 16) =~= le_bytes(t.usec as u64));
            }
        }
        TimeVal { sec: sec as usize, usec: usec as usize }
    }
}

/// What a task learns about itself.
#[derive(Debug)]
pub struct TaskInfo {
    /// Where the task stands in its life.
    pub status: TaskStatus,
    /// How often the task has made each system call.
    pub syscall_times: Vec<u32>,
    /// The time for which the task has been running, in milliseconds.
    pub time: usize,
}

/// The number by which a status is known to the user.
pub open spec fn status_code(status: TaskStatus) -> u8 {
    match status {
        TaskStatus::UnInit => 0,
        TaskStatus::Ready => 1,
        TaskStatus::Running => 2,
        TaskStatus::Exited => 3,
        TaskStatus::Blocked => 4,
    }
}

/// The bytes of the counters, four for each, the lowest byte first.
pub open spec fn counter_bytes(counters: Seq<u32>) -> Seq<u8> {
    Seq::new(
        (4 * counters.len()) as nat,
        |i: int| word_byte(counters[i / 4] as u64, (i % 4) as u64),
    )
}

impl TaskInfo {
    /// The number of bytes of the information in the memory of the user.
    pub const SIZE: u64 = 2016;

    /// The bytes of the information in the memory of the user, laid out as
    /// C lays out the three fields: the status in one byte, three bytes
    /// unused, the 500 counters, four bytes unused, and the time in eight
    /// bytes.
    pub open spec fn spec_to_bytes(&self) -> Seq<u8> {
        seq![status_code(self.status), 0u8, 0u8, 0u8] + counter_bytes(self.syscall_times@)
            + seq![0u8, 0u8, 0u8, 0u8] + le_bytes(self.time as u64)
    }

    /// The bytes of the information in the memory of the user.
    pub fn to_bytes(&self) -> (bytes: Vec<u8>)
        requires
            self.syscall_times@.len() == MAX_SYSCALL_NUM,
        ensures
            bytes@ == self.spec_to_bytes(),
            bytes@.len() == 2016,
    {
        let mut bytes: Vec<u8> = Vec::new();
        let code: u8 = match self.status {
            TaskStatus::UnInit => 0,
            TaskStatus::Ready => 1,
            TaskStatus::Running => 2,
            TaskStatus::Exited => 3,
            TaskStatus::Blocked => 4,
        };
        bytes.push(code);
        bytes.push(0);
        bytes.push(0);
        bytes.push(0);
        let ghost head = bytes@;
        assert(head =~= seq![status_code(self.status), 0u8, 0u8, 0u8]);
        let mut i: usize = 0;
        while i < MAX_SYSCALL_NUM
            invariant
                i <= MAX_SYSCALL_NUM,
                self.syscall_times@.len() == MAX_SYSCALL_NUM,
                head.len() == 4,
                bytes@.len() == 4 + 4 * i,
                forall|k: int| 0 <= k < 4 ==> bytes@[k] == head[k],
                forall|k: int|
                    4 <= k < 4 + 4 * i ==> #[trigger] bytes@[k] == word_byte(
                        self.syscall_times@[(k - 4) / 4] as u64,
                        ((k - 4) % 4) as u64,
                    ),
            decreases MAX_SYSCALL_NUM - i,
        {
            let x = self.syscall_times[i] as u64;
            let mut j: u64 = 0;
            while j < 4
                invariant
                    j <= 4,
                    i < MAX_SYSCALL_NUM,
                    self.syscall_times@.len() == MAX_SYSCALL_NUM,
                    x == self.syscall_times@[i as int],
                    head.len() == 4,
                    bytes@.len() == 4 + 4 * i + j,
                    forall|k: int| 0 <= k < 4 ==> bytes@[k] == head[k],
                    forall|k: int|
                        4 <= k < 4 + 4 * i + j ==> #[trigger] bytes@[k] == word_byte(
                            self.syscall_times@[(k - 4) / 4] as u64,
                            ((k - 4) % 4) as u64,
                        ),
                decreases 4 - j,
            {
                bytes.push(((x >> (8 * j)) & 0xff) as u8);
                j += 1;
            }
            i += 1;
        }
        let ghost body = bytes@;
        assert(body =~= head + counter_bytes(self.syscall_times@));
        bytes.push(0);
        bytes.push(0);
        bytes.push(0);
        bytes.push(0);
        assert(bytes@ =~= body + seq![0u8, 0u8, 0u8, 0u8]);
        push_le_bytes(&mut bytes, self.time as u64);
        bytes
    }
}

/// The current task, which is running, ends. The task that runs next gets
/// the processor; with no task ready the kernel has to halt.
pub fn sys_exit(tm: &mut TaskManager, _exit_code: i32) -> (switch: Switch)
    requires
        old(tm).inv(),
        old(tm).tasks@[old(tm).current_task as int].task_status == TaskStatus::Running,
    ensures
        final(tm).inv(),
        final(tm).left_processor(old(tm), TaskStatus::Exited, switch),
{
    exit_current_and_run_next(tm)
}

/// The current task, which is running, gives the processor up for the
/// other tasks. The call returns 0 when the task runs again.
pub fn sys_yield(tm: &mut TaskManager) -> (r: (isize, Switch))
    requires
        old(tm).inv(),
        old(tm).tasks@[old(tm).current_task as int].task_status == TaskStatus::Running,
    ensures
        final(tm).inv(),
        r.0 == 0,
        final(tm).left_processor(old(tm), TaskStatus::Ready, r.1),
        r.1 != Switch::Halt,
{
    let switch = suspend_current_and_run_next(tm);
    (0, switch)
}

/// The pages that the `len` bytes from the address `ptr` touch can be
/// written through the page table rooted at `root`: the buffer lies in the
/// address space, and every page of it is mapped to a frame of the memory,
/// each to a frame of its own.
pub open spec fn user_buffer_ok(m: &PhysMemory, root: int, ptr: u64, len: u64) -> bool {
    &&& ptr + len <= 0x80_0000_0000
    &&& forall|p: u64|
        ptr / 4096 <= p < ptr / 4096 + buffer_page_count(ptr, len) ==> #[trigger] is_mapped(m, root, p)
    &&& slices_wf(m, buffer_slices(m, root, ptr, len))
}

/// Tells whether the `len` bytes from the address `ptr` can be written
/// through the page table `page_table`.
pub fn user_buffer_writable(page_table: &PageTable, m: &PhysMemory, ptr: u64, len: u64) -> (ok: bool)
    requires
        walkable(m, page_table.root()),
    ensures
        ok == user_buffer_ok(m, page_table.root(), ptr, len),
{
    if ptr > 0x80_0000_0000 || len > 0x80_0000_0000 - ptr {
        return false;
    }
    let ghost root = page_table.root();
    let ghost slices = buffer_slices(m, root, ptr, len);
    if len == 0 {
        return true;
    }
    let first = ptr / 4096;
    let last = (ptr + len - 1) / 4096;
    let mut frames: Vec<PhysPageNum> = Vec::new();
    let mut vpn = first;
    while vpn <= last
        invariant
            page_table.root() == root,
            walkable(m, root),
            len > 0,
            ptr + len <= 0x80_0000_0000,
            first == ptr / 4096,
            last == (ptr + len - 1) / 4096,
            first <= vpn <= last + 1,
            slices == buffer_slices(m, root, ptr, len),
            slices.len() == last - first + 1,
            frames@.len() == vpn - first,
            forall|p: u64| first <= p < vpn ==> #[trigger] is_mapped(m, root, p),
            forall|k: int|
                0 <= k < frames@.len() ==> #[trigger] frames@[k] == slices[k].ppn && m.contains(
                    frames@[k].0 as int,
                ),
            forall|j: int, k: int|
                0 <= j < k < frames@.len() ==> #[trigger] frames@[j] != #[trigger] frames@[k],
        decreases last + 1 - vpn,
    {
        let ghost k = (vpn - first) as int;
        let entry = match page_table.translate(m, VirtPageNum(vpn)) {
            Some(entry) => entry,
            None => {
                assert(!is_mapped(m, root, vpn));
                return false;
            },
        };
        let ppn = entry.ppn();
        assert(slices[k].ppn == ppn);
        if !m.has_frame(ppn) {
            assert(!m.contains(slices[k].ppn.0 as int));
            return false;
        }
        let mut j: usize = 0;
        while j < frames.len()
            invariant
                j <= frames.len(),
                page_table.root() == root,
                ptr + len <= 0x80_0000_0000,
                slices == buffer_slices(m, root, ptr, len),
                k == frames@.len(),
                k < slices.len(),
                slices[k].ppn == ppn,
                forall|i: int| 0 <= i < frames@.len() ==> #[trigger] frames@[i] == slices[i].ppn,
                forall|i: int| 0 <= i < j ==> #[trigger] frames@[i] != ppn,
            decreases frames.len() - j,
        {
            if frames[j].0 == ppn.0 {
                assert(frames@[j as int] == slices[j as int].ppn);
                assert(slices[j as int].ppn == slices[k].ppn);
                return false;
            }
            j += 1;
        }
        frames.push(ppn);
        vpn += 1;
    }
    proof {
        assert forall|k: int| 0 <= k < slices.len() implies m.contains(
            (#[trigger] slices[k]).ppn.0 as int,
        ) && slices[k].start <= slices[k].end <= 4096 by {
            assert(frames@[k] == slices[k].ppn);
        }
        assert forall|j: int, k: int| 0 <= j < k < slices.len() implies (#[trigger] slices[j]).ppn != (
        #[trigger] slices[k]).ppn by {
            assert(frames@[j] == slices[j].ppn);
            assert(frames@[k] == slices[k].ppn);
        }
    }
    true
}

/// None of the slices lies in a frame that holds a table of a page table
/// of a task.
pub open spec fn avoids_tables(tm: &TaskManager, slices: Seq<FrameSlice>) -> bool {
    forall|tid: int, p: int|
        0 <= tid < tm.tasks@.len() && #[trigger] tm.tasks@[tid].page_table.owned_frames().contains(p)
            ==> !slices_touch(slices, p)
}

/// Writing to slices that lie in no table keeps the address spaces of all
/// tasks consistent.
pub proof fn lemma_write_keeps_address_spaces(
    tm: &TaskManager,
    m0: &PhysMemory,
    m: &PhysMemory,
    slices: Seq<FrameSlice>,
)
    requires
        tm.address_spaces_inv(m0),
        avoids_tables(tm, slices),
        m0.wf(),
        m.wf(),
        m.same_allocation(m0),
        forall|p: int, i: int|
            #![trigger m.word(p, i)]
            m0.contains(p) && 0 <= i < 512 && !slices_touch(slices, p) ==> m.word(p, i) == m0.word(
                p,
                i,
            ),
    ensures
        tm.address_spaces_inv(m),
{
    assert forall|tid: int| 0 <= tid < tm.tasks@.len() implies (
    #[trigger] tm.tasks@[tid]).page_table.inv(m) by {
        let pt = tm.tasks@[tid].page_table;
        assert(pt.inv(m0));
        assert forall|p: int|
            pt.owned_frames().contains(p) || pt.owned_data_frames().contains(
                p,
            ) implies #[trigger] m.is_allocated(p) by {
            pt.lemma_owned_data_frames_are_allocated(m0, p);
            assert(m.is_allocated(p) == m0.is_allocated(p));
        }
        assert forall|p: int, i: int|
            #![trigger m.word(p, i)]
            pt.owned_frames().contains(p) && 0 <= i < 512 implies m.word(p, i) == m0.word(p, i) by {
            pt.lemma_owned_data_frames_are_allocated(m0, p);
            m0.lemma_allocated_is_contained(p);
            assert(tm.tasks@[tid].page_table.owned_frames().contains(p));
        }
        pt.lemma_inv_depends_on_owned_frames(m0, m);
    }
}

/// None of the slices lies in a frame that holds a table of the page
/// table.
pub open spec fn avoids_tables_of(page_table: &PageTable, slices: Seq<FrameSlice>) -> bool {
    forall|p: int| #[trigger] page_table.owned_frames().contains(p) ==> !slices_touch(slices, p)
}

/// A write to slices that lie in no table of the page table leaves the
/// page table consistent and every page mapped as it was, so that the
/// buffer is found in the same slices again.
pub proof fn lemma_write_keeps_translation(
    page_table: &PageTable,
    m0: &PhysMemory,
    m: &PhysMemory,
    ptr: u64,
    len: u64,
)
    requires
        m0.wf(),
        page_table.inv(m0),
        user_buffer_ok(m0, page_table.root(), ptr, len),
        avoids_tables_of(page_table, buffer_slices(m0, page_table.root(), ptr, len)),
        m.wf(),
        m.same_allocation(m0),
        forall|p: int, i: int|
            #![trigger m.word(p, i)]
            m0.contains(p) && 0 <= i < 512 && !slices_touch(
                buffer_slices(m0, page_table.root(), ptr, len),
                p,
            ) ==> m.word(p, i) == m0.word(p, i),
    ensures
        page_table.inv(m),
        forall|v: u64|
            #![trigger lookup(m, page_table.root(), v)]
            lookup(m, page_table.root(), v) == lookup(m0, page_table.root(), v),
        buffer_slices(m, page_table.root(), ptr, len) == buffer_slices(
            m0,
            page_table.root(),
            ptr,
            len,
        ),
        user_buffer_ok(m, page_table.root(), ptr, len),
{
    let root = page_table.root();
    let slices = buffer_slices(m0, root, ptr, len);
    assert forall|p: int|
        page_table.owned_frames().contains(p) || page_table.owned_data_frames().contains(
            p,
        ) implies #[trigger] m.is_allocated(p) by {
        page_table.lemma_owned_data_frames_are_allocated(m0, p);
        assert(m.is_allocated(p) == m0.is_allocated(p));
    }
    assert forall|p: int, i: int|
        #![trigger m.word(p, i)]
        page_table.owned_frames().contains(p) && 0 <= i < 512 implies m.word(p, i) == m0.word(
        p,
        i,
    ) by {
        page_table.lemma_owned_data_frames_are_allocated(m0, p);
        m0.lemma_allocated_is_contained(p);
    }
    page_table.lemma_inv_depends_on_owned_frames(m0, m);
    assert forall|v: u64| #![trigger lookup(m, root, v)] lookup(m, root, v) == lookup(m0, root, v) by {
        assert(walk(m, root, v) == walk(m0, root, v));
    }
    assert(buffer_slices(m, root, ptr, len) =~= slices) by {
        assert forall|k: int| 0 <= k < buffer_page_count(ptr, len) implies buffer_slices(
            m,
            root,
            ptr,
            len,
        )[k] == slices[k] by {
            let v = (ptr / 4096 + k) as u64;
            assert(lookup(m, root, v) == lookup(m0, root, v));
        }
    }
    assert forall|p: u64|
        ptr / 4096 <= p < ptr / 4096 + buffer_page_count(ptr, len) implies #[trigger] is_mapped(
        m,
        root,
        p,
    ) by {
        assert(is_mapped(m0, root, p));
        assert(lookup(m, root, p) == lookup(m0, root, p));
    }
}

/// Reads `len` bytes from the memory of the current task at the address
/// `ptr`, piece by piece through the frames that the pages are mapped to.
pub fn read_from_user(tm: &TaskManager, m: &PhysMemory, ptr: u64, len: u64) -> (bytes: Vec<u8>)
    requires
        tm.inv(),
        tm.tasks@[tm.current_task as int].page_table.inv(m),
        user_buffer_ok(m, tm.tasks@[tm.current_task as int].page_table.root(), ptr, len),
    ensures
        bytes@ == slices_bytes(
            m,
            buffer_slices(m, tm.tasks@[tm.current_task as int].page_table.root(), ptr, len),
        ),
{
    let token = tm.get_current_token();
    proof {
        let pt = tm.tasks@[tm.current_task as int].page_table;
        pt.lemma_inv_walkable(m);
        lemma_token_round_trip(pt.root() as u64);
    }
    let slices = translated_byte_buffer(m, token, ptr, len);
    m.read_bytes(&slices)
}

/// Writes `bytes` to the memory of the current task at the address `ptr`,
/// piece by piece through the frames that the pages are mapped to.
pub fn write_to_user(tm: &TaskManager, m: &mut PhysMemory, ptr: u64, bytes: &Vec<u8>)
    requires
        tm.inv(),
        tm.tasks@[tm.current_task as int].page_table.inv(old(m)),
        user_buffer_ok(
            old(m),
            tm.tasks@[tm.current_task as int].page_table.root(),
            ptr,
            bytes@.len() as u64,
        ),
        bytes@.len() <= 0x80_0000_0000,
    ensures
        final(m).wf(),
        final(m).same_allocation(old(m)),
        slices_bytes(
            final(m),
            buffer_slices(
                old(m),
                tm.tasks@[tm.current_task as int].page_table.root(),
                ptr,
                bytes@.len() as u64,
            ),
        ) == bytes@,
        forall|p: int, i: int|
            #![trigger final(m).word(p, i)]
            old(m).contains(p) && 0 <= i < 512 && !slices_touch(
                buffer_slices(
                    old(m),
                    tm.tasks@[tm.current_task as int].page_table.root(),
                    ptr,
                    bytes@.len() as u64,
                ),
                p,
            ) ==> final(m).word(p, i) == old(m).word(p, i),
        forall|p: int, o: int|
            #![trigger final(m).byte(p, o)]
            old(m).contains(p) && 0 <= o < 4096 && !slices_hold(
                buffer_slices(
                    old(m),
                    tm.tasks@[tm.current_task as int].page_table.root(),
                    ptr,
                    bytes@.len() as u64,
                ),
                p,
                o,
            ) ==> final(m).byte(p, o) == old(m).byte(p, o),
        avoids_tables_of(
            &tm.tasks@[tm.current_task as int].page_table,
            buffer_slices(
                old(m),
                tm.tasks@[tm.current_task as int].page_table.root(),
                ptr,
                bytes@.len() as u64,
            ),
        ) ==> {
            &&& tm.tasks@[tm.current_task as int].page_table.inv(final(m))
            &&& user_buffer_ok(
                final(m),
                tm.tasks@[tm.current_task as int].page_table.root(),
                ptr,
                bytes@.len() as u64,
            )
            &&& buffer_slices(
                final(m),
                tm.tasks@[tm.current_task as int].page_table.root(),
                ptr,
                bytes@.len() as u64,
            ) == buffer_slices(
                old(m),
                tm.tasks@[tm.current_task as int].page_table.root(),
                ptr,
                bytes@.len() as u64,
            )
            &&& slices_bytes(
                final(m),
                buffer_slices(
                    final(m),
                    tm.tasks@[tm.current_task as int].page_table.root(),
                    ptr,
                    bytes@.len() as u64,
                ),
            ) == bytes@
        },
        tm.address_spaces_inv(old(m)) && avoids_tables(
            tm,
            buffer_slices(
                old(m),
                tm.tasks@[tm.current_task as int].page_table.root(),
                ptr,
                bytes@.len() as u64,
            ),
        ) ==> tm.address_spaces_inv(final(m)),
{
    let ghost m0 = *m;
    let token = tm.get_current_token();
    proof {
        let pt = tm.tasks@[tm.current_task as int].page_table;
        pt.lemma_inv_walkable(m);
        lemma_token_round_trip(pt.root() as u64);

    }
    let slices = translated_byte_buffer(m, token, ptr, bytes.len() as u64);
    m.write_bytes(&slices, bytes);
    proof {
        let pt = tm.tasks@[tm.current_task as int].page_table;
        if avoids_tables_of(&pt, slices@) {
            lemma_write_keeps_translation(&pt, &m0, m, ptr, bytes@.len() as u64);
        }
        if tm.address_spaces_inv(&m0) && avoids_tables(tm, slices@) {
            lemma_write_keeps_address_spaces(tm, &m0, m, slices@);
        }
    }
}

/// Writes the time `now_us`, split into seconds and microseconds, to the
/// memory of the current task at the address `ts`, and returns 0.
pub fn sys_get_time(tm: &TaskManager, m: &mut PhysMemory, ts: u64, _tz: usize, now_us: usize) -> (r:
    isize)
    requires
        tm.inv(),
        tm.tasks@[tm.current_task as int].page_table.inv(old(m)),
        user_buffer_ok(old(m), tm.tasks@[tm.current_task as int].page_table.root(), ts, 16),
    ensures
        r == 0,
        final(m).wf(),
        final(m).same_allocation(old(m)),
        slices_bytes(
            final(m),
            buffer_slices(old(m), tm.tasks@[tm.current_task as int].page_table.root(), ts, 16),
        ) == TimeVal::spec_from_us(now_us).spec_to_bytes(),
        forall|p: int, i: int|
            #![trigger final(m).word(p, i)]
            old(m).contains(p) && 0 <= i < 512 && !slices_touch(
                buffer_slices(old(m), tm.tasks@[tm.current_task as int].page_table.root(), ts, 16),
                p,
            ) ==> final(m).word(p, i) == old(m).word(p, i),
        forall|p: int, o: int|
            #![trigger final(m).byte(p, o)]
            old(m).contains(p) && 0 <= o < 4096 && !slices_hold(
                buffer_slices(old(m), tm.tasks@[tm.current_task as int].page_table.root(), ts, 16),
                p,
                o,
            ) ==> final(m).byte(p, o) == old(m).byte(p, o),
        avoids_tables_of(
            &tm.tasks@[tm.current_task as int].page_table,
            buffer_slices(
                old(m),
                tm.tasks@[tm.current_task as int].page_table.root(),
                ts,
                16,
            ),
        ) ==> {
            &&& tm.tasks@[tm.current_task as int].page_table.inv(final(m))
            &&& user_buffer_ok(
                final(m),
                tm.tasks@[tm.current_task as int].page_table.root(),
                ts,
                16,
            )
            &&& buffer_slices(
                final(m),
                tm.tasks@[tm.current_task as int].page_table.root(),
                ts,
                16,
            ) == buffer_slices(
                old(m),
                tm.tasks@[tm.current_task as int].page_table.root(),
                ts,
                16,
            )
            &&& slices_bytes(
                final(m),
                buffer_slices(
                    final(m),
                    tm.tasks@[tm.current_task as int].page_table.root(),
                    ts,
                    16,
                ),
            ) == TimeVal::spec_from_us(now_us).spec_to_bytes()
        },
        tm.address_spaces_inv(old(m)) && avoids_tables(
            tm,
            buffer_slices(old(m), tm.tasks@[tm.current_task as int].page_table.root(), ts, 16),
        ) ==> tm.address_spaces_inv(final(m)),
{
    let tv = TimeVal::from_us(now_us);
    let bytes = tv.to_bytes();
    write_to_user(tm, m, ts, &bytes);
    0
}

/// Writes the status of the current task, its counts of system calls and
/// the time for which it has been running at the time `now_us` to the
/// memory of the task at the address `ti`, and returns 0.
pub fn sys_task_info(tm: &TaskManager, m: &mut PhysMemory, ti: u64, now_us: usize) -> (r: isize)
    requires
        tm.inv(),
        tm.tasks@[tm.current_task as int].page_table.inv(old(m)),
        tm.tasks@[tm.current_task as int].start_time <= now_us,
        user_buffer_ok(old(m), tm.tasks@[tm.current_task as int].page_table.root(), ti, 2016),
    ensures
        r == 0,
        final(m).wf(),
        final(m).same_allocation(old(m)),
        exists|info: TaskInfo|
            {
                &&& info.status == tm.tasks@[tm.current_task as int].task_status
                &&& info.syscall_times@ == tm.tasks@[tm.current_task as int].syscall_times@
                &&& info.time == (now_us - tm.tasks@[tm.current_task as int].start_time) / 1000
                &&& #[trigger] info.spec_to_bytes() == slices_bytes(
                    final(m),
                    buffer_slices(
                        old(m),
                        tm.tasks@[tm.current_task as int].page_table.root(),
                        ti,
                        2016,
                    ),
                )
            },
        forall|p: int, i: int|
            #![trigger final(m).word(p, i)]
            old(m).contains(p) && 0 <= i < 512 && !slices_touch(
                buffer_slices(old(m), tm.tasks@[tm.current_task as int].page_table.root(), ti, 2016),
                p,
            ) ==> final(m).word(p, i) == old(m).word(p, i),
        forall|p: int, o: int|
            #![trigger final(m).byte(p, o)]
            old(m).contains(p) && 0 <= o < 4096 && !slices_hold(
                buffer_slices(old(m), tm.tasks@[tm.current_task as int].page_table.root(), ti, 2016),
                p,
                o,
            ) ==> final(m).byte(p, o) == old(m).byte(p, o),
        avoids_tables_of(
            &tm.tasks@[tm.current_task as int].page_table,
            buffer_slices(
                old(m),
                tm.tasks@[tm.current_task as int].page_table.root(),
                ti,
                2016,
            ),
        ) ==> {
            &&& tm.tasks@[tm.current_task as int].page_table.inv(final(m))
            &&& user_buffer_ok(
                final(m),
                tm.tasks@[tm.current_task as int].page_table.root(),
                ti,
                2016,
            )
            &&& buffer_slices(
                final(m),
                tm.tasks@[tm.current_task as int].page_table.root(),
                ti,
                2016,
            ) == buffer_slices(
                old(m),
                tm.tasks@[tm.current_task as int].page_table.root(),
                ti,
                2016,
            )
        },
        tm.address_spaces_inv(old(m)) && avoids_tables(
            tm,
            buffer_slices(old(m), tm.tasks@[tm.current_task as int].page_table.root(), ti, 2016),
        ) ==> tm.address_spaces_inv(final(m)),
{
    let info = TaskInfo {
        status: tm.get_current_status(),
        syscall_times: tm.get_current_syscall_times(),
        time: (now_us - tm.get_current_start_time()) / 1000,
    };
    let bytes = info.to_bytes();
    write_to_user(tm, m, ti, &bytes);
    0
}

/// The arguments of `sys_mmap` are accepted: `start` is the first address
/// of a page, the range lies in the address space, and `port` names at
/// least one of the three rights and nothing else.
pub open spec fn mmap_args_ok(start: u64, len: u64, port: usize) -> bool {
    &&& start % 4096 == 0
    &&& start + len <= 0x80_0000_0000
    &&& port & !0x7usize == 0
    &&& port & 0x7 != 0
}

/// Maps the pages of the `len` bytes from the address `start` in the
/// address space of the current task, readable, writable and executable as
/// the three low bits of `port` say. Arguments that are not accepted are
/// refused with -1 and change nothing.
pub fn sys_mmap(tm: &mut TaskManager, m: &mut PhysMemory, start: u64, len: u64, port: usize) -> (r:
    isize)
    requires
        old(tm).inv(),
        old(tm).tasks@[old(tm).current_task as int].page_table.inv(old(m)),
    ensures
        final(tm).inv(),
        final(tm).tasks@[old(tm).current_task as int].page_table.inv(final(m)),
        old(tm).address_spaces_inv(old(m)) ==> final(tm).address_spaces_inv(final(m)),
        final(m).base_ppn() == old(m).base_ppn(),
        final(m).end_ppn() == old(m).end_ppn(),
        r == 0 || r == -1,
        !mmap_args_ok(start, len, port) ==> r == -1 && *final(tm) == *old(tm) && *final(m) == *old(m),
        mmap_args_ok(start, len, port) ==> {
            &&& final(tm).same_but_page_table(old(tm))
            &&& final(tm).tasks@[old(tm).current_task as int].page_table.root() == old(tm).tasks@[old(tm).current_task as int].page_table.root()
            &&& mapped_pages(
                &final(tm).tasks@[old(tm).current_task as int].page_table,
                &old(tm).tasks@[old(tm).current_task as int].page_table,
                old(m),
                final(m),
                start / 4096,
                pages_of(len),
                port_flags(port),
                r,
            )
        },
{
    if start % 4096 != 0 || port & !0x7 != 0 || port & 0x7 == 0 {
        return -1;
    }
    if len > 0x80_0000_0000 || start > 0x80_0000_0000 - len {
        return -1;
    }
    tm.map_current_with_len(m, start, len, port)
}

/// The arguments of `sys_munmap` are accepted: `start` is the first
/// address of a page, and the range lies in the address space.
pub open spec fn munmap_args_ok(start: u64, len: u64) -> bool {
    &&& start % 4096 == 0
    &&& start + len <= 0x80_0000_0000
}

/// Unmaps the pages of the `len` bytes from the address `start` in the
/// address space of the current task. Arguments that are not accepted are
/// refused with -1 and change nothing.
pub fn sys_munmap(tm: &mut TaskManager, m: &mut PhysMemory, start: u64, len: u64) -> (r: isize)
    requires
        old(tm).inv(),
        old(tm).tasks@[old(tm).current_task as int].page_table.inv(old(m)),
    ensures
        final(tm).inv(),
        final(tm).tasks@[old(tm).current_task as int].page_table.inv(final(m)),
        old(tm).address_spaces_inv(old(m)) ==> final(tm).address_spaces_inv(final(m)),
        !munmap_args_ok(start, len) ==> r == -1 && *final(tm) == *old(tm) && *final(m) == *old(m),
        munmap_args_ok(start, len) ==> {
            &&& final(tm).same_but_page_table(old(tm))
            &&& final(tm).tasks@[old(tm).current_task as int].page_table.root() == old(tm).tasks@[old(tm).current_task as int].page_table.root()
            &&& final(m).same_allocation(old(m))
            &&& r == if forall|v: u64|
                start / 4096 <= v < start / 4096 + pages_of(len) ==> #[trigger] is_mapped(
                    old(m),
                    old(tm).tasks@[old(tm).current_task as int].page_table.root(),
                    v,
                ) {
                0isize
            } else {
                -1isize
            }
            &&& r == 0 ==> unmapped_range(
                old(tm).tasks@[old(tm).current_task as int].page_table.root(),
                old(m),
                final(m),
                start / 4096,
                pages_of(len),
            )
            &&& r == -1 ==> exists|k: int|
                0 <= k < pages_of(len) && #[trigger] unmapped_range(
                    old(tm).tasks@[old(tm).current_task as int].page_table.root(),
                    old(m),
                    final(m),
                    start / 4096,
                    k,
                ) && !is_mapped(
                    old(m),
                    old(tm).tasks@[old(tm).current_task as int].page_table.root(),
                    (start / 4096 + k) as u64,
                )
        },
{
    if start % 4096 != 0 {
        return -1;
    }
    if len > 0x80_0000_0000 || start > 0x80_0000_0000 - len {
        return -1;
    }
    tm.unmap_current_with_len(m, start, len)
}

/// Moves the program break of the current task by `size` bytes and
/// returns the break as it was. A break below the bottom of the heap is
/// refused with -1 and changes nothing.
pub fn sys_sbrk(tm: &mut TaskManager, size: i32) -> (r: isize)
    requires
        old(tm).inv(),
        old(tm).tasks@[old(tm).current_task as int].program_brk <= isize::MAX,
    ensures
        final(tm).inv(),
        final(tm).num_app == old(tm).num_app,
        final(tm).current_task == old(tm).current_task,
        final(tm).ready_queue@ == old(tm).ready_queue@,
        final(tm).tasks@.len() == old(tm).tasks@.len(),
        forall|tid: int|
            0 <= tid < old(tm).tasks@.len() && tid != old(tm).current_task ==> final(tm).tasks@[tid]
                == old(tm).tasks@[tid],
        ({
            let before = old(tm).tasks@[old(tm).current_task as int];
            let after = final(tm).tasks@[old(tm).current_task as int];
            &&& after.heap_bottom == before.heap_bottom
            &&& after.task_status == before.task_status
            &&& after.page_table == before.page_table
            &&& before.heap_bottom <= before.program_brk + size <= u64::MAX ==> r
                == before.program_brk && after.program_brk == before.program_brk + size
            &&& !(before.heap_bottom <= before.program_brk + size <= u64::MAX) ==> r == -1
                && after.program_brk == before.program_brk
        }),
{
    match tm.change_current_program_brk(size) {
        Some(old_brk) => old_brk as isize,
        None => -1,
    }
}

} // verus!
