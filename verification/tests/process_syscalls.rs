use kernel_core::mm::address::PhysPageNum;
use kernel_core::mm::address::VirtPageNum;
use kernel_core::mm::frame_allocator::PhysMemory;
use kernel_core::mm::page_table::translated_byte_buffer;
use kernel_core::mm::page_table::PTEFlags;
use kernel_core::mm::page_table::PageTable;
use kernel_core::syscall::process::read_from_user;
use kernel_core::syscall::process::sys_exit;
use kernel_core::syscall::process::sys_get_time;
use kernel_core::syscall::process::sys_mmap;
use kernel_core::syscall::process::sys_munmap;
use kernel_core::syscall::process::sys_sbrk;
use kernel_core::syscall::process::sys_task_info;
use kernel_core::syscall::process::sys_yield;
use kernel_core::syscall::process::write_to_user;
use kernel_core::syscall::process::TaskInfo;
use kernel_core::syscall::process::TimeVal;
use kernel_core::task::run_first_task;
use kernel_core::task::update_syscall_times;
use kernel_core::task::Switch;
use kernel_core::task::TaskControlBlock;
use kernel_core::task::TaskManager;
use kernel_core::task::TaskStatus;
use kernel_core::syscall::process::user_buffer_writable;

const START: u64 = 0x1000_0000;

fn kernel(tasks: usize, frames: usize) -> (TaskManager, PhysMemory) {
    let mut m = PhysMemory::new(PhysPageNum(0x80000), frames);
    let mut blocks = Vec::new();
    for _ in 0..tasks {
        let pt = PageTable::new(&mut m);
        blocks.push(TaskControlBlock::new(pt, PhysPageNum(0), 0x20_0000));
    }
    let mut tm = TaskManager::new(blocks);
    assert_eq!(run_first_task(&mut tm), Switch::To { current: 0, next: 0 });
    (tm, m)
}

fn current_entry(tm: &TaskManager, m: &PhysMemory, vpn: u64) -> Option<kernel_core::mm::page_table::PageTableEntry> {
    tm.tasks[tm.current_task].page_table.translate(m, VirtPageNum(vpn))
}

fn read_user(tm: &TaskManager, m: &PhysMemory, ptr: u64, len: u64) -> Vec<u8> {
    read_from_user(tm, m, ptr, len)
}

#[test]
fn mmap_then_munmap() {
    let (mut tm, mut m) = kernel(1, 16);
    assert_eq!(sys_mmap(&mut tm, &mut m, START, 4096, 3), 0);
    let e = current_entry(&tm, &m, START >> 12).unwrap();
    assert!(e.is_valid());
    assert!(e.readable());
    assert!(e.writable());
    assert!(!e.executable());
    assert_eq!(e.flags().bits() & PTEFlags::U, PTEFlags::U);
    // Reading and writing the page succeeds.
    let data: Vec<u8> = (0..=255).collect();
    write_to_user(&tm, &mut m, START + 100, &data);
    assert_eq!(read_user(&tm, &m, START + 100, 256), data);
    assert_eq!(read_user(&tm, &m, START, 4), vec![0, 0, 0, 0]);
    assert_eq!(sys_munmap(&mut tm, &mut m, START, 4096), 0);
    // The page has no valid entry any more: an access traps.
    assert_eq!(current_entry(&tm, &m, START >> 12), None);
    assert_eq!(sys_munmap(&mut tm, &mut m, START, 4096), -1);
}

#[test]
fn mmap_overlap() {
    let (mut tm, mut m) = kernel(1, 16);
    assert_eq!(sys_mmap(&mut tm, &mut m, START, 4096, 3), 0);
    let before = current_entry(&tm, &m, START >> 12);
    assert_eq!(sys_mmap(&mut tm, &mut m, START, 4096, 3), -1);
    assert_eq!(current_entry(&tm, &m, START >> 12), before);
}

#[test]
fn mmap_bad_port() {
    let (mut tm, mut m) = kernel(1, 16);
    assert_eq!(sys_mmap(&mut tm, &mut m, START, 4096, 0), -1);
    assert_eq!(sys_mmap(&mut tm, &mut m, START, 4096, 8), -1);
    assert_eq!(sys_mmap(&mut tm, &mut m, START, 4096, 0x17), -1);
    assert_eq!(current_entry(&tm, &m, START >> 12), None);
    for port in 1..8 {
        let start = START + port as u64 * 4096;
        assert_eq!(sys_mmap(&mut tm, &mut m, start, 4096, port), 0);
        let e = current_entry(&tm, &m, start >> 12).unwrap();
        assert_eq!(e.flags().bits(), ((port << 1) as u8) | PTEFlags::V | PTEFlags::U);
    }
}

#[test]
fn mmap_unaligned_or_out_of_range() {
    let (mut tm, mut m) = kernel(1, 16);
    assert_eq!(sys_mmap(&mut tm, &mut m, START + 1, 4096, 3), -1);
    assert_eq!(sys_mmap(&mut tm, &mut m, 1 << 39, 4096, 3), -1);
    assert_eq!(sys_mmap(&mut tm, &mut m, START, u64::MAX, 3), -1);
    assert_eq!(sys_munmap(&mut tm, &mut m, START + 8, 4096), -1);
    assert_eq!(sys_munmap(&mut tm, &mut m, START, u64::MAX), -1);
    assert_eq!(current_entry(&tm, &m, START >> 12), None);
    assert_eq!(sys_mmap(&mut tm, &mut m, START, 0, 3), 0);
    assert_eq!(current_entry(&tm, &m, START >> 12), None);
}

#[test]
fn mmap_without_memory_left() {
    let (mut tm, mut m) = kernel(1, 4);
    // Root, two tables, one page: the second page finds no frame.
    assert_eq!(sys_mmap(&mut tm, &mut m, START, 8192, 3), -1);
    assert!(current_entry(&tm, &m, START >> 12).unwrap().is_valid());
    assert_eq!(current_entry(&tm, &m, (START >> 12) + 1), None);
}

#[test]
fn time_val_bytes() {
    let tv = TimeVal { sec: 0x0102_0304, usec: 0xaabb };
    let bytes = tv.to_bytes();
    assert_eq!(bytes.len(), 16);
    assert_eq!(&bytes[0..8], &[4, 3, 2, 1, 0, 0, 0, 0]);
    assert_eq!(&bytes[8..16], &[0xbb, 0xaa, 0, 0, 0, 0, 0, 0]);
    assert_eq!(TimeVal::from_bytes(&bytes), tv);
    assert_eq!(TimeVal::from_us(3_000_042), TimeVal { sec: 3, usec: 42 });
    assert_eq!(TimeVal::SIZE, 16);
}

#[test]
fn get_time_inside_a_page() {
    let (mut tm, mut m) = kernel(1, 16);
    assert_eq!(sys_mmap(&mut tm, &mut m, START, 4096, 3), 0);
    assert_eq!(sys_get_time(&tm, &mut m, START + 16, 0, 1_234_567_890), 0);
    let bytes = read_user(&tm, &m, START + 16, 16);
    assert_eq!(TimeVal::from_bytes(&bytes), TimeVal { sec: 1234, usec: 567_890 });
    assert_eq!(read_user(&tm, &m, START, 16), vec![0; 16]);
    assert_eq!(read_user(&tm, &m, START + 32, 16), vec![0; 16]);
}

#[test]
fn get_time_across_two_pages() {
    let (mut tm, mut m) = kernel(1, 16);
    assert_eq!(sys_mmap(&mut tm, &mut m, START, 8192, 3), 0);
    let ts = START + 4088;
    let slices = translated_byte_buffer(&m, tm.get_current_token(), ts, 16);
    // The time straddles two frames, which do not follow each other.
    assert_eq!(slices.len(), 2);
    assert_eq!((slices[0].start, slices[0].end), (4088, 4096));
    assert_eq!((slices[1].start, slices[1].end), (0, 8));
    assert_ne!(slices[0].ppn, slices[1].ppn);
    assert_ne!(slices[1].ppn.0, slices[0].ppn.0 + 1);
    assert_eq!(sys_get_time(&tm, &mut m, ts, 0, 98_765_432_101), 0);
    // Read back through a second translation.
    let bytes = read_user(&tm, &m, ts, 16);
    assert_eq!(TimeVal::from_bytes(&bytes), TimeVal { sec: 98_765, usec: 432_101 });
    // The seconds lie at the end of the first frame, the microseconds at
    // the start of the second.
    assert_eq!(m.read_word(slices[0].ppn, 511), 98_765);
    assert_eq!(m.read_word(slices[1].ppn, 0), 432_101);
    // The page tables are untouched: the pages translate as before.
    assert_eq!(translated_byte_buffer(&m, tm.get_current_token(), ts, 16), slices);
}

#[test]
fn task_info_is_written_to_the_user() {
    let (mut tm, mut m) = kernel(1, 16);
    assert_eq!(sys_mmap(&mut tm, &mut m, START, 8192, 3), 0);
    tm.tasks[0].start_time = 1_000_000;
    assert_eq!(update_syscall_times(&mut tm, 64), 0);
    assert_eq!(update_syscall_times(&mut tm, 64), 0);
    assert_eq!(update_syscall_times(&mut tm, 499), 0);
    let ti = START + 3000;
    assert_eq!(sys_task_info(&tm, &mut m, ti, 3_500_000), 0);
    let bytes = read_user(&tm, &m, ti, TaskInfo::SIZE);
    assert_eq!(bytes.len(), 2016);
    // Running.
    assert_eq!(&bytes[0..4], &[2, 0, 0, 0]);
    let counter = |id: usize| {
        let at = 4 + 4 * id;
        u32::from_le_bytes([bytes[at], bytes[at + 1], bytes[at + 2], bytes[at + 3]])
    };
    assert_eq!(counter(64), 2);
    assert_eq!(counter(499), 1);
    assert_eq!(counter(0), 0);
    assert_eq!(counter(63), 0);
    let mut time = [0u8; 8];
    time.copy_from_slice(&bytes[2008..2016]);
    assert_eq!(u64::from_le_bytes(time), 2500);
}

#[test]
fn task_info_bytes() {
    let mut syscall_times = vec![0u32; 500];
    syscall_times[1] = 0x0102_0304;
    let info = TaskInfo { status: TaskStatus::Exited, syscall_times, time: 77 };
    let bytes = info.to_bytes();
    assert_eq!(bytes.len(), 2016);
    assert_eq!(bytes[0], 3);
    assert_eq!(&bytes[8..12], &[4, 3, 2, 1]);
    assert_eq!(bytes[2008], 77);
    let ready = TaskInfo { status: TaskStatus::Ready, syscall_times: vec![0; 500], time: 0 };
    assert_eq!(ready.to_bytes()[0], 1);
    let uninit = TaskInfo { status: TaskStatus::UnInit, syscall_times: vec![0; 500], time: 0 };
    assert_eq!(uninit.to_bytes()[0], 0);
    let blocked = TaskInfo { status: TaskStatus::Blocked, syscall_times: vec![0; 500], time: 0 };
    assert_eq!(blocked.to_bytes()[0], 4);
}

#[test]
fn sbrk_moves_the_break() {
    let (mut tm, _m) = kernel(1, 4);
    assert_eq!(sys_sbrk(&mut tm, 0), 0x20_0000);
    assert_eq!(sys_sbrk(&mut tm, 4096), 0x20_0000);
    assert_eq!(sys_sbrk(&mut tm, 100), 0x20_1000);
    assert_eq!(tm.tasks[0].program_brk, 0x20_1064);
    assert_eq!(sys_sbrk(&mut tm, -100), 0x20_1064);
    // Below the bottom of the heap: refused, nothing changes.
    assert_eq!(sys_sbrk(&mut tm, -4097), -1);
    assert_eq!(tm.tasks[0].program_brk, 0x20_1000);
    assert_eq!(sys_sbrk(&mut tm, -4096), 0x20_1000);
    assert_eq!(tm.tasks[0].program_brk, 0x20_0000);
    assert_eq!(tm.tasks[0].heap_bottom, 0x20_0000);
}

#[test]
fn yield_gives_the_processor_to_the_next_task() {
    let (mut tm, _m) = kernel(3, 8);
    assert_eq!(sys_yield(&mut tm), (0, Switch::To { current: 0, next: 1 }));
    assert_eq!(tm.tasks[0].task_status, TaskStatus::Ready);
    assert_eq!(tm.tasks[1].task_status, TaskStatus::Running);
    assert_eq!(sys_yield(&mut tm), (0, Switch::To { current: 1, next: 2 }));
    assert_eq!(sys_yield(&mut tm), (0, Switch::To { current: 2, next: 0 }));
    assert_eq!(tm.current_task, 0);
}

#[test]
fn yield_of_the_only_task_gives_it_the_processor_again() {
    let (mut tm, _m) = kernel(1, 4);
    assert_eq!(sys_yield(&mut tm), (0, Switch::To { current: 0, next: 0 }));
    assert_eq!(tm.tasks[0].task_status, TaskStatus::Running);
    assert_eq!(tm.ready_queue.len(), 0);
}

#[test]
fn exit_until_all_tasks_have_completed() {
    let (mut tm, _m) = kernel(2, 8);
    assert_eq!(sys_exit(&mut tm, 0), Switch::To { current: 0, next: 1 });
    assert_eq!(tm.tasks[0].task_status, TaskStatus::Exited);
    assert_eq!(sys_yield(&mut tm), (0, Switch::To { current: 1, next: 1 }));
    assert_eq!(sys_exit(&mut tm, -1), Switch::Halt);
    assert_eq!(tm.tasks[1].task_status, TaskStatus::Exited);
}

#[test]
fn user_buffer_can_be_written_where_it_is_mapped() {
    let (mut tm, mut m) = kernel(1, 16);
    assert_eq!(sys_mmap(&mut tm, &mut m, START, 8192, 3), 0);
    let table = &tm.tasks[0].page_table;
    assert!(user_buffer_writable(table, &m, START, 8192));
    assert!(user_buffer_writable(table, &m, START + 4088, 16));
    assert!(user_buffer_writable(table, &m, START + 100, 0));
    // The third page is not mapped.
    assert!(!user_buffer_writable(table, &m, START, 8193));
    assert!(!user_buffer_writable(table, &m, START + 8192, 1));
    // No table on the way.
    assert!(!user_buffer_writable(table, &m, 0x2000_0000, 1));
    // Beyond the address space.
    assert!(!user_buffer_writable(table, &m, (1 << 39) - 8, 16));
    assert!(!user_buffer_writable(table, &m, START, u64::MAX));
}

#[test]
fn user_buffer_needs_a_frame_of_its_own_for_each_page() {
    let mut m = PhysMemory::new(PhysPageNum(0x80000), 16);
    let mut pt = PageTable::new(&mut m);
    let rw = PTEFlags::from_bits_truncate(PTEFlags::R | PTEFlags::W);
    pt.map(&mut m, VirtPageNum(0x10000), PhysPageNum(0x80001), rw);
    pt.map(&mut m, VirtPageNum(0x10001), PhysPageNum(0x80001), rw);
    pt.map(&mut m, VirtPageNum(0x10002), PhysPageNum(0x70000), rw);
    assert!(user_buffer_writable(&pt, &m, START, 4096));
    assert!(user_buffer_writable(&pt, &m, START + 4096, 4096));
    // Two pages in one frame.
    assert!(!user_buffer_writable(&pt, &m, START + 4000, 200));
    // A frame outside the memory.
    assert!(!user_buffer_writable(&pt, &m, START + 8192, 8));
}

#[test]
fn address_spaces_are_separate() {
    let (mut tm, mut m) = kernel(2, 32);
    assert_eq!(sys_mmap(&mut tm, &mut m, START, 4096, 3), 0);
    write_to_user(&tm, &mut m, START, &vec![0xaa; 8]);
    let first = current_entry(&tm, &m, START >> 12).unwrap();
    assert_eq!(sys_yield(&mut tm), (0, Switch::To { current: 0, next: 1 }));
    // The page is not mapped in the address space of the other task.
    assert_eq!(current_entry(&tm, &m, START >> 12), None);
    assert_eq!(sys_mmap(&mut tm, &mut m, START, 4096, 1), 0);
    let second = current_entry(&tm, &m, START >> 12).unwrap();
    assert_ne!(first.ppn(), second.ppn());
    assert_eq!(read_user(&tm, &m, START, 8), vec![0; 8]);
    write_to_user(&tm, &mut m, START, &vec![0x55; 8]);
    assert_eq!(sys_munmap(&mut tm, &mut m, START, 4096), 0);
    assert_eq!(sys_yield(&mut tm), (0, Switch::To { current: 1, next: 0 }));
    // The first task finds its page as it left it.
    assert_eq!(current_entry(&tm, &m, START >> 12), Some(first));
    assert_eq!(read_user(&tm, &m, START, 8), vec![0xaa; 8]);
}

#[test]
fn get_time_changes_no_other_byte() {
    let (mut tm, mut m) = kernel(1, 16);
    assert_eq!(sys_mmap(&mut tm, &mut m, START, 8192, 3), 0);
    write_to_user(&tm, &mut m, START, &vec![0x11; 8192]);
    let ts = START + 4088;
    assert_eq!(sys_get_time(&tm, &mut m, ts, 0, 7_000_009), 0);
    let all = read_user(&tm, &m, START, 8192);
    for (i, b) in all.iter().enumerate() {
        if i < 4088 || i >= 4088 + 16 {
            assert_eq!(*b, 0x11, "byte {}", i);
        }
    }
    assert_eq!(TimeVal::from_bytes(&all[4088..4104].to_vec()), TimeVal { sec: 7, usec: 9 });
}

#[test]
fn get_time_in_the_upper_half_of_the_address_space() {
    let (mut tm, mut m) = kernel(1, 16);
    let top = (1u64 << 39) - 4096;
    assert_eq!(sys_mmap(&mut tm, &mut m, top, 4096, 3), 0);
    assert!(user_buffer_writable(&tm.tasks[0].page_table, &m, top + 4080, 16));
    assert_eq!(sys_get_time(&tm, &mut m, top + 4080, 0, 5_000_001), 0);
    let bytes = read_user(&tm, &m, top + 4080, 16);
    assert_eq!(TimeVal::from_bytes(&bytes), TimeVal { sec: 5, usec: 1 });
}
