use kernel_core::mm::address::PhysPageNum;
use kernel_core::mm::address::VirtAddr;
use kernel_core::mm::address::VirtPageNum;
use kernel_core::mm::frame_allocator::FrameSlice;
use kernel_core::mm::frame_allocator::PhysMemory;
use kernel_core::mm::page_table::map_with_len;
use kernel_core::mm::page_table::translate_phys_addr;
use kernel_core::mm::page_table::translate_phys_addr_token;
use kernel_core::mm::page_table::translated_byte_buffer;
use kernel_core::mm::page_table::unmap_with_len;
use kernel_core::mm::page_table::PTEFlags;
use kernel_core::mm::page_table::PageTable;
use kernel_core::mm::page_table::PageTableEntry;

const BASE: u64 = 0x80000;

fn free_frames(m: &mut PhysMemory) -> usize {
    let mut taken = Vec::new();
    while let Some(f) = m.frame_alloc() {
        taken.push(f.ppn);
    }
    let n = taken.len();
    while let Some(p) = taken.pop() {
        m.frame_dealloc(p);
    }
    n
}

fn rw() -> PTEFlags {
    PTEFlags::from_bits(PTEFlags::R | PTEFlags::W).unwrap()
}

#[test]
fn flags_are_bits() {
    assert_eq!(PTEFlags::V, 1);
    assert_eq!(PTEFlags::R, 2);
    assert_eq!(PTEFlags::W, 4);
    assert_eq!(PTEFlags::X, 8);
    assert_eq!(PTEFlags::U, 16);
    assert_eq!(PTEFlags::G, 32);
    assert_eq!(PTEFlags::A, 64);
    assert_eq!(PTEFlags::D, 128);
    assert!(PTEFlags::empty().is_empty());
    assert_eq!(PTEFlags::from_bits(0xff).unwrap().bits(), 0xff);
    let f = rw() | PTEFlags::from_bits_truncate(PTEFlags::V);
    assert_eq!(f.bits(), 7);
    assert_eq!((f & rw()).bits(), 6);
    assert_eq!(f.union(PTEFlags::from_bits_truncate(PTEFlags::U)).bits(), 23);
    assert_eq!(f.intersection(PTEFlags::from_bits_truncate(PTEFlags::W)).bits(), 4);
    assert!(f.contains(rw()));
    assert!(!rw().contains(f));
}

#[test]
fn entry_holds_frame_and_flags() {
    let e = PageTableEntry::new(PhysPageNum(0x12345), PTEFlags::from_bits_truncate(0x17));
    assert_eq!(e.bits, (0x12345 << 10) | 0x17);
    assert_eq!(e.ppn(), PhysPageNum(0x12345));
    assert_eq!(e.flags().bits(), 0x17);
    assert!(e.is_valid());
    assert!(e.readable());
    assert!(e.writable());
    assert!(!e.executable());
    let x = PageTableEntry::new(PhysPageNum((1 << 44) - 1), PTEFlags::from_bits_truncate(0x08));
    assert_eq!(x.ppn(), PhysPageNum((1 << 44) - 1));
    assert!(!x.is_valid());
    assert!(x.executable());
    assert!(!x.readable());
    assert!(!x.writable());
    assert!(e.is_leaf());
    assert!(x.is_leaf());
    let table = PageTableEntry::new(PhysPageNum(5), PTEFlags::from_bits_truncate(PTEFlags::V));
    assert!(table.is_valid());
    assert!(!table.is_leaf());
    let empty = PageTableEntry::empty();
    assert!(!empty.is_leaf());
    assert_eq!(empty.bits, 0);
    assert!(!empty.is_valid());
    assert_eq!(empty.ppn(), PhysPageNum(0));
}

#[test]
fn token_names_the_root() {
    let mut m = PhysMemory::new(PhysPageNum(BASE), 8);
    let pt = PageTable::new(&mut m);
    assert_eq!(pt.root_ppn(), PhysPageNum(BASE + 7));
    assert_eq!(pt.token(), (8u64 << 60) | (BASE + 7));
    let view = PageTable::from_token(pt.token());
    assert_eq!(view.root_ppn(), pt.root_ppn());
}

#[test]
fn new_table_translates_nothing() {
    let mut m = PhysMemory::new(PhysPageNum(BASE), 8);
    let pt = PageTable::new(&mut m);
    assert_eq!(pt.translate(&m, VirtPageNum(0)), None);
    assert_eq!(pt.translate(&m, VirtPageNum(0x10000)), None);
    assert_eq!(pt.find_pte(&m, VirtPageNum(0x10000)), None);
}

#[test]
fn map_then_translate() {
    let mut m = PhysMemory::new(PhysPageNum(BASE), 8);
    let mut pt = PageTable::new(&mut m);
    let vpn = VirtPageNum(0x10000);
    pt.map(&mut m, vpn, PhysPageNum(0x4242), rw());
    let expected =
        PageTableEntry::new(PhysPageNum(0x4242), PTEFlags::from_bits_truncate(2 | 4 | 1));
    assert_eq!(pt.translate(&m, vpn), Some(expected));
    let e = pt.translate(&m, vpn).unwrap();
    assert_eq!(e.ppn(), PhysPageNum(0x4242));
    assert_eq!(e.flags().bits(), 7);
    assert!(e.is_valid());
    // The same translation through a view made from the token.
    let view = PageTable::from_token(pt.token());
    assert_eq!(view.translate(&m, vpn), Some(expected));
}

#[test]
fn map_creates_the_missing_tables_only() {
    let mut m = PhysMemory::new(PhysPageNum(BASE), 16);
    let mut pt = PageTable::new(&mut m);
    assert_eq!(free_frames(&mut m), 15);
    pt.map(&mut m, VirtPageNum(0x10000), PhysPageNum(1), rw());
    assert_eq!(free_frames(&mut m), 13);
    // Same last-level table: no frame is taken.
    pt.map(&mut m, VirtPageNum(0x10001), PhysPageNum(2), rw());
    assert_eq!(free_frames(&mut m), 13);
    // Same second-level table, another last-level table: one frame.
    pt.map(&mut m, VirtPageNum(0x10000 + 512), PhysPageNum(3), rw());
    assert_eq!(free_frames(&mut m), 12);
    // Another entry of the root: two frames.
    pt.map(&mut m, VirtPageNum(1 << 18), PhysPageNum(4), rw());
    assert_eq!(free_frames(&mut m), 10);
    assert_eq!(pt.translate(&m, VirtPageNum(0x10000)).unwrap().ppn(), PhysPageNum(1));
    assert_eq!(pt.translate(&m, VirtPageNum(0x10001)).unwrap().ppn(), PhysPageNum(2));
    assert_eq!(pt.translate(&m, VirtPageNum(0x10000 + 512)).unwrap().ppn(), PhysPageNum(3));
    assert_eq!(pt.translate(&m, VirtPageNum(1 << 18)).unwrap().ppn(), PhysPageNum(4));
}

#[test]
fn map_maps_no_other_page() {
    let mut m = PhysMemory::new(PhysPageNum(BASE), 8);
    let mut pt = PageTable::new(&mut m);
    pt.map(&mut m, VirtPageNum(0x10000), PhysPageNum(1), rw());
    // A page of the same last-level table: its place exists, and it is
    // not mapped.
    assert_eq!(pt.translate(&m, VirtPageNum(0x10005)), None);
    assert!(pt.find_pte(&m, VirtPageNum(0x10005)).is_some());
    // A page of another table: nothing is found.
    assert_eq!(pt.translate(&m, VirtPageNum(0x10000 + 512)), None);
    assert_eq!(pt.translate(&m, VirtPageNum(5)), None);
}

#[test]
fn map_then_unmap() {
    let mut m = PhysMemory::new(PhysPageNum(BASE), 8);
    let mut pt = PageTable::new(&mut m);
    let vpn = VirtPageNum(0x12345);
    pt.map(&mut m, VirtPageNum(0x12346), PhysPageNum(9), rw());
    pt.map(&mut m, vpn, PhysPageNum(7), rw());
    pt.unmap(&mut m, vpn);
    // The page is not mapped any more; the tables on the way stay.
    assert_eq!(pt.translate(&m, vpn), None);
    assert!(pt.find_pte(&m, vpn).is_some());
    // The other page is mapped as before.
    assert_eq!(pt.translate(&m, VirtPageNum(0x12346)).unwrap().ppn(), PhysPageNum(9));
    // The page can be mapped again.
    pt.map(&mut m, vpn, PhysPageNum(8), rw());
    assert_eq!(pt.translate(&m, vpn).unwrap().ppn(), PhysPageNum(8));
}

#[test]
fn try_unmap_tells_whether_the_page_was_mapped() {
    let mut m = PhysMemory::new(PhysPageNum(BASE), 8);
    let mut pt = PageTable::new(&mut m);
    let vpn = VirtPageNum(0x10000);
    assert_eq!(pt.try_unmap(&mut m, vpn), -1);
    pt.map(&mut m, vpn, PhysPageNum(7), rw());
    assert_eq!(pt.try_unmap(&mut m, VirtPageNum(0x10001)), -1);
    assert_eq!(pt.try_unmap(&mut m, vpn), 0);
    assert_eq!(pt.try_unmap(&mut m, vpn), -1);
    assert_eq!(pt.translate(&m, vpn), None);
}

#[test]
fn try_map_user_takes_a_frame_for_the_page() {
    let mut m = PhysMemory::new(PhysPageNum(BASE), 8);
    let mut pt = PageTable::new(&mut m);
    let vpn = VirtPageNum(0x10000);
    assert_eq!(pt.try_map_user(&mut m, vpn, rw()), 0);
    let e = pt.translate(&m, vpn).unwrap();
    assert!(e.is_valid());
    assert_eq!(e.flags().bits(), PTEFlags::R | PTEFlags::W | PTEFlags::V | PTEFlags::U);
    // Root, two tables and the frame of the page.
    assert_eq!(e.ppn(), PhysPageNum(BASE + 4));
    assert_eq!(free_frames(&mut m), 4);
    for i in 0..512 {
        assert_eq!(m.read_word(e.ppn(), i), 0);
    }
    // Mapped already.
    assert_eq!(pt.try_map_user(&mut m, vpn, rw()), -1);
    assert_eq!(pt.translate(&m, vpn), Some(e));
    assert_eq!(free_frames(&mut m), 4);
}

#[test]
fn try_map_user_fails_when_frames_run_out() {
    // Root and two tables fit, the frame of the page does not.
    let mut m = PhysMemory::new(PhysPageNum(BASE), 3);
    let mut pt = PageTable::new(&mut m);
    assert_eq!(pt.try_map_user(&mut m, VirtPageNum(0x10000), rw()), -1);
    assert_eq!(free_frames(&mut m), 0);
    // The tables that were created stay, and the page is not mapped.
    assert_eq!(pt.translate(&m, VirtPageNum(0x10000)), None);
    assert!(pt.find_pte(&m, VirtPageNum(0x10000)).is_some());
    // Not even the first table fits.
    let mut m = PhysMemory::new(PhysPageNum(BASE), 1);
    let mut pt = PageTable::new(&mut m);
    assert_eq!(pt.try_map_user(&mut m, VirtPageNum(0x10000), rw()), -1);
    assert_eq!(pt.translate(&m, VirtPageNum(0x10000)), None);
    // The first table fits, the second does not.
    let mut m = PhysMemory::new(PhysPageNum(BASE), 2);
    let mut pt = PageTable::new(&mut m);
    assert_eq!(pt.try_map_user(&mut m, VirtPageNum(0x10000), rw()), -1);
    assert_eq!(pt.translate(&m, VirtPageNum(0x10000)), None);
    assert_eq!(free_frames(&mut m), 0);
}

#[test]
fn map_with_len_maps_every_page_of_the_range() {
    let mut m = PhysMemory::new(PhysPageNum(BASE), 16);
    let mut pt = PageTable::new(&mut m);
    assert_eq!(map_with_len(&mut pt, &mut m, 0x1000_0000, 0, 3), 0);
    assert_eq!(pt.translate(&m, VirtPageNum(0x10000)), None);
    assert_eq!(map_with_len(&mut pt, &mut m, 0x1000_0000, 4096 * 2 + 1, 3), 0);
    let mut frames = Vec::new();
    for k in 0..3 {
        let e = pt.translate(&m, VirtPageNum(0x10000 + k)).unwrap();
        assert!(e.is_valid());
        // Port 3 shifted by one: readable and writable, for the user.
        assert_eq!(e.flags().bits(), (3 << 1) | PTEFlags::V | PTEFlags::U);
        assert!(!frames.contains(&e.ppn()));
        frames.push(e.ppn());
    }
    assert_eq!(pt.translate(&m, VirtPageNum(0x10003)), None);
    // Overlap: the first page of the range is mapped already.
    assert_eq!(map_with_len(&mut pt, &mut m, 0x1000_2000, 4096 * 2, 3), -1);
    assert_eq!(pt.translate(&m, VirtPageNum(0x10003)), None);
    // Overlap at the second page: the first page stays mapped.
    assert_eq!(map_with_len(&mut pt, &mut m, 0x0fff_f000, 4096 * 2, 1), -1);
    let before = pt.translate(&m, VirtPageNum(0xffff)).unwrap();
    assert!(before.is_valid());
    assert_eq!(before.flags().bits(), (1 << 1) | PTEFlags::V | PTEFlags::U);
}

#[test]
fn map_with_len_stops_when_frames_run_out() {
    let mut m = PhysMemory::new(PhysPageNum(BASE), 5);
    let mut pt = PageTable::new(&mut m);
    // Two tables and two pages fit, the third page does not.
    assert_eq!(map_with_len(&mut pt, &mut m, 0x1000_0000, 4096 * 3, 7), -1);
    assert!(pt.translate(&m, VirtPageNum(0x10000)).unwrap().is_valid());
    assert!(pt.translate(&m, VirtPageNum(0x10001)).unwrap().is_valid());
    assert_eq!(pt.translate(&m, VirtPageNum(0x10002)), None);
    assert_eq!(free_frames(&mut m), 0);
}

#[test]
fn unmap_with_len_unmaps_every_page_of_the_range() {
    let mut m = PhysMemory::new(PhysPageNum(BASE), 16);
    let mut pt = PageTable::new(&mut m);
    assert_eq!(map_with_len(&mut pt, &mut m, 0x1000_0000, 4096 * 3, 3), 0);
    assert_eq!(unmap_with_len(&mut pt, &mut m, 0x1000_1000, 4096 * 2), 0);
    assert!(pt.translate(&m, VirtPageNum(0x10000)).unwrap().is_valid());
    assert_eq!(pt.translate(&m, VirtPageNum(0x10001)), None);
    assert_eq!(pt.translate(&m, VirtPageNum(0x10002)), None);
    // The second page of this range is not mapped: the first is unmapped.
    assert_eq!(unmap_with_len(&mut pt, &mut m, 0x1000_0000, 4096 * 2), -1);
    assert_eq!(pt.translate(&m, VirtPageNum(0x10000)), None);
    assert_eq!(unmap_with_len(&mut pt, &mut m, 0x1000_0000, 0), 0);
    assert_eq!(unmap_with_len(&mut pt, &mut m, 0x2000_0000, 1), -1);
}

#[test]
fn physical_address_of_a_virtual_address() {
    assert_eq!(translate_phys_addr(VirtAddr(0x1000_0abc), PhysPageNum(0x80123)), 0x8012_3abc);
    let mut m = PhysMemory::new(PhysPageNum(BASE), 8);
    let mut pt = PageTable::new(&mut m);
    pt.map(&mut m, VirtPageNum(0x10000), PhysPageNum(0x80123), rw());
    assert_eq!(translate_phys_addr_token(&m, pt.token(), 0x1000_0abc), 0x8012_3abc);
}

#[test]
fn buffer_inside_one_page() {
    let mut m = PhysMemory::new(PhysPageNum(BASE), 8);
    let mut pt = PageTable::new(&mut m);
    pt.map(&mut m, VirtPageNum(0x10000), PhysPageNum(BASE), rw());
    let v = translated_byte_buffer(&m, pt.token(), 0x1000_0010, 16);
    assert_eq!(v, vec![FrameSlice { ppn: PhysPageNum(BASE), start: 0x10, end: 0x20 }]);
    assert_eq!(translated_byte_buffer(&m, pt.token(), 0x1000_0010, 0), vec![]);
    // Up to the end of the page.
    let v = translated_byte_buffer(&m, pt.token(), 0x1000_0ff0, 16);
    assert_eq!(v, vec![FrameSlice { ppn: PhysPageNum(BASE), start: 0xff0, end: 4096 }]);
}

#[test]
fn buffer_across_pages() {
    let mut m = PhysMemory::new(PhysPageNum(BASE), 8);
    let mut pt = PageTable::new(&mut m);
    pt.map(&mut m, VirtPageNum(0x10000), PhysPageNum(BASE + 1), rw());
    pt.map(&mut m, VirtPageNum(0x10001), PhysPageNum(BASE), rw());
    pt.map(&mut m, VirtPageNum(0x10002), PhysPageNum(BASE + 2), rw());
    let v = translated_byte_buffer(&m, pt.token(), 0x1000_0ff8, 16);
    assert_eq!(
        v,
        vec![
            FrameSlice { ppn: PhysPageNum(BASE + 1), start: 4088, end: 4096 },
            FrameSlice { ppn: PhysPageNum(BASE), start: 0, end: 8 },
        ]
    );
    let v = translated_byte_buffer(&m, pt.token(), 0x1000_0800, 4096 * 2);
    assert_eq!(
        v,
        vec![
            FrameSlice { ppn: PhysPageNum(BASE + 1), start: 0x800, end: 4096 },
            FrameSlice { ppn: PhysPageNum(BASE), start: 0, end: 4096 },
            FrameSlice { ppn: PhysPageNum(BASE + 2), start: 0, end: 0x800 },
        ]
    );
    let total: usize = v.iter().map(|s| s.end - s.start).sum();
    assert_eq!(total, 4096 * 2);
}

#[test]
fn entries_on_the_way_name_tables() {
    let mut m = PhysMemory::new(PhysPageNum(BASE), 8);
    let mut pt = PageTable::new(&mut m);
    let vpn = VirtPageNum((3 << 18) | (5 << 9) | 7);
    pt.map(&mut m, vpn, PhysPageNum(0x99), rw());
    let root = pt.root_ppn();
    let top = PageTableEntry { bits: m.read_word(root, 3) };
    assert!(top.is_valid());
    assert!(!top.is_leaf());
    assert_eq!(top.flags().bits(), PTEFlags::V);
    let middle = PageTableEntry { bits: m.read_word(top.ppn(), 5) };
    assert_eq!(middle.flags().bits(), PTEFlags::V);
    let leaf = PageTableEntry { bits: m.read_word(middle.ppn(), 7) };
    assert_eq!(leaf.ppn(), PhysPageNum(0x99));
    assert!(leaf.is_leaf());
    assert_eq!(pt.find_pte(&m, vpn), Some((middle.ppn(), 7)));
    // The root and the two tables are the frames taken from the memory.
    assert_eq!(root, PhysPageNum(BASE + 7));
    assert_eq!(top.ppn(), PhysPageNum(BASE + 6));
    assert_eq!(middle.ppn(), PhysPageNum(BASE + 5));
    assert_eq!(m.read_word(root, 4), 0);
}

#[test]
fn release_gives_the_frames_back() {
    let mut m = PhysMemory::new(PhysPageNum(BASE), 16);
    let other = m.frame_alloc().unwrap().ppn;
    let mut pt = PageTable::new(&mut m);
    assert_eq!(map_with_len(&mut pt, &mut m, 0x1000_0000, 4096 * 3, 3), 0);
    pt.map(&mut m, VirtPageNum(1 << 18), PhysPageNum(1), rw());
    // Root, two tables, three pages, two more tables.
    assert_eq!(free_frames(&mut m), 16 - 1 - 8);
    pt.release(&mut m);
    assert_eq!(free_frames(&mut m), 15);
    m.frame_dealloc(other);
    assert_eq!(free_frames(&mut m), 16);
}

#[test]
fn map_with_len_gives_each_page_a_frame_of_zeros_of_its_own() {
    let mut m = PhysMemory::new(PhysPageNum(BASE), 16);
    // Frames that were used before are handed out again, filled anew.
    let dirty: Vec<PhysPageNum> = (0..6).map(|_| m.frame_alloc().unwrap().ppn).collect();
    for f in &dirty {
        m.write_word(*f, 3, 0xdead_beef);
    }
    for f in &dirty {
        m.frame_dealloc(*f);
    }
    let mut pt = PageTable::new(&mut m);
    assert_eq!(map_with_len(&mut pt, &mut m, 0x1000_0000, 4096 * 4, 3), 0);
    let mut frames = Vec::new();
    for k in 0..4 {
        let e = pt.translate(&m, VirtPageNum(0x10000 + k)).unwrap();
        assert!(!frames.contains(&e.ppn()));
        frames.push(e.ppn());
        for i in 0..512 {
            assert_eq!(m.read_word(e.ppn(), i), 0);
        }
    }
}

#[test]
fn map_with_len_takes_one_frame_for_each_page_and_each_missing_table() {
    // Two pages on both sides of the end of a last-level table: two tables
    // at first, one more for the second page, and the two pages.
    let start = 0x1000_0000 + 511 * 4096;
    let mut m = PhysMemory::new(PhysPageNum(BASE), 6);
    let mut pt = PageTable::new(&mut m);
    assert_eq!(map_with_len(&mut pt, &mut m, start, 4096 * 2, 3), 0);
    assert_eq!(free_frames(&mut m), 0);
    // With one frame less the second page finds none.
    let mut m = PhysMemory::new(PhysPageNum(BASE), 5);
    let mut pt = PageTable::new(&mut m);
    assert_eq!(map_with_len(&mut pt, &mut m, start, 4096 * 2, 3), -1);
    assert!(pt.translate(&m, VirtPageNum(0x10000 + 511)).is_some());
    assert_eq!(pt.translate(&m, VirtPageNum(0x10000 + 512)), None);
    assert_eq!(free_frames(&mut m), 0);
    // Inside one table, two pages take two tables and two frames.
    let mut m = PhysMemory::new(PhysPageNum(BASE), 5);
    let mut pt = PageTable::new(&mut m);
    assert_eq!(map_with_len(&mut pt, &mut m, 0x1000_0000, 4096 * 2, 3), 0);
    assert_eq!(free_frames(&mut m), 0);
}

#[test]
fn map_with_len_stops_at_the_first_page_that_is_mapped() {
    let mut m = PhysMemory::new(PhysPageNum(BASE), 32);
    let mut pt = PageTable::new(&mut m);
    pt.map(&mut m, VirtPageNum(0x10003), PhysPageNum(0x77), rw());
    let free = free_frames(&mut m);
    assert_eq!(map_with_len(&mut pt, &mut m, 0x1000_0000, 4096 * 6, 5), -1);
    // The three pages before it are mapped, each with a frame.
    for k in 0..3 {
        let e = pt.translate(&m, VirtPageNum(0x10000 + k)).unwrap();
        assert_eq!(e.flags().bits(), (5 << 1) | PTEFlags::V | PTEFlags::U);
    }
    assert_eq!(free_frames(&mut m), free - 3);
    // The page itself and the pages behind it are as before.
    assert_eq!(pt.translate(&m, VirtPageNum(0x10003)).unwrap().ppn(), PhysPageNum(0x77));
    assert_eq!(pt.translate(&m, VirtPageNum(0x10004)), None);
    assert_eq!(pt.translate(&m, VirtPageNum(0x10005)), None);
}

#[test]
fn buffer_in_the_upper_half_of_the_address_space() {
    let mut m = PhysMemory::new(PhysPageNum(BASE), 16);
    let mut pt = PageTable::new(&mut m);
    let top = (1u64 << 39) - 2 * 4096;
    assert_eq!(map_with_len(&mut pt, &mut m, top, 4096 * 2, 3), 0);
    let v = translated_byte_buffer(&m, pt.token(), top + 4000, 4096 + 96);
    assert_eq!(v.len(), 2);
    assert_eq!((v[0].start, v[0].end), (4000, 4096));
    assert_eq!((v[1].start, v[1].end), (0, 4096));
    assert_eq!(v[0].ppn, pt.translate(&m, VirtPageNum(top >> 12)).unwrap().ppn());
    assert_eq!(v[1].ppn, pt.translate(&m, VirtPageNum((top >> 12) + 1)).unwrap().ppn());
}
