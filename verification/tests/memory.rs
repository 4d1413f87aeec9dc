use kernel_core::mm::address::PhysAddr;
use kernel_core::mm::address::PhysPageNum;
use kernel_core::mm::address::VirtAddr;
use kernel_core::mm::address::VirtPageNum;
use kernel_core::mm::frame_allocator::FrameSlice;
use kernel_core::mm::frame_allocator::PhysMemory;

#[test]
fn addresses_split_into_page_and_offset() {
    let va = VirtAddr::new(0x1000_0123);
    assert_eq!(va.0, 0x1000_0123);
    assert_eq!(va.page_offset(), 0x123);
    assert_eq!(va.floor(), VirtPageNum(0x10000));
    assert_eq!(va.ceil(), VirtPageNum(0x10001));
    assert!(!va.aligned());
    assert!(VirtAddr::new(0x2000).aligned());
    assert_eq!(VirtAddr::new(0x2000).ceil(), VirtPageNum(2));
    assert_eq!(VirtAddr::from_vpn(VirtPageNum(0x10000)), VirtAddr(0x1000_0000));
    let pa = PhysAddr::new(0x8020_0fff);
    assert_eq!(pa.page_offset(), 0xfff);
    assert_eq!(pa.floor(), PhysPageNum(0x80200));
    assert_eq!(PhysAddr::from_ppn(PhysPageNum(0x80200)), PhysAddr(0x8020_0000));
}

#[test]
fn addresses_keep_their_low_bits_only() {
    assert_eq!(VirtAddr::new(u64::MAX).0, (1 << 39) - 1);
    assert_eq!(PhysAddr::new(u64::MAX).0, (1 << 56) - 1);
    assert_eq!(VirtPageNum::new(u64::MAX).0, (1 << 27) - 1);
    assert_eq!(PhysPageNum::new(u64::MAX).0, (1 << 44) - 1);
}

#[test]
fn page_number_indexes_high_index_first() {
    let vpn = VirtPageNum((3 << 18) | (5 << 9) | 7);
    assert_eq!(vpn.indexes(), [3, 5, 7]);
    assert_eq!(VirtPageNum(0).indexes(), [0, 0, 0]);
    assert_eq!(VirtPageNum((1 << 27) - 1).indexes(), [511, 511, 511]);
    let mut v = VirtPageNum(41);
    v.step();
    assert_eq!(v, VirtPageNum(42));
}

#[test]
fn frames_come_from_the_top_and_are_reused_last_in_first_out() {
    let mut m = PhysMemory::new(PhysPageNum(0x100), 4);
    assert!(m.has_free_frame());
    assert!(m.has_frame(PhysPageNum(0x100)));
    assert!(m.has_frame(PhysPageNum(0x103)));
    assert!(!m.has_frame(PhysPageNum(0x104)));
    assert!(!m.has_frame(PhysPageNum(0xff)));
    let a = m.frame_alloc().unwrap().ppn;
    let b = m.frame_alloc().unwrap().ppn;
    let c = m.frame_alloc().unwrap().ppn;
    assert_eq!((a, b, c), (PhysPageNum(0x103), PhysPageNum(0x102), PhysPageNum(0x101)));
    m.frame_dealloc(a);
    m.frame_dealloc(c);
    // The frame given back last is handed out first.
    assert_eq!(m.frame_alloc().unwrap().ppn, c);
    assert_eq!(m.frame_alloc().unwrap().ppn, a);
    assert_eq!(m.frame_alloc().unwrap().ppn, PhysPageNum(0x100));
    assert!(!m.has_free_frame());
    assert!(m.frame_alloc().is_none());
}

#[test]
fn frames_are_handed_out_filled_with_zeros() {
    let mut m = PhysMemory::new(PhysPageNum(8), 2);
    let f = m.frame_alloc().unwrap().ppn;
    m.write_word(f, 0, 0xdead_beef);
    m.write_word(f, 511, u64::MAX);
    m.write_byte(f, 100, 7);
    m.frame_dealloc(f);
    let g = m.frame_alloc().unwrap().ppn;
    assert_eq!(g, f);
    for i in 0..512 {
        assert_eq!(m.read_word(g, i), 0);
    }
}

#[test]
fn bytes_are_the_bytes_of_the_words() {
    let mut m = PhysMemory::new(PhysPageNum(8), 1);
    let f = m.frame_alloc().unwrap().ppn;
    m.write_word(f, 1, 0x0807_0605_0403_0201);
    for k in 0..8 {
        assert_eq!(m.read_byte(f, 8 + k), (k + 1) as u8);
    }
    m.write_byte(f, 10, 0xaa);
    assert_eq!(m.read_word(f, 1), 0x0807_0605_04aa_0201);
    assert_eq!(m.read_byte(f, 9), 2);
    assert_eq!(m.read_byte(f, 11), 4);
    assert_eq!(m.read_word(f, 0), 0);
    assert_eq!(m.read_word(f, 2), 0);
}

#[test]
fn bytes_written_to_slices_are_read_back() {
    let mut m = PhysMemory::new(PhysPageNum(8), 3);
    let a = m.frame_alloc().unwrap().ppn;
    let b = m.frame_alloc().unwrap().ppn;
    let slices = vec![
        FrameSlice { ppn: a, start: 4090, end: 4096 },
        FrameSlice { ppn: b, start: 0, end: 5 },
    ];
    let data: Vec<u8> = (1..=11).collect();
    m.write_bytes(&slices, &data);
    assert_eq!(m.read_bytes(&slices), data);
    assert_eq!(m.read_byte(a, 4090), 1);
    assert_eq!(m.read_byte(a, 4095), 6);
    assert_eq!(m.read_byte(b, 0), 7);
    assert_eq!(m.read_byte(b, 4), 11);
    assert_eq!(m.read_byte(a, 4089), 0);
    assert_eq!(m.read_byte(b, 5), 0);
}
