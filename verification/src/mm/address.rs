//! Physical and virtual addresses and page numbers of the SV39 scheme.
//!
//! A virtual page number is 27 bits wide and a physical page number 44; an
//! address is a page number followed by the 12 bits of the offset inside
//! the page.

use crate::config::PAGE_SIZE;
use vstd::prelude::*;

verus! {

/// One more than the largest physical page number.
pub const PPN_LIMIT: u64 = 0x1000_0000_0000;

/// One more than the largest virtual page number.
pub const VPN_LIMIT: u64 = 0x800_0000;

/// A physical address.
#[derive(Copy, Clone, Debug, PartialEq, Eq, Structural)]
pub struct PhysAddr(pub u64);

/// A virtual address.
#[derive(Copy, Clone, Debug, PartialEq, Eq, Structural)]
pub struct VirtAddr(pub u64);

/// The number of a physical frame.
#[derive(Copy, Clone, Debug, PartialEq, Eq, Structural)]
pub struct PhysPageNum(pub u64);

/// The number of a virtual page.
#[derive(Copy, Clone, Debug, PartialEq, Eq, Structural)]
pub struct VirtPageNum(pub u64);

/// The three indices, nine bits each, by which the page number `vpn` is
/// looked up: the index into the root table first.
#[verifier::opaque]
pub open spec fn vpn_indexes(vpn: u64) -> (int, int, int) {
    ((vpn as int / 0x4_0000) % 512, (vpn as int / 512) % 512, vpn as int % 512)
}

/// Each index is a place in a table of 512 entries.
pub proof fn lemma_vpn_indexes_range(vpn: u64)
    ensures
        0 <= vpn_indexes(vpn).0 < 512,
        0 <= vpn_indexes(vpn).1 < 512,
        0 <= vpn_indexes(vpn).2 < 512,
{
    reveal(vpn_indexes);
}

/// Two page numbers below `VPN_LIMIT` with the same indices are the same.
pub proof fn lemma_vpn_indexes_injective(a: u64, b: u64)
    requires
        a < VPN_LIMIT,
        b < VPN_LIMIT,
        vpn_indexes(a) == vpn_indexes(b),
    ensures
        a == b,
{
    reveal(vpn_indexes);
}

impl PhysAddr {
    /// The address that the low 56 bits of `v` name.
    pub fn new(v: u64) -> (r: Self)
        ensures
            r.0 == v % 0x100_0000_0000_0000,
    {
        assert(v & 0xff_ffff_ffff_ffff == v % 0x100_0000_0000_0000) by (bit_vector);
        PhysAddr(v & 0xff_ffff_ffff_ffff)
    }

    /// The offset of the address inside its frame.
    pub fn page_offset(&self) -> (r: u64)
        ensures
            r == self.0 % 4096,
    {
        let v = self.0;
        assert(v & 0xfff == v % 4096) by (bit_vector);
        v & (PAGE_SIZE - 1)
    }

    /// The frame that holds the address.
    pub fn floor(&self) -> (r: PhysPageNum)
        ensures
            r.0 == self.0 / 4096,
    {
        PhysPageNum(self.0 / PAGE_SIZE)
    }

    /// The first address of frame `ppn`.
    pub fn from_ppn(ppn: PhysPageNum) -> (r: Self)
        requires
            ppn.0 < PPN_LIMIT,
        ensures
            r.0 == ppn.0 * 4096,
    {
        let v = ppn.0;
        assert(v << 12 == v * 4096) by (bit_vector)
            requires
                v < 0x1000_0000_0000u64,
        ;
        PhysAddr(v << 12)
    }
}

impl VirtAddr {
    /// The address that the low 39 bits of `v` name.
    pub fn new(v: u64) -> (r: Self)
        ensures
            r.0 == v % 0x80_0000_0000,
    {
        assert(v & 0x7f_ffff_ffff == v % 0x80_0000_0000) by (bit_vector);
        VirtAddr(v & 0x7f_ffff_ffff)
    }

    /// The offset of the address inside its page.
    pub fn page_offset(&self) -> (r: u64)
        ensures
            r == self.0 % 4096,
    {
        let v = self.0;
        assert(v & 0xfff == v % 4096) by (bit_vector);
        v & (PAGE_SIZE - 1)
    }

    /// Whether the address is the first of its page.
    pub fn aligned(&self) -> (r: bool)
        ensures
            r == (self.0 % 4096 == 0),
    {
        self.page_offset() == 0
    }

    /// The page that holds the address.
    pub fn floor(&self) -> (r: VirtPageNum)
        ensures
            r.0 == self.0 / 4096,
    {
        VirtPageNum(self.0 / PAGE_SIZE)
    }

    /// The first page that begins at or after the address.
    pub fn ceil(&self) -> (r: VirtPageNum)
        ensures
            r.0 == (self.0 + 4095) / 4096,
    {
        if self.0 % PAGE_SIZE == 0 {
            VirtPageNum(self.0 / PAGE_SIZE)
        } else {
            VirtPageNum(self.0 / PAGE_SIZE + 1)
        }
    }

    /// The first address of page `vpn`.
    pub fn from_vpn(vpn: VirtPageNum) -> (r: Self)
        requires
            vpn.0 < 0x10_0000_0000_0000,
        ensures
            r.0 == vpn.0 * 4096,
    {
        let v = vpn.0;
        assert(v << 12 == v * 4096) by (bit_vector)
            requires
                v < 0x10_0000_0000_0000u64,
        ;
        VirtAddr(v << 12)
    }
}

impl PhysPageNum {
    /// The page number that the low 44 bits of `v` name.
    pub fn new(v: u64) -> (r: Self)
        ensures
            r.0 == v % 0x1000_0000_0000,
            r.0 < PPN_LIMIT,
    {
        assert(v & 0xfff_ffff_ffff == v % 0x1000_0000_0000) by (bit_vector);
        PhysPageNum(v & 0xfff_ffff_ffff)
    }
}

impl VirtPageNum {
    /// The page number that the low 27 bits of `v` name.
    pub fn new(v: u64) -> (r: Self)
        ensures
            r.0 == v % 0x800_0000,
            r.0 < VPN_LIMIT,
    {
        assert(v & 0x7ff_ffff == v % 0x800_0000) by (bit_vector);
        VirtPageNum(v & 0x7ff_ffff)
    }

    /// The indices by which the page is looked up, the index into the root
    /// table first.
    pub fn indexes(&self) -> (r: [usize; 3])
        ensures
            r[0] == vpn_indexes(self.0).0,
            r[1] == vpn_indexes(self.0).1,
            r[2] == vpn_indexes(self.0).2,
            r[0] < 512,
            r[1] < 512,
            r[2] < 512,
    {
        let v = self.0;
        proof {
            reveal(vpn_indexes);
        }
        assert((v >> 18) & 511 == (v / 0x4_0000) % 512) by (bit_vector);
        assert((v >> 9) & 511 == (v / 512) % 512) by (bit_vector);
        assert(v & 511 == v % 512) by (bit_vector);
        [((v >> 18) & 511) as usize, ((v >> 9) & 511) as usize, (v & 511) as usize]
    }

    /// Moves on to the next page.
    pub fn step(&mut self)
        requires
            old(self).0 < u64::MAX,
        ensures
            final(self).0 == old(self).0 + 1,
    {
        self.0 += 1;
    }
}

} // verus!
