//! Page-table entries and the three-level page table.

use crate::mm::address::vpn_indexes;
use crate::mm::address::lemma_vpn_indexes_injective;
use crate::mm::address::lemma_vpn_indexes_range;
use crate::mm::address::PhysPageNum;
use crate::mm::address::VirtAddr;
use crate::mm::address::VirtPageNum;
use crate::mm::address::VPN_LIMIT;
use crate::mm::address::PPN_LIMIT;
use crate::mm::frame_allocator::FrameSlice;
use crate::mm::frame_allocator::FrameTracker;
use crate::mm::frame_allocator::PhysMemory;
use vstd::prelude::*;

verus! {

/// The flags of a page-table entry, one bit each. The constants are the
/// bits of the single flags; a set of flags is made of them with `|` and
/// `from_bits`.
#[derive(Copy, Clone, Debug, PartialEq, Eq, Structural)]
pub struct PTEFlags {
    pub bits: u8,
}

impl PTEFlags {
    /// The bit of the flag "valid".
    pub const V: u8 = 0x01;

    /// The page may be read.
    pub const R: u8 = 0x02;

    /// The page may be written.
    pub const W: u8 = 0x04;

    /// Instructions may be fetched from the page.
    pub const X: u8 = 0x08;

    /// The page is open to user mode.
    pub const U: u8 = 0x10;

    /// The mapping is global.
    pub const G: u8 = 0x20;

    /// The page was accessed.
    pub const A: u8 = 0x40;

    /// The page was written.
    pub const D: u8 = 0x80;

    /// No flag.
    pub fn empty() -> (r: Self)
        ensures
            r.bits == 0,
    {
        PTEFlags { bits: 0 }
    }

    /// The flags whose bits are set in `bits`. Every bit is a flag, so
    /// every value is accepted.
    pub fn from_bits(bits: u8) -> (r: Option<Self>)
        ensures
            r == Some(PTEFlags { bits }),
    {
        Some(PTEFlags { bits })
    }

    /// The flags whose bits are set in `bits`.
    pub fn from_bits_truncate(bits: u8) -> (r: Self)
        ensures
            r.bits == bits,
    {
        PTEFlags { bits }
    }

    /// The bits of the flags.
    pub fn bits(&self) -> (r: u8)
        ensures
            r == self.bits,
    {
        self.bits
    }

    /// Whether no flag is set.
    pub fn is_empty(&self) -> (r: bool)
        ensures
            r == (self.bits == 0),
    {
        self.bits == 0
    }

    /// The flags of `self` and those of `other` together.
    pub fn union(self, other: PTEFlags) -> (r: PTEFlags)
        ensures
            r.bits == self.bits | other.bits,
    {
        PTEFlags { bits: self.bits | other.bits }
    }

    /// The flags that `self` and `other` have in common.
    pub fn intersection(self, other: PTEFlags) -> (r: PTEFlags)
        ensures
            r.bits == self.bits & other.bits,
    {
        PTEFlags { bits: self.bits & other.bits }
    }

    /// Whether every flag of `other` is among those of `self`.
    pub fn contains(&self, other: PTEFlags) -> (r: bool)
        ensures
            r == (self.bits & other.bits == other.bits),
    {
        self.bits & other.bits == other.bits
    }
}

impl core::ops::BitOr for PTEFlags {
    type Output = PTEFlags;

    fn bitor(self, other: PTEFlags) -> (r: PTEFlags) {
        PTEFlags { bits: self.bits | other.bits }
    }
}

impl vstd::std_specs::ops::BitOrSpecImpl for PTEFlags {
    open spec fn obeys_bitor_spec() -> bool {
        true
    }

    open spec fn bitor_req(self, other: PTEFlags) -> bool {
        true
    }

    open spec fn bitor_spec(self, other: PTEFlags) -> PTEFlags {
        PTEFlags { bits: self.bits | other.bits }
    }
}

impl core::ops::BitAnd for PTEFlags {
    type Output = PTEFlags;

    fn bitand(self, other: PTEFlags) -> (r: PTEFlags) {
        PTEFlags { bits: self.bits & other.bits }
    }
}

impl vstd::std_specs::ops::BitAndSpecImpl for PTEFlags {
    open spec fn obeys_bitand_spec() -> bool {
        true
    }

    open spec fn bitand_req(self, other: PTEFlags) -> bool {
        true
    }

    open spec fn bitand_spec(self, other: PTEFlags) -> PTEFlags {
        PTEFlags { bits: self.bits & other.bits }
    }
}

/// The word of an entry that names frame `ppn` with the flags `flags`.
pub open spec fn pte_bits(ppn: u64, flags: u8) -> u64 {
    (ppn << 10) | (flags as u64)
}

/// The frame number in the word of an entry: bits 10 to 53.
pub open spec fn bits_ppn(bits: u64) -> u64 {
    (bits >> 10) & 0xfff_ffff_ffff
}

/// The flags in the word of an entry: bits 0 to 7.
pub open spec fn bits_flags(bits: u64) -> u8 {
    (bits & 0xff) as u8
}

/// An entry built from a frame number below `PPN_LIMIT` and flags gives
/// both back.
pub proof fn lemma_pte_bits_round_trip(ppn: u64, flags: u8)
    requires
        ppn < PPN_LIMIT,
    ensures
        bits_ppn(pte_bits(ppn, flags)) == ppn,
        bits_flags(pte_bits(ppn, flags)) == flags,
        bits_flags(0) == 0,
        bits_ppn(0) == 0,
{
    assert(((ppn << 10) | (flags as u64)) >> 10 & 0xfff_ffff_ffff == ppn) by (bit_vector)
        requires
            ppn < 0x1000_0000_0000u64,
    ;
    assert((((ppn << 10) | (flags as u64)) & 0xff) as u8 == flags) by (bit_vector);
    assert((0u64 >> 10) & 0xfff_ffff_ffff == 0) by (bit_vector);
    assert((0u64 & 0xff) as u8 == 0) by (bit_vector);
}

/// An entry of a page table: one word that holds a frame number and flags.
#[derive(Copy, Clone, Debug, PartialEq, Eq, Structural)]
pub struct PageTableEntry {
    pub bits: u64,
}

impl PageTableEntry {
    /// The entry that names frame `ppn` with the flags `flags`.
    pub open spec fn spec_new(ppn: PhysPageNum, flags: PTEFlags) -> PageTableEntry {
        PageTableEntry { bits: pte_bits(ppn.0, flags.bits) }
    }

    /// The frame that the entry names.
    pub open spec fn spec_ppn(&self) -> PhysPageNum {
        PhysPageNum(bits_ppn(self.bits))
    }

    /// The flags of the entry.
    pub open spec fn spec_flags(&self) -> PTEFlags {
        PTEFlags { bits: bits_flags(self.bits) }
    }

    /// The entry carries the flag "valid".
    pub open spec fn spec_is_valid(&self) -> bool {
        bits_flags(self.bits) & 0x01 != 0
    }

    /// The entry is a leaf: it may be read, written or executed.
    pub open spec fn spec_is_leaf(&self) -> bool {
        bits_flags(self.bits) & 0x0e != 0
    }

    /// The entry that names frame `ppn` with the flags `flags`.
    pub fn new(ppn: PhysPageNum, flags: PTEFlags) -> (r: Self)
        ensures
            r == Self::spec_new(ppn, flags),
            ppn.0 < PPN_LIMIT ==> r.spec_ppn() == ppn && r.spec_flags() == flags,
    {
        proof {
            if ppn.0 < PPN_LIMIT {
                lemma_pte_bits_round_trip(ppn.0, flags.bits);
            }
        }
        PageTableEntry { bits: ppn.0 << 10 | flags.bits as u64 }
    }

    /// The entry that names nothing and is not valid.
    pub fn empty() -> (r: Self)
        ensures
            r.bits == 0,
            !r.spec_is_valid(),
    {
        proof {
            lemma_pte_bits_round_trip(0, 0);
        }
        assert(0u8 & 0x01 == 0) by (bit_vector);
        PageTableEntry { bits: 0 }
    }

    /// The frame that the entry names.
    pub fn ppn(&self) -> (r: PhysPageNum)
        ensures
            r == self.spec_ppn(),
            r.0 < PPN_LIMIT,
    {
        let bits = self.bits;
        assert((bits >> 10) & 0xfff_ffff_ffff < 0x1000_0000_0000) by (bit_vector);
        PhysPageNum(self.bits >> 10 & 0xfff_ffff_ffff)
    }

    /// The flags of the entry.
    pub fn flags(&self) -> (r: PTEFlags)
        ensures
            r == self.spec_flags(),
    {
        PTEFlags { bits: (self.bits & 0xff) as u8 }
    }

    /// Whether the entry is valid.
    pub fn is_valid(&self) -> (r: bool)
        ensures
            r == self.spec_is_valid(),
    {
        self.flags().bits & PTEFlags::V != 0
    }

    /// Whether the entry is a leaf: it may be read, written or executed.
    /// An entry that is valid and no leaf names a table.
    pub fn is_leaf(&self) -> (r: bool)
        ensures
            r == self.spec_is_leaf(),
    {
        assert(0x02u8 | 0x04 | 0x08 == 0x0e) by (bit_vector);
        self.flags().bits & (PTEFlags::R | PTEFlags::W | PTEFlags::X) != 0
    }

    /// Whether the page may be read.
    pub fn readable(&self) -> (r: bool)
        ensures
            r == (self.spec_flags().bits & 0x02 != 0),
    {
        self.flags().bits & PTEFlags::R != 0
    }

    /// Whether the page may be written.
    pub fn writable(&self) -> (r: bool)
        ensures
            r == (self.spec_flags().bits & 0x04 != 0),
    {
        self.flags().bits & PTEFlags::W != 0
    }

    /// Whether instructions may be fetched from the page.
    pub fn executable(&self) -> (r: bool)
        ensures
            r == (self.spec_flags().bits & 0x08 != 0),
    {
        self.flags().bits & PTEFlags::X != 0
    }
}


/// Entry `idx` of the table in frame `table`.
pub open spec fn entry_at(m: &PhysMemory, table: int, idx: int) -> PageTableEntry {
    PageTableEntry { bits: m.word(table, idx) }
}

/// The frame of the table that entry `idx` of `table` leads to, if that
/// entry is valid.
pub open spec fn child_table(m: &PhysMemory, table: int, idx: int) -> Option<int> {
    if entry_at(m, table, idx).spec_is_valid() {
        Some(entry_at(m, table, idx).spec_ppn().0 as int)
    } else {
        None
    }
}

/// The frame of the table that entry `i2` of `root` and then entry `i1` of
/// the table found there lead to, if both entries are valid.
pub open spec fn grandchild_table(m: &PhysMemory, root: int, i2: int, i1: int) -> Option<int> {
    match child_table(m, root, i2) {
        None => None,
        Some(middle) => child_table(m, middle, i1),
    }
}

/// The frame of the last-level table that holds the entry of page `vpn`
/// in the page table rooted at `root`, if the two entries that lead there
/// are valid.
pub open spec fn leaf_table(m: &PhysMemory, root: int, vpn: u64) -> Option<int> {
    grandchild_table(m, root, vpn_indexes(vpn).0, vpn_indexes(vpn).1)
}

/// What the place of page `vpn` holds in the page table rooted at `root`:
/// the entry of the page in its last-level table, valid or not, or nothing
/// if a table on the way to it is missing.
pub open spec fn walk(m: &PhysMemory, root: int, vpn: u64) -> Option<PageTableEntry> {
    match leaf_table(m, root, vpn) {
        None => None,
        Some(last) => Some(entry_at(m, last, vpn_indexes(vpn).2)),
    }
}

/// Every table that a walk from `root` can reach lies in the memory.
pub open spec fn walkable(m: &PhysMemory, root: int) -> bool {
    &&& m.wf()
    &&& m.contains(root)
    &&& forall|i2: int|
        0 <= i2 < 512 ==> (#[trigger] child_table(m, root, i2) matches Some(middle)
            ==> m.contains(middle))
    &&& forall|i2: int, i1: int|
        0 <= i2 < 512 && 0 <= i1 < 512 ==> (#[trigger] grandchild_table(m, root, i2, i1) matches Some(
            last,
        ) ==> m.contains(last))
}

/// The root table of the page table that `token` names: its low 44 bits.
pub open spec fn token_root(token: u64) -> int {
    (token % 0x1000_0000_0000) as int
}

/// The token of the page table rooted at `root`: the root's frame number
/// with the mode of the three-level scheme, 8, in the top four bits.
pub open spec fn root_token(root: u64) -> u64 {
    (0x8000_0000_0000_0000u64 | root)
}

/// The token of a root below `PPN_LIMIT` names that root.
pub proof fn lemma_token_round_trip(root: u64)
    requires
        root < PPN_LIMIT,
    ensures
        token_root(root_token(root)) == root,
{
    assert((0x8000_0000_0000_0000u64 | root) % 0x1000_0000_0000 == root) by (bit_vector)
        requires
            root < 0x1000_0000_0000u64,
    ;
}

/// The two page numbers are looked up by the same three indices.
pub open spec fn same_indexes(a: u64, b: u64) -> bool {
    vpn_indexes(a) == vpn_indexes(b)
}

/// The entries of the two pages lie in the same last-level table.
pub open spec fn same_block(a: u64, b: u64) -> bool {
    vpn_indexes(a).0 == vpn_indexes(b).0 && vpn_indexes(a).1 == vpn_indexes(b).1
}

/// The number of tables that are missing on the way to the entry of page
/// `vpn`.
pub open spec fn missing_tables(m: &PhysMemory, root: int, vpn: u64) -> int {
    if child_table(m, root, vpn_indexes(vpn).0) is None {
        2
    } else if leaf_table(m, root, vpn) is None {
        1
    } else {
        0
    }
}

/// Page `vpn` is mapped: its place holds a valid entry.
pub open spec fn is_mapped(m: &PhysMemory, root: int, vpn: u64) -> bool {
    walk(m, root, vpn) matches Some(e) && e.spec_is_valid()
}

/// What the place of page `v` holds once the tables on the way to page
/// `vpn` have been created: the empty entry of a new last-level table for
/// the pages that share it with `vpn`, and what it held before for the
/// rest.
pub open spec fn walk_after_create(before: &PhysMemory, root: int, vpn: u64, v: u64) -> Option<
    PageTableEntry,
> {
    if leaf_table(before, root, vpn) is None && same_block(v, vpn) {
        Some(PageTableEntry { bits: 0 })
    } else {
        walk(before, root, v)
    }
}

/// The two pages are looked up through the same entry of the root table.
pub open spec fn same_top(a: u64, b: u64) -> bool {
    vpn_indexes(a).0 == vpn_indexes(b).0
}

/// The number of tables that are missing on the way to the entry of page
/// `v` once the tables on the way to page `vpn` have been created: none for
/// the pages that share their last-level table with `vpn`, and at most one
/// for the pages that share their entry of the root with it.
pub open spec fn missing_after_create(before: &PhysMemory, root: int, vpn: u64, v: u64) -> int {
    if same_block(v, vpn) {
        0
    } else if same_top(v, vpn) && missing_tables(before, root, v) == 2 {
        1
    } else {
        missing_tables(before, root, v)
    }
}

/// The number of tables that are missing on the way to the entry of page
/// `v` once the tables on the way to page `vpn` have been created as far as
/// the free frames went.
pub open spec fn missing_after_attempt(before: &PhysMemory, root: int, vpn: u64, v: u64) -> int {
    if before.free_frames() >= missing_tables(before, root, vpn) {
        missing_after_create(before, root, vpn, v)
    } else if before.free_frames() == 1 && same_top(v, vpn) {
        1
    } else {
        missing_tables(before, root, v)
    }
}

/// Every page is mapped in `m` as it is in `m0`, but the pages with the
/// indices of `vpn`, which are mapped as `now` says.
pub open spec fn remapped(
    m0: &PhysMemory,
    m: &PhysMemory,
    root: int,
    vpn: u64,
    now: Option<PageTableEntry>,
) -> bool {
    forall|v: u64|
        #![trigger lookup(m, root, v)]
        lookup(m, root, v) == if same_indexes(v, vpn) {
            now
        } else {
            lookup(m0, root, v)
        }
}

/// Where one page has been mapped anew, every other page of the address
/// space is mapped as before.
pub proof fn lemma_remapped_leaves_other_pages(
    m0: &PhysMemory,
    m: &PhysMemory,
    root: int,
    vpn: u64,
    now: Option<PageTableEntry>,
    v: u64,
)
    requires
        remapped(m0, m, root, vpn, now),
        vpn < VPN_LIMIT,
        v < VPN_LIMIT,
        v != vpn,
    ensures
        lookup(m, root, vpn) == now,
        lookup(m, root, v) == lookup(m0, root, v),
{
    if same_indexes(v, vpn) {
        lemma_vpn_indexes_injective(v, vpn);
    }
}

/// Every page is mapped in `m` as it is in `m0`.
pub open spec fn same_mappings(m0: &PhysMemory, m: &PhysMemory, root: int) -> bool {
    forall|v: u64| #![trigger lookup(m, root, v)] lookup(m, root, v) == lookup(m0, root, v)
}

fn read_entry(m: &PhysMemory, table: PhysPageNum, idx: usize) -> (e: PageTableEntry)
    requires
        m.wf(),
        m.contains(table.0 as int),
        idx < 512,
    ensures
        e == entry_at(m, table.0 as int, idx as int),
{
    PageTableEntry { bits: m.read_word(table, idx) }
}

/// A three-level page table. It owns the frames of its tables, the root
/// first, and the frames that it has allocated for user pages; a table
/// made from a token owns nothing and only serves to translate.
pub struct PageTable {
    root_ppn: PhysPageNum,
    frames: Vec<FrameTracker>,
    data_frames: Vec<FrameTracker>,
    tree: Ghost<Map<int, (int, int, int)>>,
}

impl PageTable {
    /// The frame of the root table.
    pub closed spec fn root(&self) -> int {
        self.root_ppn.0 as int
    }

    /// The frames of the tables that the page table owns.
    pub closed spec fn owned_frames(&self) -> Set<int> {
        Set::new(
            |p: int| exists|k: int| 0 <= k < self.frames@.len() && (#[trigger] self.frames@[k]).ppn.0 == p,
        )
    }

    /// The frames that the page table has allocated for user pages.
    pub closed spec fn owned_data_frames(&self) -> Set<int> {
        Set::new(
            |p: int|
                exists|k: int|
                    0 <= k < self.data_frames@.len() && (#[trigger] self.data_frames@[k]).ppn.0 == p,
        )
    }

    /// The page table owns no frame: it is a view made from a token.
    pub closed spec fn is_view(&self) -> bool {
        self.frames@.len() == 0 && self.data_frames@.len() == 0
    }

    /// The frames of the tables that a walk from the root can reach: the
    /// root, and the frames that valid entries of the root and of the
    /// middle tables name.
    pub open spec fn reachable_frames(&self, m: &PhysMemory) -> Set<int> {
        Set::new(
            |p: int|
                {
                    ||| p == self.root()
                    ||| exists|i2: int|
                        0 <= i2 < 512 && #[trigger] child_table(m, self.root(), i2) == Some(p)
                    ||| exists|i2: int, i1: int|
                        0 <= i2 < 512 && 0 <= i1 < 512 && #[trigger] grandchild_table(
                            m,
                            self.root(),
                            i2,
                            i1,
                        ) == Some(p)
                },
        )
    }

    /// The page table is consistent with the memory `m`: its tables form a
    /// tree below the root, each table in a frame of its own that is handed
    /// out to it, and it owns exactly the frames of these tables.
    pub closed spec fn inv(&self, m: &PhysMemory) -> bool {
        let t = self.tree@;
        let root = self.root();
        &&& m.wf()
        &&& t.dom().contains(root)
        &&& t[root] == (0int, 0int, 0int)
        &&& self.frames@.len() > 0
        &&& self.frames@[0].ppn == self.root_ppn
        &&& forall|f: int|
            #![trigger t.dom().contains(f)]
            t.dom().contains(f) ==> {
                &&& m.is_allocated(f)
                &&& m.contains(f)
                &&& 0 <= f < PPN_LIMIT
                &&& 0 <= t[f].0 <= 2
                &&& (t[f].0 == 0 ==> f == root)
                &&& (t[f].0 == 1 ==> 0 <= t[f].1 < 512 && t[f].2 == 0 && child_table(m, root, t[f].1)
                    == Some(f))
                &&& (t[f].0 == 2 ==> 0 <= t[f].1 < 512 && 0 <= t[f].2 < 512 && (child_table(
                    m,
                    root,
                    t[f].1,
                ) matches Some(middle) && child_table(m, middle, t[f].2) == Some(f)))
            }
        &&& forall|f: int| t.dom().contains(f) <==> #[trigger] self.owned_frames().contains(f)
        &&& forall|k: int, l: int|
            0 <= k < l < self.frames@.len() ==> (#[trigger] self.frames@[k]).ppn != (
            #[trigger] self.frames@[l]).ppn
        &&& forall|i2: int|
            0 <= i2 < 512 ==> (#[trigger] child_table(m, root, i2) matches Some(c) ==> t.dom().contains(
                c,
            ) && t[c] == (1int, i2, 0int) && bits_flags(m.word(root, i2)) == PTEFlags::V)
        &&& forall|f: int, i1: int|
            t.dom().contains(f) && t[f].0 == 1 && 0 <= i1 < 512 ==> (#[trigger] child_table(
                m,
                f,
                i1,
            ) matches Some(c) ==> t.dom().contains(c) && t[c] == (2int, t[f].1, i1) && bits_flags(
                m.word(f, i1),
            ) == PTEFlags::V)
        &&& forall|k: int|
            0 <= k < self.data_frames@.len() ==> {
                &&& m.is_allocated((#[trigger] self.data_frames@[k]).ppn.0 as int)
                &&& !t.dom().contains(self.data_frames@[k].ppn.0 as int)
            }
        &&& forall|k: int, l: int|
            0 <= k < l < self.data_frames@.len() ==> (#[trigger] self.data_frames@[k]).ppn != (
            #[trigger] self.data_frames@[l]).ppn
    }

    /// The valid entry of page `vpn`, or nothing if the page is not
    /// mapped.
    pub open spec fn spec_translate(&self, m: &PhysMemory, vpn: VirtPageNum) -> Option<PageTableEntry> {
        lookup(m, self.root(), vpn.0)
    }

    /// The token of the page table.
    pub open spec fn spec_token(&self) -> u64 {
        root_token(self.root() as u64)
    }

    /// A consistent page table can be walked, and its root is a frame
    /// number below `PPN_LIMIT`.
    pub proof fn lemma_inv_walkable(&self, m: &PhysMemory)
        requires
            self.inv(m),
        ensures
            walkable(m, self.root()),
            0 <= self.root() < PPN_LIMIT,
            !self.is_view(),
            self.owned_frames().contains(self.root()),
    {
        let t = self.tree@;
        assert(t.dom().contains(self.root()));
        assert forall|i2: int| 0 <= i2 < 512 implies (#[trigger] child_table(m, self.root(), i2) matches Some(
            middle,
        ) ==> m.contains(middle)) by {
            if let Some(middle) = child_table(m, self.root(), i2) {
                assert(t.dom().contains(middle));
            }
        }
        assert forall|i2: int, i1: int| 0 <= i2 < 512 && 0 <= i1 < 512 implies (
        #[trigger] grandchild_table(m, self.root(), i2, i1) matches Some(last) ==> m.contains(
            last,
        )) by {
            if let Some(last) = grandchild_table(m, self.root(), i2, i1) {
                let middle = child_table(m, self.root(), i2).unwrap();
                assert(t.dom().contains(middle));
                assert(child_table(m, middle, i1) == Some(last));
                assert(t.dom().contains(last));
            }
        }
    }

    /// In a consistent page table the valid entries of the root and of
    /// the middle tables carry the flag "valid" and no other: they name
    /// tables, and only the entries of the last level are leaves.
    pub proof fn lemma_interior_entries_name_tables(&self, m: &PhysMemory, i2: int, i1: int)
        requires
            self.inv(m),
            0 <= i2 < 512,
            0 <= i1 < 512,
        ensures
            entry_at(m, self.root(), i2).spec_is_valid() ==> entry_at(
                m,
                self.root(),
                i2,
            ).spec_flags().bits == PTEFlags::V && !entry_at(m, self.root(), i2).spec_is_leaf(),
            child_table(m, self.root(), i2) matches Some(middle) ==> (entry_at(
                m,
                middle,
                i1,
            ).spec_is_valid() ==> entry_at(m, middle, i1).spec_flags().bits == PTEFlags::V
                && !entry_at(m, middle, i1).spec_is_leaf()),
    {
        assert(0x01u8 & 0x0e == 0) by (bit_vector);
        let t = self.tree@;
        if let Some(middle) = child_table(m, self.root(), i2) {
            assert(t.dom().contains(middle));
            assert(t[middle].0 == 1);
            if let Some(last) = child_table(m, middle, i1) {
                assert(bits_flags(m.word(middle, i1)) == PTEFlags::V);
            }
        }
    }

    /// A consistent page table owns exactly the frames of the tables that
    /// a walk from its root can reach.
    pub proof fn lemma_owned_frames_are_reachable_frames(&self, m: &PhysMemory)
        requires
            self.inv(m),
        ensures
            self.owned_frames() == self.reachable_frames(m),
    {
        let t = self.tree@;
        let root = self.root();
        assert forall|p: int| self.owned_frames().contains(p) <==> self.reachable_frames(m).contains(
            p,
        ) by {
            if self.owned_frames().contains(p) {
                assert(t.dom().contains(p));
                if t[p].0 == 1 {
                    assert(child_table(m, root, t[p].1) == Some(p));
                } else if t[p].0 == 2 {
                    assert(grandchild_table(m, root, t[p].1, t[p].2) == Some(p));
                }
            }
            if self.reachable_frames(m).contains(p) {
                if p == root {
                    assert(t.dom().contains(p));
                } else if exists|i2: int| 0 <= i2 < 512 && #[trigger] child_table(m, root, i2) == Some(p) {
                    assert(t.dom().contains(p));
                } else {
                    let (i2, i1) = choose|i2: int, i1: int|
                        0 <= i2 < 512 && 0 <= i1 < 512 && #[trigger] grandchild_table(m, root, i2, i1)
                            == Some(p);
                    let middle = child_table(m, root, i2).unwrap();
                    assert(t.dom().contains(middle));
                    assert(child_table(m, middle, i1) == Some(p));
                    assert(t.dom().contains(p));
                }
            }
        }
    }

    /// A page table with an empty root table in a frame of its own.
    pub fn new(m: &mut PhysMemory) -> (pt: PageTable)
        requires
            old(m).wf(),
            old(m).free_frames() > 0,
        ensures
            pt.inv(final(m)),
            old(m).next_frame() == Some(pt.root()),
            !old(m).is_allocated(pt.root()),
            pt.owned_frames() == set![pt.root()],
            pt.owned_data_frames() == Set::<int>::empty(),
            forall|vpn: VirtPageNum| pt.spec_translate(final(m), vpn) is None,
            final(m).free_frames() == old(m).free_frames() - 1,
            final(m).base_ppn() == old(m).base_ppn(),
            final(m).end_ppn() == old(m).end_ppn(),
            forall|p: int|
                #[trigger] final(m).is_allocated(p) == (p == pt.root() || old(m).is_allocated(p)),
            forall|p: int, i: int|
                #![trigger final(m).word(p, i)]
                old(m).contains(p) && p != pt.root() && 0 <= i < 512 ==> final(m).word(p, i) == old(m).word(p, i),
    {
        let frame = m.frame_alloc().unwrap();
        let root_ppn = frame.ppn;
        let mut frames = Vec::new();
        frames.push(frame);
        let pt = PageTable {
            root_ppn,
            frames,
            data_frames: Vec::new(),
            tree: Ghost(Map::empty().insert(root_ppn.0 as int, (0int, 0int, 0int))),
        };
        proof {
            m.lemma_allocated_is_contained(root_ppn.0 as int);
            lemma_pte_bits_round_trip(0, 0);
            assert(0u8 & 0x01 == 0) by (bit_vector);
            assert(pt.frames@[0].ppn.0 == root_ppn.0);
            assert(pt.owned_frames() =~= set![pt.root()]);
            assert(pt.owned_data_frames() =~= Set::<int>::empty());
            assert forall|i2: int| 0 <= i2 < 512 implies #[trigger] child_table(m, pt.root(), i2) is None by {
                assert(m.word(pt.root(), i2) == 0);
            }
            assert forall|vpn: VirtPageNum| pt.spec_translate(m, vpn) is None by {
                lemma_vpn_indexes_range(vpn.0);
                assert(child_table(m, pt.root(), vpn_indexes(vpn.0).0) is None);
            }
        }
        pt
    }

    /// The view of the page table that `satp` names. It owns no frame.
    pub fn from_token(satp: u64) -> (pt: PageTable)
        ensures
            pt.root() == token_root(satp),
            pt.is_view(),
    {
        assert(satp & 0xfff_ffff_ffff == satp % 0x1000_0000_0000) by (bit_vector);
        PageTable {
            root_ppn: PhysPageNum(satp & 0xfff_ffff_ffff),
            frames: Vec::new(),
            data_frames: Vec::new(),
            tree: Ghost(Map::empty()),
        }
    }

    /// The token of the page table, to be handed to the memory management
    /// unit.
    pub fn token(&self) -> (r: u64)
        ensures
            r == self.spec_token(),
    {
        0x8000_0000_0000_0000u64 | self.root_ppn.0
    }

    /// The frame of the root table.
    pub fn root_ppn(&self) -> (r: PhysPageNum)
        ensures
            r.0 == self.root(),
    {
        self.root_ppn
    }

    /// Finds the place of the entry of page `vpn`: the frame of its
    /// last-level table and the index in it. There is none if an entry on
    /// the way is not valid.
    pub fn find_pte(&self, m: &PhysMemory, vpn: VirtPageNum) -> (r: Option<(PhysPageNum, usize)>)
        requires
            walkable(m, self.root()),
        ensures
            r is Some <==> leaf_table(m, self.root(), vpn.0) is Some,
            r matches Some(place) ==> {
                &&& leaf_table(m, self.root(), vpn.0) == Some(place.0.0 as int)
                &&& place.1 == vpn_indexes(vpn.0).2
                &&& place.1 < 512
                &&& m.contains(place.0.0 as int)
            },
    {
        let idxs = vpn.indexes();
        let top = read_entry(m, self.root_ppn, idxs[0]);
        if !top.is_valid() {
            return None;
        }
        assert(child_table(m, self.root(), idxs[0] as int) is Some);
        let middle = read_entry(m, top.ppn(), idxs[1]);
        if !middle.is_valid() {
            return None;
        }
        assert(grandchild_table(m, self.root(), idxs[0] as int, idxs[1] as int) is Some);
        Some((middle.ppn(), idxs[2]))
    }

    /// The entry of page `vpn`, or nothing if the page is not mapped: an
    /// entry on the way to it, or its own entry, is not valid.
    pub fn translate(&self, m: &PhysMemory, vpn: VirtPageNum) -> (r: Option<PageTableEntry>)
        requires
            walkable(m, self.root()),
        ensures
            r == self.spec_translate(m, vpn),
            r == lookup(m, self.root(), vpn.0),
            r matches Some(entry) ==> entry.spec_is_valid(),
    {
        match self.find_pte(m, vpn) {
            Some(place) => {
                let entry = read_entry(m, place.0, place.1);
                if entry.is_valid() {
                    Some(entry)
                } else {
                    None
                }
            },
            None => None,
        }
    }

    /// Follows entry `idx` of the table in frame `table`, which lies on the
    /// first or second level. An entry that is not valid is made to name a
    /// new, empty table first; with no frame left for it nothing changes
    /// and nothing is returned.
    fn next_table(&mut self, m: &mut PhysMemory, table: PhysPageNum, idx: usize) -> (r: Option<
        PhysPageNum,
    >)
        requires
            old(self).inv(old(m)),
            old(self).tree@.dom().contains(table.0 as int),
            old(self).tree@[table.0 as int].0 <= 1,
            idx < 512,
        ensures
            final(self).inv(final(m)),
            final(self).root_ppn == old(self).root_ppn,
            final(self).data_frames == old(self).data_frames,
            final(m).base_ppn() == old(m).base_ppn(),
            final(m).end_ppn() == old(m).end_ppn(),
            r is None <==> child_table(old(m), table.0 as int, idx as int) is None && old(m).free_frames() == 0,
            r matches Some(c) ==> {
                &&& child_table(final(m), table.0 as int, idx as int) == Some(c.0 as int)
                &&& final(self).tree@.dom().contains(c.0 as int)
            },
            child_table(old(m), table.0 as int, idx as int) is Some || r is None ==> {
                &&& final(self).tree@ == old(self).tree@
                &&& final(self).frames@ == old(self).frames@
                &&& final(m).same_allocation(old(m))
                &&& forall|p: int, i: int|
                    #![trigger final(m).word(p, i)]
                    final(m).word(p, i) == old(m).word(p, i)
            },
            child_table(old(m), table.0 as int, idx as int) is None && r is Some ==> {
                let c = r.unwrap().0 as int;
                &&& old(m).next_frame() == Some(c)
                &&& !old(m).is_allocated(c)
                &&& !old(self).tree@.dom().contains(c)
                &&& final(self).tree@.dom() == old(self).tree@.dom().insert(c)
                &&& final(m).free_frames() == old(m).free_frames() - 1
                &&& forall|p: int|
                    #[trigger] final(m).is_allocated(p) == (p == c || old(m).is_allocated(p))
                &&& forall|p: int, i: int|
                    #![trigger final(m).word(p, i)]
                    old(m).contains(p) && 0 <= i < 512 && !final(self).tree@.dom().contains(p)
                        ==> final(m).word(p, i) == old(m).word(p, i)
            },
            forall|v: u64|
                #![trigger leaf_table(final(m), old(self).root(), v)]
                leaf_table(final(m), old(self).root(), v) == if child_table(
                    old(m),
                    table.0 as int,
                    idx as int,
                ) is None && r is Some && old(self).tree@[table.0 as int].0 == 1 && vpn_indexes(v).0
                    == old(self).tree@[table.0 as int].1 && vpn_indexes(v).1 == idx {
                    Some(r.unwrap().0 as int)
                } else {
                    leaf_table(old(m), old(self).root(), v)
                },
            forall|v: u64|
                #![trigger walk(final(m), old(self).root(), v)]
                walk(final(m), old(self).root(), v) == if child_table(
                    old(m),
                    table.0 as int,
                    idx as int,
                ) is None && r is Some && old(self).tree@[table.0 as int].0 == 1 && vpn_indexes(v).0
                    == old(self).tree@[table.0 as int].1 && vpn_indexes(v).1 == idx {
                    Some(PageTableEntry { bits: 0 })
                } else {
                    walk(old(m), old(self).root(), v)
                },
            forall|v: u64|
                #![trigger missing_tables(final(m), old(self).root(), v)]
                missing_tables(final(m), old(self).root(), v) == if child_table(
                    old(m),
                    table.0 as int,
                    idx as int,
                ) is None && r is Some {
                    if old(self).tree@[table.0 as int].0 == 0 {
                        if vpn_indexes(v).0 == idx {
                            1
                        } else {
                            missing_tables(old(m), old(self).root(), v)
                        }
                    } else if vpn_indexes(v).0 == old(self).tree@[table.0 as int].1 && vpn_indexes(
                        v,
                    ).1 == idx {
                        0
                    } else {
                        missing_tables(old(m), old(self).root(), v)
                    }
                } else {
                    missing_tables(old(m), old(self).root(), v)
                },
    {
        let ghost t = self.tree@;
        let ghost root = self.root();
        let ghost m0 = *m;
        let entry = read_entry(m, table, idx);
        if entry.is_valid() {
            assert(t.dom().contains(entry.spec_ppn().0 as int)) by {
                if t[table.0 as int].0 == 0 {
                    assert(child_table(m, root, idx as int) is Some);
                } else {
                    assert(child_table(m, table.0 as int, idx as int) is Some);
                }
            }
            return Some(entry.ppn());
        }
        if !m.has_free_frame() {
            return None;
        }
        let frame = m.frame_alloc().unwrap();
        let child = frame.ppn;
        let ghost c = child.0 as int;
        let ghost m1 = *m;
        let fresh = PageTableEntry::new(child, PTEFlags::from_bits_truncate(PTEFlags::V));
        m.write_word(table, idx, fresh.bits);
        self.frames.push(frame);
        let ghost path = if t[table.0 as int].0 == 0 {
            (1int, idx as int, 0int)
        } else {
            (2int, t[table.0 as int].1, idx as int)
        };
        self.tree = Ghost(t.insert(c, path));
        proof {
            let t2 = self.tree@;
            m0.lemma_allocated_is_contained(c);
            lemma_pte_bits_round_trip(child.0, 0x01);
            lemma_pte_bits_round_trip(0, 0);
            assert(0x01u8 & 0x01 != 0) by (bit_vector);
            assert(0u8 & 0x01 == 0) by (bit_vector);
            assert(!t.dom().contains(c));
            assert(c != table.0);
            // What the memory holds now, entry by entry.
            assert(child_table(m, table.0 as int, idx as int) == Some(c));
            assert forall|i: int| 0 <= i < 512 implies #[trigger] child_table(m, c, i) is None by {
                assert(m1.word(c, i) == 0);
                assert(m.word(c, i) == m1.word(c, i));
            }
            assert forall|p: int, i: int|
                m0.contains(p) && p != c && 0 <= i < 512 && !(p == table.0 && i == idx) implies (
            #[trigger] m.word(p, i)) == m0.word(p, i) by {
                assert(m1.word(p, i) == m0.word(p, i));
                assert(m.word(p, i) == m1.word(p, i));
            }
            assert forall|p: int, i: int|
                t.dom().contains(p) && 0 <= i < 512 && !(p == table.0 && i == idx) implies (
            #[trigger] child_table(m, p, i)) == child_table(&m0, p, i) by {
                assert(m.word(p, i) == m0.word(p, i));
            }
            assert forall|p: int| #[trigger] m.is_allocated(p) == (p == c || m0.is_allocated(p)) by {
                assert(m.is_allocated(p) == m1.is_allocated(p));
            }
            // The entries of the root.
            assert forall|i2: int| 0 <= i2 < 512 implies (#[trigger] child_table(m, root, i2) matches Some(
                x,
            ) ==> t2.dom().contains(x) && t2[x] == (1int, i2, 0int) && bits_flags(m.word(root, i2))
                == PTEFlags::V) by {
                if !(root == table.0 && i2 == idx) {
                    assert(m.word(root, i2) == m0.word(root, i2));
                    assert(child_table(m, root, i2) == child_table(&m0, root, i2));
                }
            }
            // The entries of the tables on the second level.
            assert forall|f: int, i1: int|
                t2.dom().contains(f) && t2[f].0 == 1 && 0 <= i1 < 512 implies (#[trigger] child_table(
                m,
                f,
                i1,
            ) matches Some(x) ==> t2.dom().contains(x) && t2[x] == (2int, t2[f].1, i1) && bits_flags(
                m.word(f, i1),
            ) == PTEFlags::V) by {
                if f != c && !(f == table.0 && i1 == idx) {
                    assert(m.word(f, i1) == m0.word(f, i1));
                    assert(child_table(m, f, i1) == child_table(&m0, f, i1));
                }
            }
            // Every table hangs where the tree says.
            assert forall|f: int|
                #![trigger t2.dom().contains(f)]
                t2.dom().contains(f) implies {
                &&& m.is_allocated(f)
                &&& m.contains(f)
                &&& 0 <= f < PPN_LIMIT
                &&& 0 <= t2[f].0 <= 2
                &&& (t2[f].0 == 0 ==> f == root)
                &&& (t2[f].0 == 1 ==> 0 <= t2[f].1 < 512 && t2[f].2 == 0 && child_table(m, root, t2[f].1)
                    == Some(f))
                &&& (t2[f].0 == 2 ==> 0 <= t2[f].1 < 512 && 0 <= t2[f].2 < 512 && (child_table(
                    m,
                    root,
                    t2[f].1,
                ) matches Some(middle) && child_table(m, middle, t2[f].2) == Some(f)))
            } by {
                if f == c {
                    if t[table.0 as int].0 == 1 {
                        let a = t[table.0 as int].1;
                        assert(child_table(&m0, root, a) == Some(table.0 as int));
                        assert(child_table(m, root, a) == child_table(&m0, root, a));
                    }
                } else {
                    assert(t.dom().contains(f));
                    if t[f].0 == 1 {
                        assert(child_table(&m0, root, t[f].1) == Some(f));
                        assert(child_table(m, root, t[f].1) == child_table(&m0, root, t[f].1));
                    } else if t[f].0 == 2 {
                        let middle = child_table(&m0, root, t[f].1).unwrap();
                        assert(t.dom().contains(middle));
                        assert(child_table(m, root, t[f].1) == child_table(&m0, root, t[f].1));
                        assert(child_table(&m0, middle, t[f].2) == Some(f));
                        assert(child_table(m, middle, t[f].2) == child_table(&m0, middle, t[f].2));
                    }
                }
            }
            // The frames owned are the frames of the tree.
            assert(self.frames@[self.frames@.len() - 1].ppn.0 == c);
            assert forall|f: int| t2.dom().contains(f) <==> #[trigger] self.owned_frames().contains(
                f,
            ) by {
                if t.dom().contains(f) {
                    assert(old(self).owned_frames().contains(f));
                    let k = choose|k: int|
                        0 <= k < old(self).frames@.len() && (#[trigger] old(self).frames@[k]).ppn.0 == f;
                    assert(self.frames@[k].ppn.0 == f);
                }
                if self.owned_frames().contains(f) && f != c {
                    let k = choose|k: int|
                        0 <= k < self.frames@.len() && (#[trigger] self.frames@[k]).ppn.0 == f;
                    assert(old(self).frames@[k].ppn.0 == f);
                    assert(old(self).owned_frames().contains(f));
                }
            }
            assert forall|k: int, l: int| 0 <= k < l < self.frames@.len() implies (
            #[trigger] self.frames@[k]).ppn != (#[trigger] self.frames@[l]).ppn by {
                if l == self.frames@.len() - 1 {
                    assert(old(self).frames@[k].ppn.0 == self.frames@[k].ppn.0);
                    assert(old(self).owned_frames().contains(self.frames@[k].ppn.0 as int));
                }
            }
            assert(self.inv(m));
            // The last-level table of each page now.
            assert forall|v: u64|
                #![trigger leaf_table(m, root, v)]
                leaf_table(m, root, v) == if t[table.0 as int].0 == 1 && vpn_indexes(v).0
                    == t[table.0 as int].1 && vpn_indexes(v).1 == idx {
                    Some(c)
                } else {
                    leaf_table(&m0, root, v)
                } && walk(m, root, v) == if t[table.0 as int].0 == 1 && vpn_indexes(v).0
                    == t[table.0 as int].1 && vpn_indexes(v).1 == idx {
                    Some(PageTableEntry { bits: 0 })
                } else {
                    walk(&m0, root, v)
                } && missing_tables(m, root, v) == if t[table.0 as int].0 == 0 {
                    if vpn_indexes(v).0 == idx {
                        1
                    } else {
                        missing_tables(&m0, root, v)
                    }
                } else if vpn_indexes(v).0 == t[table.0 as int].1 && vpn_indexes(v).1 == idx {
                    0
                } else {
                    missing_tables(&m0, root, v)
                } by {
                lemma_vpn_indexes_range(v);
                let i2 = vpn_indexes(v).0;
                let i1 = vpn_indexes(v).1;
                let i0 = vpn_indexes(v).2;
                if root == table.0 && i2 == idx {
                    assert(child_table(m, root, i2) == Some(c));
                    assert(child_table(m, c, i1) is None);
                } else {
                    assert(child_table(m, root, i2) == child_table(&m0, root, i2));
                    if let Some(middle) = child_table(&m0, root, i2) {
                        assert(t.dom().contains(middle));
                        assert(t[middle] == (1int, i2, 0int));
                        if middle == table.0 && i1 == idx {
                            assert(child_table(m, middle, i1) == Some(c));
                            assert(m1.word(c, i0) == 0);
                            assert(m.word(c, i0) == m1.word(c, i0));
                        } else {
                            assert(child_table(m, middle, i1) == child_table(&m0, middle, i1));
                            if let Some(last) = child_table(&m0, middle, i1) {
                                assert(t.dom().contains(last));
                                assert(t[last].0 == 2);
                                assert(m.word(last, i0) == m0.word(last, i0));
                            }
                        }
                    }
                }
            }
        }
        Some(child)
    }

    /// Writes `entry` to the place `place` of the entry of page `vpn`.
    fn write_leaf(
        &self,
        m: &mut PhysMemory,
        place: (PhysPageNum, usize),
        entry: PageTableEntry,
        Ghost(vpn): Ghost<u64>,
    )
        requires
            self.inv(old(m)),
            leaf_table(old(m), self.root(), vpn) == Some(place.0.0 as int),
            place.1 == vpn_indexes(vpn).2,
        ensures
            self.inv(final(m)),
            final(m).same_allocation(old(m)),
            forall|v: u64|
                #![trigger leaf_table(final(m), self.root(), v)]
                leaf_table(final(m), self.root(), v) == leaf_table(old(m), self.root(), v),
            forall|v: u64|
                #![trigger missing_tables(final(m), self.root(), v)]
                missing_tables(final(m), self.root(), v) == missing_tables(old(m), self.root(), v),
            forall|v: u64|
                #![trigger walk(final(m), self.root(), v)]
                walk(final(m), self.root(), v) == if same_indexes(v, vpn) {
                    Some(entry)
                } else {
                    walk(old(m), self.root(), v)
                },
            forall|p: int, i: int|
                #![trigger final(m).word(p, i)]
                old(m).contains(p) && 0 <= i < 512 && !self.tree@.dom().contains(p) ==> final(m).word(p, i) == old(m).word(p, i),
    {
        let ghost t = self.tree@;
        let ghost root = self.root();
        let ghost m0 = *m;
        let ghost last = place.0.0 as int;
        let ghost i0 = place.1 as int;
        proof {
            lemma_vpn_indexes_range(vpn);
            let middle = child_table(m, root, vpn_indexes(vpn).0).unwrap();
            assert(t.dom().contains(middle));
            assert(child_table(m, middle, vpn_indexes(vpn).1) == Some(last));
            assert(t.dom().contains(last));
            assert(t[last] == (2int, vpn_indexes(vpn).0, vpn_indexes(vpn).1));
        }
        m.write_word(place.0, place.1, entry.bits);
        proof {
            assert forall|p: int, i: int|
                t.dom().contains(p) && 0 <= i < 512 && !(p == last && i == i0) implies (
            #[trigger] child_table(m, p, i)) == child_table(&m0, p, i) by {
                assert(m.word(p, i) == m0.word(p, i));
            }
            assert forall|i2: int| 0 <= i2 < 512 implies (#[trigger] child_table(m, root, i2) matches Some(
                x,
            ) ==> t.dom().contains(x) && t[x] == (1int, i2, 0int) && bits_flags(m.word(root, i2))
                == PTEFlags::V) by {
                assert(m.word(root, i2) == m0.word(root, i2));
                assert(child_table(m, root, i2) == child_table(&m0, root, i2));
            }
            assert forall|f: int, i1: int|
                t.dom().contains(f) && t[f].0 == 1 && 0 <= i1 < 512 implies (#[trigger] child_table(
                m,
                f,
                i1,
            ) matches Some(x) ==> t.dom().contains(x) && t[x] == (2int, t[f].1, i1) && bits_flags(
                m.word(f, i1),
            ) == PTEFlags::V) by {
                assert(m.word(f, i1) == m0.word(f, i1));
                assert(child_table(m, f, i1) == child_table(&m0, f, i1));
            }
            assert forall|f: int|
                #![trigger t.dom().contains(f)]
                t.dom().contains(f) implies {
                &&& m.is_allocated(f)
                &&& m.contains(f)
                &&& 0 <= f < PPN_LIMIT
                &&& 0 <= t[f].0 <= 2
                &&& (t[f].0 == 0 ==> f == root)
                &&& (t[f].0 == 1 ==> 0 <= t[f].1 < 512 && t[f].2 == 0 && child_table(m, root, t[f].1)
                    == Some(f))
                &&& (t[f].0 == 2 ==> 0 <= t[f].1 < 512 && 0 <= t[f].2 < 512 && (child_table(
                    m,
                    root,
                    t[f].1,
                ) matches Some(middle) && child_table(m, middle, t[f].2) == Some(f)))
            } by {
                assert(m.is_allocated(f) == m0.is_allocated(f));
                if t[f].0 == 1 {
                    assert(child_table(m, root, t[f].1) == child_table(&m0, root, t[f].1));
                } else if t[f].0 == 2 {
                    let middle = child_table(&m0, root, t[f].1).unwrap();
                    assert(t.dom().contains(middle));
                    assert(child_table(m, root, t[f].1) == child_table(&m0, root, t[f].1));
                    assert(child_table(m, middle, t[f].2) == child_table(&m0, middle, t[f].2));
                }
            }
            assert forall|k: int| 0 <= k < self.data_frames@.len() implies m.is_allocated(
                (#[trigger] self.data_frames@[k]).ppn.0 as int,
            ) by {
                let d = self.data_frames@[k].ppn.0 as int;
                assert(m.is_allocated(d) == m0.is_allocated(d));
            }
            assert(self.inv(m));
            assert forall|v: u64|
                #![trigger leaf_table(m, root, v)]
                leaf_table(m, root, v) == leaf_table(&m0, root, v) && missing_tables(m, root, v)
                    == missing_tables(&m0, root, v) && walk(m, root, v) == if same_indexes(v, vpn) {
                    Some(entry)
                } else {
                    walk(&m0, root, v)
                } by {
                lemma_vpn_indexes_range(v);
                let j2 = vpn_indexes(v).0;
                let j1 = vpn_indexes(v).1;
                let j0 = vpn_indexes(v).2;
                assert(child_table(m, root, j2) == child_table(&m0, root, j2));
                if let Some(middle) = child_table(&m0, root, j2) {
                    assert(t.dom().contains(middle));
                    assert(child_table(m, middle, j1) == child_table(&m0, middle, j1));
                    if let Some(x) = child_table(&m0, middle, j1) {
                        assert(t.dom().contains(x));
                        assert(t[x] == (2int, j2, j1));
                        if !(x == last && j0 == i0) {
                            assert(m.word(x, j0) == m0.word(x, j0));
                        }
                    }
                }
            }
        }
    }

    /// Finds the place of the entry of page `vpn`, creating the tables on
    /// the way to it that are missing, as far as the free frames go. There
    /// is none if a frame is missing for a table.
    fn try_find_pte_create(&mut self, m: &mut PhysMemory, vpn: VirtPageNum) -> (r: Option<
        (PhysPageNum, usize),
    >)
        requires
            old(self).inv(old(m)),
        ensures
            final(self).inv(final(m)),
            final(self).root() == old(self).root(),
            final(self).owned_data_frames() == old(self).owned_data_frames(),
            final(self).data_frames == old(self).data_frames,
            r is Some <==> old(m).free_frames() >= missing_tables(
                old(m),
                old(self).root(),
                vpn.0,
            ),
            r matches Some(place) ==> {
                &&& leaf_table(final(m), final(self).root(), vpn.0) == Some(place.0.0 as int)
                &&& place.1 == vpn_indexes(vpn.0).2
                &&& final(self).created_tables(old(self), old(m), final(m), vpn.0)
            },
            r is None ==> final(self).raw_failed_to_map(old(self), old(m), final(m), vpn.0),
            kept_to_itself(final(self), old(self), old(m), final(m)),
            missing_tables(old(m), old(self).root(), vpn.0) == 0 ==> final(m).next_frame() == old(m).next_frame(),
    {
        let ghost root = self.root();
        let ghost m0 = *m;
        let ghost t0 = self.tree@;
        let idxs = vpn.indexes();
        proof {
            m.lemma_next_frame();
        }
        let first = self.next_table(m, self.root_ppn, idxs[0]);
        let ghost m1 = *m;
        let ghost t1 = self.tree@;
        let ghost pt_mid = *self;
        proof {
            m.lemma_next_frame();
            assert(self.owned_data_frames() =~= old(self).owned_data_frames());
            assert forall|p: int| #[trigger] t0.dom().contains(p) implies t1.dom().contains(p) by {}
            assert forall|p: int|
                #[trigger] m1.is_allocated(p) == (m0.is_allocated(p) || (t1.dom().contains(p)
                    && !t0.dom().contains(p))) by {
                if t0.dom().contains(p) {
                    assert(m0.is_allocated(p));
                }
            }
            assert forall|p: int| #[trigger] t1.dom().contains(p) implies t0.dom().contains(p)
                || !m0.is_allocated(p) by {}
            assert forall|p: int, i: int|
                #![trigger m1.word(p, i)]
                m0.contains(p) && 0 <= i < 512 && !t1.dom().contains(p) implies m1.word(p, i)
                == m0.word(p, i) by {}
            assert forall|v: u64| #![trigger walk(&m1, root, v)] walk(&m1, root, v) == walk(&m0, root, v) by {}
            assert forall|v: u64|
                #![trigger leaf_table(&m1, root, v)]
                leaf_table(&m1, root, v) == leaf_table(&m0, root, v) by {}
        }
        let middle = match first {
            Some(middle) => middle,
            None => {
                proof {
                    assert forall|v: u64|
                        #![trigger missing_tables(m, root, v)]
                        missing_tables(m, root, v) == missing_after_attempt(
                            &m0,
                            root,
                            vpn.0,
                            v,
                        ) by {
                        assert(missing_tables(&m1, root, v) == missing_tables(&m0, root, v));
                    }
                    self.lemma_tree_facts(old(self), &m0, m, vpn.0, false);
                }
                return None;
            },
        };
        proof {
            assert(child_table(m, root, idxs[0] as int) == Some(middle.0 as int));
            assert(self.tree@[middle.0 as int] == (1int, idxs[0] as int, 0int));
        }
        let second = self.next_table(m, middle, idxs[1]);
        proof {
            let t2 = self.tree@;
            assert(self.owned_data_frames() =~= old(self).owned_data_frames());
            assert forall|p: int| #[trigger] t0.dom().contains(p) implies t2.dom().contains(p) by {
                assert(t1.dom().contains(p));
            }
            assert forall|p: int|
                #[trigger] m.is_allocated(p) == (m0.is_allocated(p) || (t2.dom().contains(p)
                    && !t0.dom().contains(p))) by {
                assert(m1.is_allocated(p) == (m0.is_allocated(p) || (t1.dom().contains(p)
                    && !t0.dom().contains(p))));
                if t1.dom().contains(p) {
                    assert(m1.is_allocated(p));
                }
            }
            assert forall|p: int| #[trigger] t2.dom().contains(p) implies t0.dom().contains(p)
                || !m0.is_allocated(p) by {
                if !t1.dom().contains(p) {
                    assert(!m1.is_allocated(p));
                    assert(m1.is_allocated(p) == (m0.is_allocated(p) || (t1.dom().contains(p)
                        && !t0.dom().contains(p))));
                }
            }
            assert forall|p: int, i: int|
                #![trigger m.word(p, i)]
                m0.contains(p) && 0 <= i < 512 && !t2.dom().contains(p) implies m.word(p, i)
                == m0.word(p, i) by {
                assert(m1.word(p, i) == m0.word(p, i));
            }
            if second is Some {
                assert(leaf_table(m, root, vpn.0) == Some(second.unwrap().0 as int)) by {
                    assert(child_table(m, middle.0 as int, idxs[1] as int) == Some(
                        second.unwrap().0 as int,
                    ));
                    assert(leaf_table(&m1, root, vpn.0) == leaf_table(&m0, root, vpn.0));
                }
                assert forall|v: u64|
                    #![trigger walk(m, root, v)]
                    walk(m, root, v) == walk_after_create(&m0, root, vpn.0, v) by {
                    assert(walk(&m1, root, v) == walk(&m0, root, v));
                    assert(leaf_table(&m1, root, v) == leaf_table(&m0, root, v));
                }
            } else {
                assert forall|v: u64| #![trigger walk(m, root, v)] walk(m, root, v) == walk(&m0, root, v) by {
                    assert(walk(&m1, root, v) == walk(&m0, root, v));
                }
            }
            let created_top = child_table(&m0, root, idxs[0] as int) is None;
            let created_last = child_table(&m1, middle.0 as int, idxs[1] as int) is None
                && second is Some;
            assert(t1[middle.0 as int] == (1int, idxs[0] as int, 0int));
            assert(leaf_table(&m1, root, vpn.0) == child_table(
                &m1,
                middle.0 as int,
                idxs[1] as int,
            )) by {
                assert(child_table(&m1, root, idxs[0] as int) == Some(middle.0 as int));
            }
            assert forall|v: u64|
                #![trigger missing_tables(m, root, v)]
                missing_tables(m, root, v) == missing_after_attempt(&m0, root, vpn.0, v) by {
                let after_first = missing_tables(&m1, root, v);
                assert(after_first == if created_top {
                    if vpn_indexes(v).0 == idxs[0] {
                        1
                    } else {
                        missing_tables(&m0, root, v)
                    }
                } else {
                    missing_tables(&m0, root, v)
                });
                assert(missing_tables(m, root, v) == if created_last {
                    if vpn_indexes(v).0 == idxs[0] && vpn_indexes(v).1 == idxs[1] {
                        0
                    } else {
                        after_first
                    }
                } else {
                    after_first
                });
                assert(leaf_table(&m1, root, vpn.0) == leaf_table(&m0, root, vpn.0));
                if same_block(v, vpn.0) {
                    assert(leaf_table(&m1, root, v) == leaf_table(&m1, root, vpn.0));
                    assert(leaf_table(&m0, root, v) == leaf_table(&m0, root, vpn.0));
                }
            }
            self.lemma_tree_facts(old(self), &m0, m, vpn.0, second is Some);
        }
        match second {
            Some(last) => Some((last, idxs[2])),
            None => None,
        }
    }

    /// What is known of the trees of tables carries over to the frames
    /// owned.
    proof fn lemma_tree_facts(
        &self,
        before: &PageTable,
        m0: &PhysMemory,
        m: &PhysMemory,
        vpn: u64,
        created: bool,
    )
        requires
            before.inv(m0),
            self.inv(m),
            self.root() == before.root(),
            self.owned_data_frames() == before.owned_data_frames(),
            m.base_ppn() == m0.base_ppn(),
            m.end_ppn() == m0.end_ppn(),
            created ==> m.free_frames() == m0.free_frames() - missing_tables(
                m0,
                before.root(),
                vpn,
            ),
            !created ==> m.free_frames() == 0 && m0.free_frames() < missing_tables(
                m0,
                before.root(),
                vpn,
            ),
            forall|p: int| #[trigger] before.tree@.dom().contains(p) ==> self.tree@.dom().contains(p),
            forall|p: int|
                #[trigger] m.is_allocated(p) == (m0.is_allocated(p) || (self.tree@.dom().contains(p)
                    && !before.tree@.dom().contains(p))),
            forall|p: int|
                #[trigger] self.tree@.dom().contains(p) ==> before.tree@.dom().contains(p)
                    || !m0.is_allocated(p),
            forall|p: int, i: int|
                #![trigger m.word(p, i)]
                m0.contains(p) && 0 <= i < 512 && !self.tree@.dom().contains(p) ==> m.word(p, i)
                    == m0.word(p, i),
            forall|v: u64|
                #![trigger walk(m, before.root(), v)]
                walk(m, before.root(), v) == if created {
                    walk_after_create(m0, before.root(), vpn, v)
                } else {
                    walk(m0, before.root(), v)
                },
            forall|v: u64|
                #![trigger missing_tables(m, before.root(), v)]
                missing_tables(m, before.root(), v) == missing_after_attempt(
                    m0,
                    before.root(),
                    vpn,
                    v,
                ),
        ensures
            kept_to_itself(self, before, m0, m),
            created ==> self.created_tables(before, m0, m, vpn),
            !created ==> self.raw_failed_to_map(before, m0, m, vpn),
    {
        m.lemma_next_frame();
        assert forall|p: int| self.tree@.dom().contains(p) <==> #[trigger] self.owned_frames().contains(
            p,
        ) by {}
        assert forall|p: int|
            before.tree@.dom().contains(p) <==> #[trigger] before.owned_frames().contains(p) by {}
        assert forall|p: int| before.owned_frames().contains(p) implies self.owned_frames().contains(
            p,
        ) by {
            assert(before.tree@.dom().contains(p));
        }
        assert forall|p: int|
            #[trigger] m.is_allocated(p) == (m0.is_allocated(p) || (self.owned_frames().contains(p)
                && !before.owned_frames().contains(p))) by {
            assert(self.tree@.dom().contains(p) <==> self.owned_frames().contains(p));
            assert(before.tree@.dom().contains(p) <==> before.owned_frames().contains(p));
        }
        assert forall|p: int, i: int|
            #![trigger m.word(p, i)]
            m0.contains(p) && 0 <= i < 512 && !self.owned_frames().contains(p) implies m.word(p, i)
            == m0.word(p, i) by {
            assert(self.tree@.dom().contains(p) <==> self.owned_frames().contains(p));
        }
        assert forall|p: int| m0.is_allocated(p) implies #[trigger] m.is_allocated(p) by {}
        assert forall|p: int|
            #[trigger] self.owned_frames().contains(p) implies before.owned_frames().contains(p)
            || !m0.is_allocated(p) by {
            assert(self.tree@.dom().contains(p));
            assert(before.tree@.dom().contains(p) <==> before.owned_frames().contains(p));
        }
        assert forall|p: int, i: int|
            #![trigger m.word(p, i)]
            m0.is_allocated(p) && !before.owned_frames().contains(p) && 0 <= i < 512 implies m.word(
            p,
            i,
        ) == m0.word(p, i) by {
            m0.lemma_allocated_is_contained(p);
            assert(before.tree@.dom().contains(p) <==> before.owned_frames().contains(p));
            assert(!self.tree@.dom().contains(p));
        }
    }

    /// Finds the place of the entry of page `vpn`, creating the tables on
    /// the way to it that are missing.
    fn find_pte_create(&mut self, m: &mut PhysMemory, vpn: VirtPageNum) -> (place: (
        PhysPageNum,
        usize,
    ))
        requires
            old(self).inv(old(m)),
            old(m).free_frames() >= missing_tables(old(m), old(self).root(), vpn.0),
        ensures
            final(self).inv(final(m)),
            final(self).root() == old(self).root(),
            final(self).owned_data_frames() == old(self).owned_data_frames(),
            final(self).data_frames == old(self).data_frames,
            leaf_table(final(m), final(self).root(), vpn.0) == Some(place.0.0 as int),
            place.1 == vpn_indexes(vpn.0).2,
            final(self).created_tables(old(self), old(m), final(m), vpn.0),
            kept_to_itself(final(self), old(self), old(m), final(m)),
    {
        self.try_find_pte_create(m, vpn).unwrap()
    }

    /// What the tables hold once the tables on the way to the entry of page
    /// `vpn` have been created: the missing tables have been taken from the
    /// free frames and are owned by the page table, no other frame has
    /// changed, and every place holds what `walk_after_create` says.
    spec fn created_tables(
        &self,
        before: &PageTable,
        m0: &PhysMemory,
        m: &PhysMemory,
        vpn: u64,
    ) -> bool {
        &&& m.base_ppn() == m0.base_ppn()
        &&& m.end_ppn() == m0.end_ppn()
        &&& m.free_frames() == m0.free_frames() - missing_tables(m0, before.root(), vpn)
        &&& forall|p: int| before.owned_frames().contains(p) ==> self.owned_frames().contains(p)
        &&& forall|p: int|
            #[trigger] m.is_allocated(p) == (m0.is_allocated(p) || (self.owned_frames().contains(p)
                && !before.owned_frames().contains(p)))
        &&& forall|p: int, i: int|
            #![trigger m.word(p, i)]
            m0.contains(p) && 0 <= i < 512 && !self.owned_frames().contains(p) ==> m.word(p, i)
                == m0.word(p, i)
        &&& forall|v: u64|
            #![trigger walk(m, before.root(), v)]
            walk(m, before.root(), v) == walk_after_create(m0, before.root(), vpn, v)
        &&& forall|v: u64|
            #![trigger missing_tables(m, before.root(), v)]
            missing_tables(m, before.root(), v) == missing_after_create(m0, before.root(), vpn, v)
    }

    /// The same page table with the memory as it is after changes that
    /// have touched none of its tables.
    pub proof fn lemma_inv_depends_on_owned_frames(&self, m0: &PhysMemory, m: &PhysMemory)
        requires
            self.inv(m0),
            m.wf(),
            m.base_ppn() == m0.base_ppn(),
            m.end_ppn() == m0.end_ppn(),
            forall|p: int|
                self.owned_frames().contains(p) || self.owned_data_frames().contains(p)
                    ==> #[trigger] m.is_allocated(p),
            forall|p: int, i: int|
                #![trigger m.word(p, i)]
                self.owned_frames().contains(p) && 0 <= i < 512 ==> m.word(p, i) == m0.word(p, i),
        ensures
            self.inv(m),
            forall|v: u64| #![trigger walk(m, self.root(), v)] walk(m, self.root(), v) == walk(m0, self.root(), v),
    {
        let t = self.tree@;
        let root = self.root();
        assert forall|p: int, i: int| t.dom().contains(p) && 0 <= i < 512 implies (
        #[trigger] child_table(m, p, i)) == child_table(m0, p, i) by {
            assert(self.owned_frames().contains(p));
            assert(m.word(p, i) == m0.word(p, i));
        }
        assert forall|i2: int| 0 <= i2 < 512 implies (#[trigger] child_table(m, root, i2) matches Some(
            x,
        ) ==> t.dom().contains(x) && t[x] == (1int, i2, 0int) && bits_flags(m.word(root, i2))
            == PTEFlags::V) by {
            assert(t.dom().contains(root));
            assert(self.owned_frames().contains(root));
            assert(m.word(root, i2) == m0.word(root, i2));
            assert(child_table(m, root, i2) == child_table(m0, root, i2));
        }
        assert forall|f: int, i1: int|
            t.dom().contains(f) && t[f].0 == 1 && 0 <= i1 < 512 implies (#[trigger] child_table(m, f, i1) matches Some(
            x,
        ) ==> t.dom().contains(x) && t[x] == (2int, t[f].1, i1) && bits_flags(m.word(f, i1))
            == PTEFlags::V) by {
            assert(self.owned_frames().contains(f));
            assert(m.word(f, i1) == m0.word(f, i1));
            assert(child_table(m, f, i1) == child_table(m0, f, i1));
        }
        assert forall|f: int|
            #![trigger t.dom().contains(f)]
            t.dom().contains(f) implies {
            &&& m.is_allocated(f)
            &&& m.contains(f)
            &&& 0 <= f < PPN_LIMIT
            &&& 0 <= t[f].0 <= 2
            &&& (t[f].0 == 0 ==> f == root)
            &&& (t[f].0 == 1 ==> 0 <= t[f].1 < 512 && t[f].2 == 0 && child_table(m, root, t[f].1) == Some(f))
            &&& (t[f].0 == 2 ==> 0 <= t[f].1 < 512 && 0 <= t[f].2 < 512 && (child_table(m, root, t[f].1) matches Some(
                middle,
            ) && child_table(m, middle, t[f].2) == Some(f)))
        } by {
            assert(self.owned_frames().contains(f));
            if t[f].0 == 1 {
                assert(child_table(m, root, t[f].1) == child_table(m0, root, t[f].1));
            } else if t[f].0 == 2 {
                let middle = child_table(m0, root, t[f].1).unwrap();
                assert(t.dom().contains(middle));
                assert(child_table(m, root, t[f].1) == child_table(m0, root, t[f].1));
                assert(child_table(m, middle, t[f].2) == child_table(m0, middle, t[f].2));
            }
        }
        assert forall|k: int| 0 <= k < self.data_frames@.len() implies m.is_allocated(
            (#[trigger] self.data_frames@[k]).ppn.0 as int,
        ) by {
            assert(self.owned_data_frames().contains(self.data_frames@[k].ppn.0 as int));
        }
        assert(self.inv(m));
        assert forall|v: u64| #![trigger walk(m, root, v)] walk(m, root, v) == walk(m0, root, v) by {
            lemma_vpn_indexes_range(v);
            let j2 = vpn_indexes(v).0;
            let j1 = vpn_indexes(v).1;
            let j0 = vpn_indexes(v).2;
            assert(child_table(m, root, j2) == child_table(m0, root, j2));
            if let Some(middle) = child_table(m0, root, j2) {
                assert(t.dom().contains(middle));
                assert(child_table(m, middle, j1) == child_table(m0, middle, j1));
                if let Some(x) = child_table(m0, middle, j1) {
                    assert(t.dom().contains(x));
                    assert(self.owned_frames().contains(x));
                    assert(m.word(x, j0) == m0.word(x, j0));
                }
            }
        }
    }

    /// Maps page `vpn` to frame `ppn` with the flags `flags` and the flag
    /// "valid". The page must not be mapped, and the memory must have the
    /// frames left for the tables that are missing on the way.
    pub fn map(&mut self, m: &mut PhysMemory, vpn: VirtPageNum, ppn: PhysPageNum, flags: PTEFlags)
        requires
            old(self).inv(old(m)),
            !is_mapped(old(m), old(self).root(), vpn.0),
            old(m).free_frames() >= missing_tables(old(m), old(self).root(), vpn.0),
        ensures
            final(self).inv(final(m)),
            final(self).root() == old(self).root(),
            final(self).owned_data_frames() == old(self).owned_data_frames(),
            final(self).spec_translate(final(m), vpn) == Some(
                PageTableEntry::spec_new(ppn, PTEFlags { bits: flags.bits | PTEFlags::V }),
            ),
            is_mapped(final(m), final(self).root(), vpn.0),
            kept_to_itself(final(self), old(self), old(m), final(m)),
            final(self).mapped_page(
                old(self),
                old(m),
                final(m),
                vpn.0,
                PageTableEntry::spec_new(ppn, PTEFlags { bits: flags.bits | PTEFlags::V }),
            ),
    {
        let ghost root = self.root();
        let ghost m0 = *m;
        let place = self.find_pte_create(m, vpn);
        let ghost m1 = *m;
        let entry = PageTableEntry::new(ppn, flags | PTEFlags::from_bits_truncate(PTEFlags::V));
        self.write_leaf(m, place, entry, Ghost(vpn.0));
        proof {
            assert(kept_to_itself(self, old(self), &m0, m)) by {
                assert forall|p: int| m0.is_allocated(p) implies #[trigger] m.is_allocated(p) by {
                    assert(m1.is_allocated(p));
                    assert(m.is_allocated(p) == m1.is_allocated(p));
                }
                assert forall|p: int, i: int|
                    #![trigger m.word(p, i)]
                    m0.is_allocated(p) && !old(self).owned_frames().contains(p) && 0 <= i
                        < 512 implies m.word(p, i) == m0.word(p, i) by {
                    m0.lemma_allocated_is_contained(p);
                    assert(!self.owned_frames().contains(p));
                    assert(self.tree@.dom().contains(p) <==> self.owned_frames().contains(p));
                    assert(m1.word(p, i) == m0.word(p, i));
                }
            }
            lemma_flags_of_entry(ppn.0, flags.bits | 0x01);
            let f = flags.bits;
            assert((f | 0x01) & 0x01 != 0) by (bit_vector);
            assert(walk(m, root, vpn.0) == Some(entry));
            assert forall|v: u64|
                #![trigger walk(m, root, v)]
                walk(m, root, v) == if same_indexes(v, vpn.0) {
                    Some(entry)
                } else {
                    walk_after_create(&m0, root, vpn.0, v)
                } by {
                assert(walk(&m1, root, v) == walk_after_create(&m0, root, vpn.0, v));
            }
            assert forall|p: int|
                #[trigger] m.is_allocated(p) == (m0.is_allocated(p) || (self.owned_frames().contains(p)
                    && !old(self).owned_frames().contains(p))) by {
                assert(m.is_allocated(p) == m1.is_allocated(p));
            }
            assert forall|p: int, i: int|
                #![trigger m.word(p, i)]
                m0.contains(p) && 0 <= i < 512 && !self.owned_frames().contains(p) implies m.word(p, i)
                == m0.word(p, i) by {
                assert(self.tree@.dom().contains(p) <==> self.owned_frames().contains(p));
                assert(m1.word(p, i) == m0.word(p, i));
            }
            assert forall|v: u64|
                #![trigger missing_tables(m, root, v)]
                missing_tables(m, root, v) == missing_after_create(&m0, root, vpn.0, v) by {
                assert(missing_tables(&m1, root, v) == missing_after_create(&m0, root, vpn.0, v));
            }
            assert(self.raw_mapped_page(old(self), &m0, m, vpn.0, entry));
            self.lemma_mapped_page(old(self), &m0, m, vpn.0, entry);
            assert(lookup(m, root, vpn.0) == Some(entry));
        }
    }

    /// What the tables hold once page `vpn` has got the entry `entry`: as
    /// `created_tables` says, but that the place of a page with the indices
    /// of `vpn` holds `entry`.
    spec fn raw_mapped_page(
        &self,
        before: &PageTable,
        m0: &PhysMemory,
        m: &PhysMemory,
        vpn: u64,
        entry: PageTableEntry,
    ) -> bool {
        &&& m.base_ppn() == m0.base_ppn()
        &&& m.end_ppn() == m0.end_ppn()
        &&& m.free_frames() == m0.free_frames() - missing_tables(m0, before.root(), vpn)
        &&& forall|p: int| before.owned_frames().contains(p) ==> self.owned_frames().contains(p)
        &&& forall|p: int|
            #[trigger] m.is_allocated(p) == (m0.is_allocated(p) || (self.owned_frames().contains(p)
                && !before.owned_frames().contains(p)))
        &&& forall|p: int, i: int|
            #![trigger m.word(p, i)]
            m0.contains(p) && 0 <= i < 512 && !self.owned_frames().contains(p) ==> m.word(p, i)
                == m0.word(p, i)
        &&& forall|v: u64|
            #![trigger walk(m, before.root(), v)]
            walk(m, before.root(), v) == if same_indexes(v, vpn) {
                Some(entry)
            } else {
                walk_after_create(m0, before.root(), vpn, v)
            }
        &&& forall|v: u64|
            #![trigger missing_tables(m, before.root(), v)]
            missing_tables(m, before.root(), v) == missing_after_create(m0, before.root(), vpn, v)
    }

    /// What the tables hold once the entry of page `vpn` has been cleared:
    /// no frame has changed hands, no frame outside the tables has changed,
    /// and every place holds what it held, but the place of a page with the
    /// indices of `vpn`, which holds the empty entry.
    spec fn raw_unmapped_page(&self, m0: &PhysMemory, m: &PhysMemory, vpn: u64) -> bool {
        &&& m.same_allocation(m0)
        &&& forall|p: int, i: int|
            #![trigger m.word(p, i)]
            m0.contains(p) && 0 <= i < 512 && !self.owned_frames().contains(p) ==> m.word(p, i)
                == m0.word(p, i)
        &&& forall|v: u64|
            #![trigger walk(m, self.root(), v)]
            walk(m, self.root(), v) == if same_indexes(v, vpn) {
                Some(PageTableEntry { bits: 0 })
            } else {
                walk(m0, self.root(), v)
            }
        &&& forall|v: u64|
            #![trigger missing_tables(m, self.root(), v)]
            missing_tables(m, self.root(), v) == missing_tables(m0, self.root(), v)
    }

    /// Takes a frame for a user page. The page table owns it from then
    /// on. Nothing happens if no frame is left.
    fn try_alloc_frame(&mut self, m: &mut PhysMemory) -> (r: Option<PhysPageNum>)
        requires
            old(self).inv(old(m)),
        ensures
            final(self).inv(final(m)),
            final(self).root() == old(self).root(),
            final(self).tree@ == old(self).tree@,
            final(self).owned_frames() == old(self).owned_frames(),
            final(m).base_ppn() == old(m).base_ppn(),
            final(m).end_ppn() == old(m).end_ppn(),
            r is Some <==> old(m).free_frames() > 0,
            r is None ==> *final(self) == *old(self) && *final(m) == *old(m),
            kept_to_itself(final(self), old(self), old(m), final(m)),
            r matches Some(d) ==> {
                &&& old(m).next_frame() == Some(d.0 as int)
                &&& old(m).contains(d.0 as int)
                &&& d.0 < PPN_LIMIT
                &&& !old(m).is_allocated(d.0 as int)
                &&& !final(self).owned_frames().contains(d.0 as int)
                &&& final(self).owned_data_frames() == old(self).owned_data_frames().insert(
                    d.0 as int,
                )
                &&& final(m).free_frames() == old(m).free_frames() - 1
                &&& forall|p: int|
                    #[trigger] final(m).is_allocated(p) == (p == d.0 || old(m).is_allocated(p))
                &&& forall|i: int| 0 <= i < 512 ==> #[trigger] final(m).word(d.0 as int, i) == 0
                &&& forall|p: int, i: int|
                    #![trigger final(m).word(p, i)]
                    old(m).contains(p) && p != d.0 && 0 <= i < 512 ==> final(m).word(p, i) == old(m).word(p, i)
                &&& forall|v: u64|
                    #![trigger walk(final(m), old(self).root(), v)]
                    walk(final(m), old(self).root(), v) == walk(old(m), old(self).root(), v)
                &&& forall|v: u64|
                    #![trigger leaf_table(final(m), old(self).root(), v)]
                    leaf_table(final(m), old(self).root(), v) == leaf_table(
                        old(m),
                        old(self).root(),
                        v,
                    )
                &&& forall|v: u64|
                    #![trigger missing_tables(final(m), old(self).root(), v)]
                    missing_tables(final(m), old(self).root(), v) == missing_tables(
                        old(m),
                        old(self).root(),
                        v,
                    )
            },
    {
        if !m.has_free_frame() {
            return None;
        }
        let ghost m0 = *m;
        let ghost t = self.tree@;
        let frame = m.frame_alloc().unwrap();
        let ppn = frame.ppn;
        proof {
            m0.lemma_allocated_is_contained(ppn.0 as int);
            assert(!t.dom().contains(ppn.0 as int));
            assert forall|p: int|
                self.owned_frames().contains(p) || self.owned_data_frames().contains(
                    p,
                ) implies #[trigger] m.is_allocated(p) by {
                if self.owned_frames().contains(p) {
                    assert(t.dom().contains(p));
                } else {
                    let k = choose|k: int|
                        0 <= k < self.data_frames@.len() && (#[trigger] self.data_frames@[k]).ppn.0 == p;
                    assert(m0.is_allocated(self.data_frames@[k].ppn.0 as int));
                }
            }
            assert forall|p: int, i: int|
                #![trigger m.word(p, i)]
                self.owned_frames().contains(p) && 0 <= i < 512 implies m.word(p, i) == m0.word(
                p,
                i,
            ) by {
                assert(t.dom().contains(p));
            }
            self.lemma_inv_depends_on_owned_frames(&m0, m);
            assert forall|v: u64|
                #![trigger leaf_table(m, self.root(), v)]
                leaf_table(m, self.root(), v) == leaf_table(&m0, self.root(), v) && missing_tables(
                    m,
                    self.root(),
                    v,
                ) == missing_tables(&m0, self.root(), v) by {
                let root = self.root();
                lemma_vpn_indexes_range(v);
                let j2 = vpn_indexes(v).0;
                let j1 = vpn_indexes(v).1;
                assert(t.dom().contains(root));
                assert(m.word(root, j2) == m0.word(root, j2));
                if let Some(middle) = child_table(&m0, root, j2) {
                    assert(t.dom().contains(middle));
                    assert(m.word(middle, j1) == m0.word(middle, j1));
                }
            }
        }
        let ghost before = *self;
        self.data_frames.push(frame);
        proof {
            assert(self.data_frames@[self.data_frames@.len() - 1].ppn.0 == ppn.0);
            assert(self.owned_frames() =~= before.owned_frames());
            assert forall|p: int|
                self.owned_data_frames().contains(p) <==> before.owned_data_frames().insert(
                    ppn.0 as int,
                ).contains(p) by {
                if before.owned_data_frames().contains(p) {
                    let k = choose|k: int|
                        0 <= k < before.data_frames@.len() && (
                        #[trigger] before.data_frames@[k]).ppn.0 == p;
                    assert(self.data_frames@[k].ppn.0 == p);
                }
                if self.owned_data_frames().contains(p) && p != ppn.0 {
                    let k = choose|k: int|
                        0 <= k < self.data_frames@.len() && (#[trigger] self.data_frames@[k]).ppn.0 == p;
                    assert(before.data_frames@[k].ppn.0 == p);
                }
            }
            assert(self.owned_data_frames() =~= before.owned_data_frames().insert(ppn.0 as int));
            assert forall|k: int| 0 <= k < self.data_frames@.len() implies {
                &&& m.is_allocated((#[trigger] self.data_frames@[k]).ppn.0 as int)
                &&& !t.dom().contains(self.data_frames@[k].ppn.0 as int)
            } by {
                if k < before.data_frames@.len() {
                    assert(self.data_frames@[k] == before.data_frames@[k]);
                }
            }
            assert forall|k: int, l: int| 0 <= k < l < self.data_frames@.len() implies (
            #[trigger] self.data_frames@[k]).ppn != (#[trigger] self.data_frames@[l]).ppn by {
                assert(self.data_frames@[k] == before.data_frames@[k]);
                assert(m0.is_allocated(before.data_frames@[k].ppn.0 as int));
                if l < before.data_frames@.len() {
                    assert(self.data_frames@[l] == before.data_frames@[l]);
                }
            }
            assert(self.inv(m));
            assert forall|p: int, i: int|
                #![trigger m.word(p, i)]
                m0.is_allocated(p) && !old(self).owned_frames().contains(p) && 0 <= i < 512 implies m.word(
                p,
                i,
            ) == m0.word(p, i) by {
                m0.lemma_allocated_is_contained(p);
            }
        }
        Some(ppn)
    }

    /// Maps page `vpn` to a new frame, filled with zeros, with the flags
    /// `flags` and the flags "valid" and "user", and returns 0. Returns -1
    /// if the page is mapped already, or if the memory has no frame left
    /// for a missing table or for the page; tables created on the way stay.
    pub fn try_map_user(&mut self, m: &mut PhysMemory, vpn: VirtPageNum, flags: PTEFlags) -> (r:
        isize)
        requires
            old(self).inv(old(m)),
        ensures
            final(self).inv(final(m)),
            final(self).root() == old(self).root(),
            r == if !is_mapped(old(m), old(self).root(), vpn.0) && old(m).free_frames()
                > missing_tables(old(m), old(self).root(), vpn.0) {
                0isize
            } else {
                -1isize
            },
            r == 0 ==> final(self).mapped_user_page(old(self), old(m), final(m), vpn.0, flags),
            r == -1 ==> final(self).failed_to_map(old(self), old(m), final(m), vpn.0),
            kept_to_itself(final(self), old(self), old(m), final(m)),
    {
        let ghost root = self.root();
        let ghost m0 = *m;
        let place = match self.try_find_pte_create(m, vpn) {
            Some(place) => place,
            None => {
                proof {
                    self.lemma_failed_to_map(old(self), &m0, m, vpn.0);
                }
                return -1;
            },
        };
        let ghost m2 = *m;
        let ghost pt2 = *self;
        proof {
            m.lemma_next_frame();
            self.lemma_inv_walkable(m);
            lemma_vpn_indexes_range(vpn.0);
        }
        let entry = read_entry(m, place.0, place.1);
        if entry.is_valid() {
            proof {
                lemma_pte_bits_round_trip(0, 0);
                assert(0u8 & 0x01 == 0) by (bit_vector);
                assert(walk(m, root, vpn.0) == Some(entry));
                assert(walk(m, root, vpn.0) == walk_after_create(&m0, root, vpn.0, vpn.0));
                assert(self.raw_failed_to_map(old(self), &m0, m, vpn.0));
                self.lemma_failed_to_map(old(self), &m0, m, vpn.0);
            }
            return -1;
        }
        proof {
            lemma_pte_bits_round_trip(0, 0);
            assert(0u8 & 0x01 == 0) by (bit_vector);
            assert(walk(m, root, vpn.0) == Some(entry));
            assert(walk(m, root, vpn.0) == walk_after_create(&m0, root, vpn.0, vpn.0));
            assert(!is_mapped(&m0, root, vpn.0));
        }
        let frame = match self.try_alloc_frame(m) {
            Some(frame) => frame,
            None => {
                proof {
                    assert(self.raw_failed_to_map(old(self), &m0, m, vpn.0));
                    self.lemma_failed_to_map(old(self), &m0, m, vpn.0);
                }
                return -1;
            },
        };
        let ghost m3 = *m;
        let ghost pt3 = *self;
        let leaf = PageTableEntry::new(
            frame,
            flags | PTEFlags::from_bits_truncate(PTEFlags::V) | PTEFlags::from_bits_truncate(
                PTEFlags::U,
            ),
        );
        proof {
            assert(leaf_table(&m3, root, vpn.0) == leaf_table(&m2, root, vpn.0));
        }
        self.write_leaf(m, place, leaf, Ghost(vpn.0));
        proof {
            let f = flags.bits;
            lemma_flags_of_entry(frame.0, f | 0x01 | 0x10);
            lemma_pte_bits_round_trip(frame.0, f | 0x01 | 0x10);
            assert((f | 0x01 | 0x10) & 0x01 != 0) by (bit_vector);
            self.lemma_write_kept_to_itself(&m3, m);
            lemma_kept_to_itself_twice(old(self), &pt2, &pt3, &m0, &m2, &m3);
            lemma_kept_to_itself_twice(old(self), &pt3, self, &m0, &m3, m);
            self.lemma_mapped_user_page(old(self), &pt2, &m0, &m2, &m3, m, vpn.0, flags, leaf);
            self.lemma_mapped_user(old(self), &m0, m, vpn.0, flags);
        }
        0
    }

    /// Puts together what the three steps of `try_map_user` have done.
    proof fn lemma_mapped_user_page(
        &self,
        before: &PageTable,
        pt2: &PageTable,
        m0: &PhysMemory,
        m2: &PhysMemory,
        m3: &PhysMemory,
        m: &PhysMemory,
        vpn: u64,
        flags: PTEFlags,
        leaf: PageTableEntry,
    )
        requires
            before.inv(m0),
            pt2.root() == before.root(),
            self.root() == before.root(),
            pt2.created_tables(before, m0, m2, vpn),
            pt2.owned_data_frames() == before.owned_data_frames(),
            self.owned_frames() == pt2.owned_frames(),
            leaf.spec_is_valid(),
            leaf.spec_flags().bits == flags.bits | PTEFlags::V | PTEFlags::U,
            leaf == PageTableEntry::spec_new(
                leaf.spec_ppn(),
                PTEFlags { bits: flags.bits | PTEFlags::V | PTEFlags::U },
            ),
            m2.contains(leaf.spec_ppn().0 as int),
            !m2.is_allocated(leaf.spec_ppn().0 as int),
            m2.next_frame() == Some(leaf.spec_ppn().0 as int),
            missing_tables(m0, before.root(), vpn) == 0 ==> m2.next_frame() == m0.next_frame(),
            !self.owned_frames().contains(leaf.spec_ppn().0 as int),
            self.owned_data_frames() == pt2.owned_data_frames().insert(leaf.spec_ppn().0 as int),
            m3.base_ppn() == m2.base_ppn(),
            m3.end_ppn() == m2.end_ppn(),
            m3.free_frames() == m2.free_frames() - 1,
            forall|p: int|
                #[trigger] m3.is_allocated(p) == (p == leaf.spec_ppn().0 || m2.is_allocated(p)),
            forall|i: int| 0 <= i < 512 ==> #[trigger] m3.word(leaf.spec_ppn().0 as int, i) == 0,
            forall|p: int, i: int|
                #![trigger m3.word(p, i)]
                m2.contains(p) && p != leaf.spec_ppn().0 && 0 <= i < 512 ==> m3.word(p, i) == m2.word(
                    p,
                    i,
                ),
            forall|v: u64|
                #![trigger walk(m3, before.root(), v)]
                walk(m3, before.root(), v) == walk(m2, before.root(), v),
            forall|v: u64|
                #![trigger missing_tables(m3, before.root(), v)]
                missing_tables(m3, before.root(), v) == missing_tables(m2, before.root(), v),
            forall|v: u64|
                #![trigger missing_tables(m, before.root(), v)]
                missing_tables(m, before.root(), v) == missing_tables(m3, before.root(), v),
            m.same_allocation(m3),
            forall|v: u64|
                #![trigger walk(m, before.root(), v)]
                walk(m, before.root(), v) == if same_indexes(v, vpn) {
                    Some(leaf)
                } else {
                    walk(m3, before.root(), v)
                },
            forall|p: int, i: int|
                #![trigger m.word(p, i)]
                m3.contains(p) && 0 <= i < 512 && !self.owned_frames().contains(p) ==> m.word(p, i)
                    == m3.word(p, i),
        ensures
            self.raw_mapped_user_page(before, m0, m, vpn, flags),
    {
        let root = before.root();
        let d = leaf.spec_ppn().0 as int;
        assert(walk(m, root, vpn) == Some(leaf));
        assert forall|v: u64|
            #![trigger walk(m, root, v)]
            walk(m, root, v) == if same_indexes(v, vpn) {
                Some(leaf)
            } else {
                walk_after_create(m0, root, vpn, v)
            } by {
            assert(walk(m3, root, v) == walk(m2, root, v));
            assert(walk(m2, root, v) == walk_after_create(m0, root, vpn, v));
        }
        assert forall|p: int|
            #[trigger] m.is_allocated(p) == (m0.is_allocated(p) || p == d || (
            self.owned_frames().contains(p) && !before.owned_frames().contains(p))) by {
            assert(m.is_allocated(p) == m3.is_allocated(p));
            assert(m3.is_allocated(p) == (p == d || m2.is_allocated(p)));
        }
        assert forall|p: int, i: int|
            #![trigger m.word(p, i)]
            m0.contains(p) && 0 <= i < 512 && p != d && !self.owned_frames().contains(p) implies m.word(
            p,
            i,
        ) == m0.word(p, i) by {
            assert(m3.word(p, i) == m2.word(p, i));
            assert(m2.word(p, i) == m0.word(p, i));
        }
        assert forall|i: int| 0 <= i < 512 implies #[trigger] m.word(d, i) == 0 by {
            assert(m.word(d, i) == m3.word(d, i));
        }
        assert(!m0.is_allocated(d)) by {
            assert(m2.is_allocated(d) == (m0.is_allocated(d) || (pt2.owned_frames().contains(d)
                && !before.owned_frames().contains(d))));
        }
        assert forall|v: u64|
            #![trigger missing_tables(m, root, v)]
            missing_tables(m, root, v) == missing_after_create(m0, root, vpn, v) by {
            assert(missing_tables(m3, root, v) == missing_tables(m2, root, v));
            assert(missing_tables(m2, root, v) == missing_after_create(m0, root, vpn, v));
        }
    }

    /// What the tables hold once page `vpn` has been mapped to a new frame
    /// for the user: what `mapped_user_page` says, place by place.
    spec fn raw_mapped_user_page(
        &self,
        before: &PageTable,
        m0: &PhysMemory,
        m: &PhysMemory,
        vpn: u64,
        flags: PTEFlags,
    ) -> bool {
        &&& walk(m, before.root(), vpn) is Some
        &&& ({
            let entry = walk(m, before.root(), vpn).unwrap();
            let d = entry.spec_ppn().0 as int;
            &&& entry == PageTableEntry::spec_new(
                entry.spec_ppn(),
                PTEFlags { bits: flags.bits | PTEFlags::V | PTEFlags::U },
            )
            &&& entry.spec_flags().bits == flags.bits | PTEFlags::V | PTEFlags::U
            &&& entry.spec_is_valid()
            &&& m0.contains(d)
            &&& !m0.is_allocated(d)
            &&& (missing_tables(m0, before.root(), vpn) == 0 ==> m0.next_frame() == Some(d))
            &&& !self.owned_frames().contains(d)
            &&& self.owned_data_frames() == before.owned_data_frames().insert(d)
            &&& forall|i: int| 0 <= i < 512 ==> #[trigger] m.word(d, i) == 0
            &&& m.base_ppn() == m0.base_ppn()
            &&& m.end_ppn() == m0.end_ppn()
            &&& m.free_frames() == m0.free_frames() - missing_tables(m0, before.root(), vpn) - 1
            &&& forall|p: int| before.owned_frames().contains(p) ==> self.owned_frames().contains(p)
            &&& forall|p: int|
                #[trigger] m.is_allocated(p) == (m0.is_allocated(p) || p == d || (
                self.owned_frames().contains(p) && !before.owned_frames().contains(p)))
            &&& forall|p: int, i: int|
                #![trigger m.word(p, i)]
                m0.contains(p) && 0 <= i < 512 && p != d && !self.owned_frames().contains(p)
                    ==> m.word(p, i) == m0.word(p, i)
            &&& forall|v: u64|
                #![trigger walk(m, before.root(), v)]
                walk(m, before.root(), v) == if same_indexes(v, vpn) {
                    Some(entry)
                } else {
                    walk_after_create(m0, before.root(), vpn, v)
                }
            &&& forall|v: u64|
                #![trigger missing_tables(m, before.root(), v)]
                missing_tables(m, before.root(), v) == missing_after_create(
                    m0,
                    before.root(),
                    vpn,
                    v,
                )
        })
    }

    /// What the tables hold when page `vpn` could not be mapped: what
    /// `failed_to_map` says, place by place.
    spec fn raw_failed_to_map(
        &self,
        before: &PageTable,
        m0: &PhysMemory,
        m: &PhysMemory,
        vpn: u64,
    ) -> bool {
        let missing = missing_tables(m0, before.root(), vpn);
        &&& self.owned_data_frames() == before.owned_data_frames()
        &&& m.base_ppn() == m0.base_ppn()
        &&& m.end_ppn() == m0.end_ppn()
        &&& m.free_frames() == if m0.free_frames() >= missing {
            m0.free_frames() - missing
        } else {
            0
        }
        &&& forall|p: int| before.owned_frames().contains(p) ==> self.owned_frames().contains(p)
        &&& forall|p: int|
            #[trigger] m.is_allocated(p) == (m0.is_allocated(p) || (self.owned_frames().contains(p)
                && !before.owned_frames().contains(p)))
        &&& forall|p: int, i: int|
            #![trigger m.word(p, i)]
            m0.contains(p) && 0 <= i < 512 && !self.owned_frames().contains(p) ==> m.word(p, i)
                == m0.word(p, i)
        &&& forall|v: u64|
            #![trigger walk(m, before.root(), v)]
            walk(m, before.root(), v) == if m0.free_frames() >= missing {
                walk_after_create(m0, before.root(), vpn, v)
            } else {
                walk(m0, before.root(), v)
            }
        &&& forall|v: u64|
            #![trigger missing_tables(m, before.root(), v)]
            missing_tables(m, before.root(), v) == missing_after_attempt(m0, before.root(), vpn, v)
    }

    /// Gives every frame that the page table owns back to the memory: the
    /// frames of its tables and the frames of the user pages it has
    /// mapped. The page table is gone afterwards.
    pub fn release(self, m: &mut PhysMemory)
        requires
            self.inv(old(m)),
        ensures
            final(m).wf(),
            final(m).base_ppn() == old(m).base_ppn(),
            final(m).end_ppn() == old(m).end_ppn(),
            forall|p: int|
                #[trigger] final(m).is_allocated(p) == (old(m).is_allocated(p)
                    && !self.owned_frames().contains(p) && !self.owned_data_frames().contains(p)),
            forall|p: int, i: int|
                #![trigger final(m).word(p, i)]
                final(m).word(p, i) == old(m).word(p, i),
    {
        let ghost m0 = *m;
        let ghost t = self.tree@;
        let mut i: usize = 0;
        while i < self.frames.len()
            invariant
                i <= self.frames.len(),
                self.inv(&m0),
                t == self.tree@,
                m.wf(),
                m.base_ppn() == m0.base_ppn(),
                m.end_ppn() == m0.end_ppn(),
                forall|p: int|
                    #[trigger] m.is_allocated(p) == (m0.is_allocated(p) && !(exists|k: int|
                        0 <= k < i && (#[trigger] self.frames@[k]).ppn.0 == p)),
                forall|p: int, j: int| #![trigger m.word(p, j)] m.word(p, j) == m0.word(p, j),
            decreases self.frames.len() - i,
        {
            let ppn = self.frames[i].ppn;
            proof {
                assert(self.owned_frames().contains(ppn.0 as int));
                assert(t.dom().contains(ppn.0 as int));
                assert(m0.is_allocated(ppn.0 as int));
                if exists|k: int| 0 <= k < i && (#[trigger] self.frames@[k]).ppn.0 == ppn.0 {
                    let k = choose|k: int| 0 <= k < i && (#[trigger] self.frames@[k]).ppn.0 == ppn.0;
                    assert(self.frames@[k].ppn != self.frames@[i as int].ppn);
                }
            }
            let ghost m1 = *m;
            m.frame_dealloc(ppn);
            proof {
                assert forall|p: int|
                    #[trigger] m.is_allocated(p) == (m0.is_allocated(p) && !(exists|k: int|
                        0 <= k < i + 1 && (#[trigger] self.frames@[k]).ppn.0 == p)) by {
                    if p == ppn.0 {
                        assert(self.frames@[i as int].ppn.0 == p);
                    } else {
                        assert(m.is_allocated(p) == m1.is_allocated(p));
                        if exists|k: int| 0 <= k < i + 1 && (#[trigger] self.frames@[k]).ppn.0 == p {
                            let k = choose|k: int|
                                0 <= k < i + 1 && (#[trigger] self.frames@[k]).ppn.0 == p;
                            assert(k < i);
                        }
                    }
                }
            }
            i += 1;
        }
        let ghost m2 = *m;
        let mut j: usize = 0;
        while j < self.data_frames.len()
            invariant
                j <= self.data_frames.len(),
                self.inv(&m0),
                t == self.tree@,
                m.wf(),
                m.base_ppn() == m0.base_ppn(),
                m.end_ppn() == m0.end_ppn(),
                forall|p: int|
                    #[trigger] m2.is_allocated(p) == (m0.is_allocated(p)
                        && !self.owned_frames().contains(p)),
                forall|p: int|
                    #[trigger] m.is_allocated(p) == (m2.is_allocated(p) && !(exists|k: int|
                        0 <= k < j && (#[trigger] self.data_frames@[k]).ppn.0 == p)),
                forall|p: int, w: int| #![trigger m.word(p, w)] m.word(p, w) == m0.word(p, w),
            decreases self.data_frames.len() - j,
        {
            let ppn = self.data_frames[j].ppn;
            proof {
                assert(m0.is_allocated(self.data_frames@[j as int].ppn.0 as int));
                assert(!t.dom().contains(ppn.0 as int));
                assert(!self.owned_frames().contains(ppn.0 as int));
                if exists|k: int| 0 <= k < j && (#[trigger] self.data_frames@[k]).ppn.0 == ppn.0 {
                    let k = choose|k: int|
                        0 <= k < j && (#[trigger] self.data_frames@[k]).ppn.0 == ppn.0;
                    assert(self.data_frames@[k].ppn != self.data_frames@[j as int].ppn);
                }
            }
            let ghost m1 = *m;
            m.frame_dealloc(ppn);
            proof {
                assert forall|p: int|
                    #[trigger] m.is_allocated(p) == (m2.is_allocated(p) && !(exists|k: int|
                        0 <= k < j + 1 && (#[trigger] self.data_frames@[k]).ppn.0 == p)) by {
                    if p == ppn.0 {
                        assert(self.data_frames@[j as int].ppn.0 == p);
                    } else {
                        assert(m.is_allocated(p) == m1.is_allocated(p));
                        if exists|k: int|
                            0 <= k < j + 1 && (#[trigger] self.data_frames@[k]).ppn.0 == p {
                            let k = choose|k: int|
                                0 <= k < j + 1 && (#[trigger] self.data_frames@[k]).ppn.0 == p;
                            assert(k < j);
                        }
                    }
                }
            }
            j += 1;
        }
    }

    /// The frames that a consistent page table owns are frames of the
    /// memory that are handed out, and none of them is both a table and
    /// the frame of a page.
    pub proof fn lemma_owned_data_frames_are_allocated(&self, m: &PhysMemory, p: int)
        requires
            self.inv(m),
            self.owned_data_frames().contains(p) || self.owned_frames().contains(p),
        ensures
            m.wf(),
            m.contains(p),
            m.is_allocated(p),
            self.owned_data_frames().contains(p) ==> !self.owned_frames().contains(p),
    {
        self.lemma_inv_walkable(m);
        if m.is_allocated(p) {
            m.lemma_allocated_is_contained(p);
        }
        if self.owned_frames().contains(p) {
            assert(self.tree@.dom().contains(p));
        }
        if self.owned_data_frames().contains(p) {
            let k = choose|k: int|
                0 <= k < self.data_frames@.len() && (#[trigger] self.data_frames@[k]).ppn.0 == p;
            assert(m.is_allocated(self.data_frames@[k].ppn.0 as int));
            assert(!self.tree@.dom().contains(p));
        }
    }

    /// A change of the memory that has touched nothing but the tables of
    /// the page table has left the rest of the memory alone.
    proof fn lemma_write_kept_to_itself(&self, m0: &PhysMemory, m: &PhysMemory)
        requires
            m0.wf(),
            m.same_allocation(m0),
            forall|p: int, i: int|
                #![trigger m.word(p, i)]
                m0.contains(p) && 0 <= i < 512 && !self.tree@.dom().contains(p) ==> m.word(p, i)
                    == m0.word(p, i),
            forall|f: int| self.tree@.dom().contains(f) <==> #[trigger] self.owned_frames().contains(f),
        ensures
            kept_to_itself(self, self, m0, m),
    {
        assert forall|p: int| m0.is_allocated(p) implies #[trigger] m.is_allocated(p) by {
            assert(m.is_allocated(p) == m0.is_allocated(p));
        }
        assert forall|p: int, i: int|
            #![trigger m.word(p, i)]
            m0.is_allocated(p) && !self.owned_frames().contains(p) && 0 <= i < 512 implies m.word(p, i)
            == m0.word(p, i) by {
            m0.lemma_allocated_is_contained(p);
            assert(self.tree@.dom().contains(p) <==> self.owned_frames().contains(p));
        }
    }

    /// How the memory and the page table have changed once page `vpn` has
    /// been mapped with the entry `entry`: the tables that were missing on
    /// the way have been taken from the free frames and belong to the page
    /// table, no frame outside its tables has changed, the page is mapped
    /// with `entry`, and every other page is mapped as before.
    pub open spec fn mapped_page(
        &self,
        before: &PageTable,
        m0: &PhysMemory,
        m: &PhysMemory,
        vpn: u64,
        entry: PageTableEntry,
    ) -> bool {
        &&& m.base_ppn() == m0.base_ppn()
        &&& m.end_ppn() == m0.end_ppn()
        &&& m.free_frames() == m0.free_frames() - missing_tables(m0, before.root(), vpn)
        &&& forall|p: int| before.owned_frames().contains(p) ==> self.owned_frames().contains(p)
        &&& forall|p: int|
            #[trigger] m.is_allocated(p) == (m0.is_allocated(p) || (self.owned_frames().contains(p)
                && !before.owned_frames().contains(p)))
        &&& forall|p: int, i: int|
            #![trigger m.word(p, i)]
            m0.contains(p) && 0 <= i < 512 && !self.owned_frames().contains(p) ==> m.word(p, i)
                == m0.word(p, i)
        &&& remapped(m0, m, before.root(), vpn, Some(entry))
        &&& forall|v: u64|
            #![trigger missing_tables(m, before.root(), v)]
            missing_tables(m, before.root(), v) == missing_after_create(m0, before.root(), vpn, v)
    }

    /// How the memory has changed once page `vpn` has been unmapped: no
    /// frame has changed hands, no frame outside the tables has changed,
    /// no table has come or gone, the page is not mapped, and every other
    /// page is mapped as before.
    pub open spec fn unmapped_page(&self, m0: &PhysMemory, m: &PhysMemory, vpn: u64) -> bool {
        &&& m.same_allocation(m0)
        &&& forall|p: int, i: int|
            #![trigger m.word(p, i)]
            m0.contains(p) && 0 <= i < 512 && !self.owned_frames().contains(p) ==> m.word(p, i)
                == m0.word(p, i)
        &&& remapped(m0, m, self.root(), vpn, None)
        &&& forall|v: u64|
            #![trigger missing_tables(m, self.root(), v)]
            missing_tables(m, self.root(), v) == missing_tables(m0, self.root(), v)
    }

    /// How the memory and the page table have changed once page `vpn` has
    /// been mapped to a new frame for the user: the frame is the one named
    /// by the entry of the page, it was free, it belongs to the page table
    /// now and holds zeros, and the entry carries the flags asked for and
    /// the flags "valid" and "user". No other page whose frame was
    /// allocated is mapped to it. The tables that were missing on the way
    /// were created as for `map`, and every other page is mapped as before.
    pub open spec fn mapped_user_page(
        &self,
        before: &PageTable,
        m0: &PhysMemory,
        m: &PhysMemory,
        vpn: u64,
        flags: PTEFlags,
    ) -> bool {
        &&& lookup(m, before.root(), vpn) is Some
        &&& ({
            let entry = lookup(m, before.root(), vpn).unwrap();
            let d = entry.spec_ppn().0 as int;
            &&& entry == PageTableEntry::spec_new(
                entry.spec_ppn(),
                PTEFlags { bits: flags.bits | PTEFlags::V | PTEFlags::U },
            )
            &&& entry.spec_flags().bits == flags.bits | PTEFlags::V | PTEFlags::U
            &&& entry.spec_is_valid()
            &&& m0.contains(d)
            &&& !m0.is_allocated(d)
            &&& (missing_tables(m0, before.root(), vpn) == 0 ==> m0.next_frame() == Some(d))
            &&& !self.owned_frames().contains(d)
            &&& self.owned_data_frames() == before.owned_data_frames().insert(d)
            &&& forall|i: int| 0 <= i < 512 ==> #[trigger] m.word(d, i) == 0
            &&& m.base_ppn() == m0.base_ppn()
            &&& m.end_ppn() == m0.end_ppn()
            &&& m.free_frames() == m0.free_frames() - missing_tables(m0, before.root(), vpn) - 1
            &&& forall|p: int| before.owned_frames().contains(p) ==> self.owned_frames().contains(p)
            &&& forall|p: int|
                #[trigger] m.is_allocated(p) == (m0.is_allocated(p) || p == d || (
                self.owned_frames().contains(p) && !before.owned_frames().contains(p)))
            &&& forall|p: int, i: int|
                #![trigger m.word(p, i)]
                m0.contains(p) && 0 <= i < 512 && p != d && !self.owned_frames().contains(p)
                    ==> m.word(p, i) == m0.word(p, i)
            &&& remapped(m0, m, before.root(), vpn, Some(entry))
            &&& forall|v: u64|
                #![trigger lookup(m, before.root(), v)]
                !same_indexes(v, vpn) && is_mapped(m0, before.root(), v) && m0.is_allocated(
                    frame_of(m0, before.root(), v),
                ) ==> frame_of(m, before.root(), v) != d
            &&& forall|v: u64|
                #![trigger missing_tables(m, before.root(), v)]
                missing_tables(m, before.root(), v) == missing_after_create(
                    m0,
                    before.root(),
                    vpn,
                    v,
                )
        })
    }

    /// How the memory and the page table have changed when page `vpn`
    /// could not be mapped: tables that were missing on the way have been
    /// created as far as the free frames went, every page is mapped as
    /// before, and no frame outside the tables has changed.
    pub open spec fn failed_to_map(
        &self,
        before: &PageTable,
        m0: &PhysMemory,
        m: &PhysMemory,
        vpn: u64,
    ) -> bool {
        let missing = missing_tables(m0, before.root(), vpn);
        &&& self.owned_data_frames() == before.owned_data_frames()
        &&& m.base_ppn() == m0.base_ppn()
        &&& m.end_ppn() == m0.end_ppn()
        &&& m.free_frames() == if m0.free_frames() >= missing {
            m0.free_frames() - missing
        } else {
            0
        }
        &&& forall|p: int| before.owned_frames().contains(p) ==> self.owned_frames().contains(p)
        &&& forall|p: int|
            #[trigger] m.is_allocated(p) == (m0.is_allocated(p) || (self.owned_frames().contains(p)
                && !before.owned_frames().contains(p)))
        &&& forall|p: int, i: int|
            #![trigger m.word(p, i)]
            m0.contains(p) && 0 <= i < 512 && !self.owned_frames().contains(p) ==> m.word(p, i)
                == m0.word(p, i)
        &&& same_mappings(m0, m, before.root())
        &&& forall|v: u64|
            #![trigger missing_tables(m, before.root(), v)]
            missing_tables(m, before.root(), v) == missing_after_attempt(m0, before.root(), vpn, v)
    }

    /// What the tables hold after a page has got its entry says how the
    /// pages are mapped.
    proof fn lemma_mapped_page(
        &self,
        before: &PageTable,
        m0: &PhysMemory,
        m: &PhysMemory,
        vpn: u64,
        entry: PageTableEntry,
    )
        requires
            self.raw_mapped_page(before, m0, m, vpn, entry),
            entry.spec_is_valid(),
        ensures
            self.mapped_page(before, m0, m, vpn, entry),
    {
        let root = before.root();
        assert forall|v: u64|
            #![trigger lookup(m, root, v)]
            lookup(m, root, v) == if same_indexes(v, vpn) {
                Some(entry)
            } else {
                lookup(m0, root, v)
            } by {
            lemma_walk_after_create_keeps_mappings(m0, root, vpn, v);
            assert(walk(m, root, v) == walk(m, root, v));
        }
    }

    /// What the tables hold after a page has been mapped for the user says
    /// how the pages are mapped.
    proof fn lemma_mapped_user(
        &self,
        before: &PageTable,
        m0: &PhysMemory,
        m: &PhysMemory,
        vpn: u64,
        flags: PTEFlags,
    )
        requires
            self.raw_mapped_user_page(before, m0, m, vpn, flags),
        ensures
            self.mapped_user_page(before, m0, m, vpn, flags),
    {
        let root = before.root();
        let entry = walk(m, root, vpn).unwrap();
        assert(lookup(m, root, vpn) == Some(entry));
        assert forall|v: u64|
            #![trigger lookup(m, root, v)]
            lookup(m, root, v) == if same_indexes(v, vpn) {
                Some(entry)
            } else {
                lookup(m0, root, v)
            } by {
            lemma_walk_after_create_keeps_mappings(m0, root, vpn, v);
            assert(walk(m, root, v) == walk(m, root, v));
        }
    }

    /// What the tables hold after a page could not be mapped says that
    /// the pages are mapped as before.
    proof fn lemma_failed_to_map(
        &self,
        before: &PageTable,
        m0: &PhysMemory,
        m: &PhysMemory,
        vpn: u64,
    )
        requires
            self.raw_failed_to_map(before, m0, m, vpn),
        ensures
            self.failed_to_map(before, m0, m, vpn),
    {
        let root = before.root();
        assert forall|v: u64| #![trigger lookup(m, root, v)] lookup(m, root, v) == lookup(m0, root, v) by {
            lemma_walk_after_create_keeps_mappings(m0, root, vpn, v);
            assert(walk(m, root, v) == walk(m, root, v));
        }
    }

    /// What the tables hold after a page has been unmapped says how the
    /// pages are mapped.
    proof fn lemma_unmapped_page(&self, m0: &PhysMemory, m: &PhysMemory, vpn: u64)
        requires
            self.raw_unmapped_page(m0, m, vpn),
        ensures
            self.unmapped_page(m0, m, vpn),
    {
        let root = self.root();
        lemma_pte_bits_round_trip(0, 0);
        assert(0u8 & 0x01 == 0) by (bit_vector);
        assert forall|v: u64|
            #![trigger lookup(m, root, v)]
            lookup(m, root, v) == if same_indexes(v, vpn) {
                None
            } else {
                lookup(m0, root, v)
            } by {
            assert(walk(m, root, v) == walk(m, root, v));
        }
    }

    /// Removes the mapping of page `vpn`, which must be mapped.
    pub fn unmap(&mut self, m: &mut PhysMemory, vpn: VirtPageNum)
        requires
            old(self).inv(old(m)),
            is_mapped(old(m), old(self).root(), vpn.0),
        ensures
            final(self).inv(final(m)),
            final(self).root() == old(self).root(),
            final(self).owned_frames() == old(self).owned_frames(),
            final(self).owned_data_frames() == old(self).owned_data_frames(),
            final(self).spec_translate(final(m), vpn) is None,
            !is_mapped(final(m), final(self).root(), vpn.0),
            kept_to_itself(final(self), old(self), old(m), final(m)),
            final(self).unmapped_page(old(m), final(m), vpn.0),
    {
        proof {
            self.lemma_inv_walkable(m);
        }
        let ghost m0 = *m;
        let place = self.find_pte(m, vpn).unwrap();
        let empty = PageTableEntry::empty();
        self.write_leaf(m, place, empty, Ghost(vpn.0));
        proof {
            self.lemma_write_kept_to_itself(&m0, m);
            assert(walk(m, self.root(), vpn.0) == Some(empty));
            assert forall|p: int, i: int|
                #![trigger m.word(p, i)]
                m0.contains(p) && 0 <= i < 512 && !self.owned_frames().contains(p) implies m.word(p, i)
                == m0.word(p, i) by {
                assert(self.tree@.dom().contains(p) <==> self.owned_frames().contains(p));
            }
            assert(self.raw_unmapped_page(&m0, m, vpn.0));
            self.lemma_unmapped_page(&m0, m, vpn.0);
            assert(lookup(m, self.root(), vpn.0) is None);
        }
    }

    /// Removes the mapping of page `vpn` and returns 0, or returns -1 and
    /// changes nothing if the page is not mapped.
    pub fn try_unmap(&mut self, m: &mut PhysMemory, vpn: VirtPageNum) -> (r: isize)
        requires
            old(self).inv(old(m)),
        ensures
            final(self).inv(final(m)),
            final(self).root() == old(self).root(),
            final(self).owned_frames() == old(self).owned_frames(),
            final(self).owned_data_frames() == old(self).owned_data_frames(),
            r == if is_mapped(old(m), old(self).root(), vpn.0) {
                0isize
            } else {
                -1isize
            },
            r == 0 ==> final(self).unmapped_page(old(m), final(m), vpn.0) && final(self).spec_translate(final(m), vpn) is None,
            r == -1 ==> final(m).same_allocation(old(m)) && same_mappings(
                old(m),
                final(m),
                old(self).root(),
            ) && forall|p: int, i: int|
                #![trigger final(m).word(p, i)]
                final(m).word(p, i) == old(m).word(p, i),
            kept_to_itself(final(self), old(self), old(m), final(m)),
    {
        proof {
            self.lemma_inv_walkable(m);
        }
        let ghost m0 = *m;
        match self.find_pte(m, vpn) {
            None => -1,
            Some(place) => {
                let entry = read_entry(m, place.0, place.1);
                if !entry.is_valid() {
                    -1
                } else {
                    self.write_leaf(m, place, PageTableEntry::empty(), Ghost(vpn.0));
                    proof {
                        self.lemma_write_kept_to_itself(&m0, m);
                        assert(walk(m, self.root(), vpn.0) == Some(PageTableEntry { bits: 0 }));
                        assert forall|p: int, i: int|
                            #![trigger m.word(p, i)]
                            m0.contains(p) && 0 <= i < 512 && !self.owned_frames().contains(
                                p,
                            ) implies m.word(p, i) == m0.word(p, i) by {
                            assert(self.tree@.dom().contains(p) <==> self.owned_frames().contains(p));
                        }
                        assert(self.raw_unmapped_page(&m0, m, vpn.0));
                        self.lemma_unmapped_page(&m0, m, vpn.0);
                        assert(lookup(m, self.root(), vpn.0) is None);
                    }
                    0
                }
            },
        }
    }
}

/// An entry built from flags gives the flags back, whatever the frame
/// number.
pub proof fn lemma_flags_of_entry(ppn: u64, flags: u8)
    ensures
        bits_flags(pte_bits(ppn, flags)) == flags,
{
    assert((((ppn << 10) | (flags as u64)) & 0xff) as u8 == flags) by (bit_vector);
}


/// Frame `p` belongs to the page table: it holds one of its tables or one
/// of the user pages it has mapped.
pub open spec fn owns(pt: &PageTable, p: int) -> bool {
    pt.owned_frames().contains(p) || pt.owned_data_frames().contains(p)
}

/// An operation on the page table `before` that has made it `pt` has left
/// the rest of the memory alone: no frame has been given back, the frames
/// that the page table has come to own were free, and no frame that was
/// handed out has changed but the tables of the page table itself.
pub open spec fn kept_to_itself(pt: &PageTable, before: &PageTable, m0: &PhysMemory, m: &PhysMemory) -> bool {
    &&& m.base_ppn() == m0.base_ppn()
    &&& m.end_ppn() == m0.end_ppn()
    &&& forall|p: int| m0.is_allocated(p) ==> #[trigger] m.is_allocated(p)
    &&& forall|p: int|
        #[trigger] pt.owned_frames().contains(p) ==> before.owned_frames().contains(p)
            || !m0.is_allocated(p)
    &&& forall|p: int|
        #[trigger] pt.owned_data_frames().contains(p) ==> before.owned_data_frames().contains(p)
            || !m0.is_allocated(p)
    &&& forall|p: int, i: int|
        #![trigger m.word(p, i)]
        m0.is_allocated(p) && !before.owned_frames().contains(p) && 0 <= i < 512 ==> m.word(p, i)
            == m0.word(p, i)
}

/// Two operations in a row that each leave the rest of the memory alone
/// leave it alone together.
pub proof fn lemma_kept_to_itself_twice(
    pt0: &PageTable,
    pt1: &PageTable,
    pt2: &PageTable,
    m0: &PhysMemory,
    m1: &PhysMemory,
    m2: &PhysMemory,
)
    requires
        kept_to_itself(pt1, pt0, m0, m1),
        kept_to_itself(pt2, pt1, m1, m2),
    ensures
        kept_to_itself(pt2, pt0, m0, m2),
{
    assert forall|p: int| m0.is_allocated(p) implies #[trigger] m2.is_allocated(p) by {
        assert(m1.is_allocated(p));
    }
    assert forall|p: int| #[trigger] pt2.owned_frames().contains(p) implies pt0.owned_frames().contains(
        p,
    ) || !m0.is_allocated(p) by {
        if m0.is_allocated(p) {
            assert(m1.is_allocated(p));
            assert(pt1.owned_frames().contains(p));
        }
    }
    assert forall|p: int|
        #[trigger] pt2.owned_data_frames().contains(p) implies pt0.owned_data_frames().contains(p)
        || !m0.is_allocated(p) by {
        if m0.is_allocated(p) {
            assert(m1.is_allocated(p));
            assert(pt1.owned_data_frames().contains(p));
        }
    }
    assert forall|p: int, i: int|
        #![trigger m2.word(p, i)]
        m0.is_allocated(p) && !pt0.owned_frames().contains(p) && 0 <= i < 512 implies m2.word(p, i)
        == m0.word(p, i) by {
        assert(m1.is_allocated(p));
        if pt1.owned_frames().contains(p) {
            assert(pt0.owned_frames().contains(p) || !m0.is_allocated(p));
        }
        assert(m1.word(p, i) == m0.word(p, i));
        assert(m2.word(p, i) == m1.word(p, i));
    }
}

/// The valid entry of page `vpn`, if the page is mapped.
pub open spec fn lookup(m: &PhysMemory, root: int, vpn: u64) -> Option<PageTableEntry> {
    if is_mapped(m, root, vpn) {
        walk(m, root, vpn)
    } else {
        None
    }
}

/// Creating the tables on the way to a page maps no page and unmaps none.
pub proof fn lemma_walk_after_create_keeps_mappings(m0: &PhysMemory, root: int, vpn: u64, v: u64)
    ensures
        (walk_after_create(m0, root, vpn, v) matches Some(e) && e.spec_is_valid()) == is_mapped(
            m0,
            root,
            v,
        ),
        is_mapped(m0, root, v) ==> walk_after_create(m0, root, vpn, v) == walk(m0, root, v),
{
    lemma_pte_bits_round_trip(0, 0);
    assert(0u8 & 0x01 == 0) by (bit_vector);
}

/// A page that is mapped and then unmapped is not mapped: `translate`
/// finds nothing for it. Every page is mapped as before the two steps.
pub proof fn lemma_unmap_after_map(
    pt0: &PageTable,
    pt1: &PageTable,
    pt2: &PageTable,
    m0: &PhysMemory,
    m1: &PhysMemory,
    m2: &PhysMemory,
    vpn: VirtPageNum,
    ppn: PhysPageNum,
    flags: PTEFlags,
)
    requires
        pt1.root() == pt0.root(),
        pt2.root() == pt0.root(),
        !is_mapped(m0, pt0.root(), vpn.0),
        pt1.mapped_page(
            pt0,
            m0,
            m1,
            vpn.0,
            PageTableEntry::spec_new(ppn, PTEFlags { bits: flags.bits | PTEFlags::V }),
        ),
        pt2.unmapped_page(m1, m2, vpn.0),
    ensures
        pt1.spec_translate(m1, vpn) == Some(
            PageTableEntry::spec_new(ppn, PTEFlags { bits: flags.bits | PTEFlags::V }),
        ),
        pt2.spec_translate(m2, vpn) is None,
        forall|v: u64| #[trigger] lookup(m2, pt2.root(), v) == lookup(m0, pt0.root(), v),
{
    let root = pt0.root();
    assert(lookup(m1, root, vpn.0) == Some(
        PageTableEntry::spec_new(ppn, PTEFlags { bits: flags.bits | PTEFlags::V }),
    ));
    assert(lookup(m2, root, vpn.0) is None);
    assert forall|v: u64| #[trigger] lookup(m2, root, v) == lookup(m0, root, v) by {
        assert(lookup(m1, root, v) == lookup(m1, root, v));
        if same_indexes(v, vpn.0) {
            assert(walk(m0, root, v) == walk(m0, root, vpn.0));
        }
    }
}

/// The physical address of the byte at the offset of `va` in frame `ppn`.
pub fn translate_phys_addr(va: VirtAddr, ppn: PhysPageNum) -> (r: u64)
    requires
        ppn.0 < PPN_LIMIT,
    ensures
        r == ppn.0 * 4096 + va.0 % 4096,
{
    let base = ppn.0;
    assert(base << 12 == base * 4096) by (bit_vector)
        requires
            base < 0x1000_0000_0000u64,
    ;
    (ppn.0 << 12) + va.page_offset()
}

/// The physical address that the virtual address `ptr` stands for in the
/// page table that `token` names. The page of `ptr` must be mapped.
pub fn translate_phys_addr_token(m: &PhysMemory, token: u64, ptr: u64) -> (r: u64)
    requires
        walkable(m, token_root(token)),
        is_mapped(m, token_root(token), (ptr % 0x80_0000_0000) / 4096),
    ensures
        r == frame_of(m, token_root(token), (ptr % 0x80_0000_0000) / 4096) * 4096 + ptr % 4096,
{
    let page_table = PageTable::from_token(token);
    let va = VirtAddr::new(ptr);
    let vpn = va.floor();
    let entry = page_table.translate(m, vpn).unwrap();
    assert((ptr % 0x80_0000_0000) % 4096 == ptr % 4096) by (bit_vector);
    translate_phys_addr(va, entry.ppn())
}

/// The frame that page `v`, which is mapped, is mapped to.
pub open spec fn frame_of(m: &PhysMemory, root: int, v: u64) -> int {
    lookup(m, root, v).unwrap().spec_ppn().0 as int
}

/// The pages `first` to `first + count - 1` have been mapped for the user
/// with the flags `flags`, none of which was mapped before: each to a
/// frame of its own that was free, that the page table has taken for it
/// and that holds zeros. Every other page is mapped as before.
pub open spec fn mapped_range(
    pt: &PageTable,
    before: &PageTable,
    m0: &PhysMemory,
    m: &PhysMemory,
    first: u64,
    count: int,
    flags: u8,
) -> bool {
    &&& forall|v: u64|
        #![trigger is_mapped(m, before.root(), v)]
        first <= v < first + count ==> {
            &&& is_mapped(m, before.root(), v)
            &&& !is_mapped(m0, before.root(), v)
            &&& lookup(m, before.root(), v).unwrap().spec_flags().bits == flags | PTEFlags::V
                | PTEFlags::U
            &&& pt.owned_data_frames().contains(frame_of(m, before.root(), v))
            &&& !before.owned_data_frames().contains(frame_of(m, before.root(), v))
            &&& !m0.is_allocated(frame_of(m, before.root(), v))
        }
    &&& forall|v: u64, i: int|
        #![trigger m.word(frame_of(m, before.root(), v), i)]
        first <= v < first + count && 0 <= i < 512 ==> m.word(frame_of(m, before.root(), v), i)
            == 0
    &&& forall|v: u64, w: u64|
        #![trigger frame_of(m, before.root(), v), frame_of(m, before.root(), w)]
        first <= v < w < first + count ==> frame_of(m, before.root(), v) != frame_of(
            m,
            before.root(),
            w,
        )
    &&& forall|v: u64|
        #![trigger lookup(m, before.root(), v)]
        v < VPN_LIMIT && !(first <= v < first + count) ==> lookup(m, before.root(), v) == lookup(
            m0,
            before.root(),
            v,
        )
}

/// The pages `first` to `first + count - 1` have been unmapped, all of
/// which were mapped. Every other page is mapped as before.
pub open spec fn unmapped_range(root: int, m0: &PhysMemory, m: &PhysMemory, first: u64, count: int) -> bool {
    &&& forall|v: u64|
        #![trigger is_mapped(m0, root, v)]
        first <= v < first + count ==> is_mapped(m0, root, v) && !is_mapped(m, root, v)
    &&& forall|v: u64|
        #![trigger lookup(m, root, v)]
        v < VPN_LIMIT && !(first <= v < first + count) ==> lookup(m, root, v) == lookup(m0, root, v)
}

/// The number of tables that are missing on the way to the entry of page
/// `w` once the first `done` pages from page `first` have been mapped.
pub open spec fn missing_in_progress(m0: &PhysMemory, root: int, first: u64, done: int, w: u64) -> int {
    if done <= 0 {
        missing_tables(m0, root, w)
    } else {
        missing_after_create(m0, root, (first + done - 1) as u64, w)
    }
}

/// The number of frames that it takes to map page `first + j` for the user
/// once the pages from `first` up to it have been mapped: one for the page
/// and one for each table that is then still missing on the way.
pub open spec fn page_cost(m0: &PhysMemory, root: int, first: u64, j: int) -> int {
    1 + missing_in_progress(m0, root, first, j, (first + j) as u64)
}

/// The number of frames that it takes to map the `n` pages from page
/// `first` for the user, one after the other.
pub open spec fn range_cost(m0: &PhysMemory, root: int, first: u64, n: int) -> int
    decreases n,
{
    if n <= 0 {
        0
    } else {
        range_cost(m0, root, first, n - 1) + page_cost(m0, root, first, n - 1)
    }
}

/// More pages take more frames.
pub proof fn lemma_range_cost_grows(m0: &PhysMemory, root: int, first: u64, k: int, n: int)
    requires
        0 <= k <= n,
    ensures
        0 <= range_cost(m0, root, first, k) <= range_cost(m0, root, first, n),
        k < n ==> range_cost(m0, root, first, k) < range_cost(m0, root, first, n),
    decreases n,
{
    if k < n {
        lemma_range_cost_grows(m0, root, first, k, n - 1);
    } else if n > 0 {
        lemma_range_cost_grows(m0, root, first, n - 1, n - 1);
    }
}

/// Each page takes one frame for itself and at most two for its tables.
pub proof fn lemma_range_cost_bounds(m0: &PhysMemory, root: int, first: u64, n: int)
    requires
        0 <= n,
    ensures
        n <= range_cost(m0, root, first, n) <= 3 * n,
    decreases n,
{
    if n > 0 {
        lemma_range_cost_bounds(m0, root, first, n - 1);
    }
}

/// A page that lies between two pages of one table lies in that table.
pub proof fn lemma_pages_between(prev: u64, cur: u64, w: u64)
    requires
        prev <= cur <= w < VPN_LIMIT,
    ensures
        same_block(w, prev) ==> same_block(w, cur),
        same_top(w, prev) ==> same_top(w, cur),
{
    reveal(vpn_indexes);
    assert(prev / 0x4_0000 <= cur / 0x4_0000 <= w / 0x4_0000 < 512);
    assert(prev / 512 <= cur / 512 <= w / 512);
    assert(w / 512 == (w / 0x4_0000) * 512 + (w / 512) % 512) by (bit_vector);
    assert(prev / 512 == (prev / 0x4_0000) * 512 + (prev / 512) % 512) by (bit_vector);
    assert(cur / 512 == (cur / 0x4_0000) * 512 + (cur / 512) % 512) by (bit_vector);
}

/// What is known of the tables that are missing while a range is mapped
/// page by page carries over the next page.
pub proof fn lemma_missing_in_progress_step(
    m0: &PhysMemory,
    m1: &PhysMemory,
    m2: &PhysMemory,
    root: int,
    first: u64,
    done: int,
)
    requires
        0 <= done,
        first + done < VPN_LIMIT,
        forall|w: u64|
            first + done <= w < VPN_LIMIT ==> #[trigger] missing_tables(m1, root, w)
                == missing_in_progress(m0, root, first, done, w),
        forall|v: u64|
            #![trigger missing_tables(m2, root, v)]
            missing_tables(m2, root, v) == missing_after_create(
                m1,
                root,
                (first + done) as u64,
                v,
            ),
    ensures
        forall|w: u64|
            first + done + 1 <= w < VPN_LIMIT ==> #[trigger] missing_tables(m2, root, w)
                == missing_in_progress(m0, root, first, done + 1, w),
{
    let cur = (first + done) as u64;
    assert forall|w: u64| first + done + 1 <= w < VPN_LIMIT implies #[trigger] missing_tables(
        m2,
        root,
        w,
    ) == missing_in_progress(m0, root, first, done + 1, w) by {
        assert(missing_tables(m1, root, w) == missing_in_progress(m0, root, first, done, w));
        if done > 0 {
            lemma_pages_between((first + done - 1) as u64, cur, w);
        }
    }
}

/// A range of mapped pages stays as it is when a further page could not be
/// mapped.
pub proof fn lemma_mapped_range_after_failure(
    pt0: &PageTable,
    pt1: &PageTable,
    pt2: &PageTable,
    m0: &PhysMemory,
    m1: &PhysMemory,
    m2: &PhysMemory,
    first: u64,
    count: int,
    flags: u8,
)
    requires
        0 <= count,
        first + count < VPN_LIMIT,
        pt1.root() == pt0.root(),
        pt1.inv(m1),
        pt2.inv(m2),
        mapped_range(pt1, pt0, m0, m1, first, count, flags),
        pt2.failed_to_map(pt1, m1, m2, (first + count) as u64),
    ensures
        mapped_range(pt2, pt0, m0, m2, first, count, flags),
{
    let root = pt0.root();
    assert forall|v: u64| #![trigger lookup(m2, root, v)] lookup(m2, root, v) == lookup(m1, root, v) by {}
    assert forall|v: u64| #![trigger is_mapped(m2, root, v)] first <= v < first + count implies {
        &&& is_mapped(m2, root, v)
        &&& frame_of(m2, root, v) == frame_of(m1, root, v)
        &&& lookup(m2, root, v) == lookup(m1, root, v)
    } by {
        assert(is_mapped(m1, root, v));
        assert(lookup(m2, root, v) == lookup(m1, root, v));
    }
    assert forall|v: u64, i: int|
        #![trigger m2.word(frame_of(m2, root, v), i)]
        first <= v < first + count && 0 <= i < 512 implies m2.word(frame_of(m2, root, v), i)
        == 0 by {
        assert(is_mapped(m1, root, v));
        assert(lookup(m2, root, v) == lookup(m1, root, v));
        let d = frame_of(m1, root, v);
        pt1.lemma_owned_data_frames_are_allocated(m1, d);
        m1.lemma_allocated_is_contained(d);
        pt2.lemma_owned_data_frames_are_allocated(m2, d);
        assert(m1.word(d, i) == 0);
        assert(m2.word(d, i) == m1.word(d, i));
    }
    assert forall|v: u64, w: u64|
        #![trigger frame_of(m2, root, v), frame_of(m2, root, w)]
        first <= v < w < first + count implies frame_of(m2, root, v) != frame_of(m2, root, w) by {
        assert(lookup(m2, root, v) == lookup(m1, root, v));
        assert(lookup(m2, root, w) == lookup(m1, root, w));
        assert(frame_of(m1, root, v) != frame_of(m1, root, w));
    }
    assert forall|v: u64|
        #![trigger lookup(m2, root, v)]
        v < VPN_LIMIT && !(first <= v < first + count) implies lookup(m2, root, v) == lookup(
        m0,
        root,
        v,
    ) by {
        assert(lookup(m1, root, v) == lookup(m0, root, v));
    }
}

/// A range of mapped pages grows by the page behind it when that page has
/// been mapped for the user.
pub proof fn lemma_mapped_range_extend(
    pt0: &PageTable,
    pt1: &PageTable,
    pt2: &PageTable,
    m0: &PhysMemory,
    m1: &PhysMemory,
    m2: &PhysMemory,
    first: u64,
    count: int,
    flags: PTEFlags,
)
    requires
        0 <= count,
        first + count < VPN_LIMIT,
        pt1.root() == pt0.root(),
        pt1.inv(m1),
        pt2.inv(m2),
        mapped_range(pt1, pt0, m0, m1, first, count, flags.bits),
        forall|p: int|
            pt0.owned_data_frames().contains(p) ==> #[trigger] pt1.owned_data_frames().contains(p),
        forall|p: int| m0.is_allocated(p) ==> #[trigger] m1.is_allocated(p),
        !is_mapped(m1, pt0.root(), (first + count) as u64),
        pt2.mapped_user_page(pt1, m1, m2, (first + count) as u64, flags),
    ensures
        mapped_range(pt2, pt0, m0, m2, first, count + 1, flags.bits),
        forall|p: int|
            pt0.owned_data_frames().contains(p) ==> #[trigger] pt2.owned_data_frames().contains(p),
        forall|p: int| m0.is_allocated(p) ==> #[trigger] m2.is_allocated(p),
{
    let root = pt0.root();
    let vpn = (first + count) as u64;
    let f = flags.bits;
    let entry = lookup(m2, root, vpn).unwrap();
    let d = entry.spec_ppn().0 as int;
    assert forall|v: u64| v < VPN_LIMIT && v != vpn implies !same_indexes(v, vpn) by {
        if same_indexes(v, vpn) {
            lemma_vpn_indexes_injective(v, vpn);
        }
    }
    assert forall|v: u64|
        #![trigger lookup(m2, root, v)]
        v < VPN_LIMIT && v != vpn implies lookup(m2, root, v) == lookup(m1, root, v) by {}
    assert(lookup(m1, root, vpn) == lookup(m0, root, vpn));
    assert(!pt1.owned_data_frames().contains(d)) by {
        if pt1.owned_data_frames().contains(d) {
            pt1.lemma_owned_data_frames_are_allocated(m1, d);
        }
    }
    assert forall|v: u64| #![trigger is_mapped(m2, root, v)] first <= v < first + count + 1 implies {
        &&& is_mapped(m2, root, v)
        &&& !is_mapped(m0, root, v)
        &&& lookup(m2, root, v).unwrap().spec_flags().bits == f | PTEFlags::V | PTEFlags::U
        &&& pt2.owned_data_frames().contains(frame_of(m2, root, v))
        &&& !pt0.owned_data_frames().contains(frame_of(m2, root, v))
        &&& !m0.is_allocated(frame_of(m2, root, v))
    } by {
        if v < first + count {
            assert(is_mapped(m1, root, v));
            assert(lookup(m2, root, v) == lookup(m1, root, v));
            assert(pt1.owned_data_frames().contains(frame_of(m1, root, v)));
        } else {
            assert(v == vpn);
        }
    }
    assert forall|v: u64, i: int|
        #![trigger m2.word(frame_of(m2, root, v), i)]
        first <= v < first + count + 1 && 0 <= i < 512 implies m2.word(frame_of(m2, root, v), i)
        == 0 by {
        if v < first + count {
            assert(is_mapped(m1, root, v));
            assert(lookup(m2, root, v) == lookup(m1, root, v));
            let dv = frame_of(m1, root, v);
            pt1.lemma_owned_data_frames_are_allocated(m1, dv);
            m1.lemma_allocated_is_contained(dv);
            assert(pt2.owned_data_frames().contains(dv));
            pt2.lemma_owned_data_frames_are_allocated(m2, dv);
            assert(m1.word(dv, i) == 0);
            assert(m2.word(dv, i) == m1.word(dv, i));
        } else {
            assert(v == vpn);
        }
    }
    assert forall|v: u64, w: u64|
        #![trigger frame_of(m2, root, v), frame_of(m2, root, w)]
        first <= v < w < first + count + 1 implies frame_of(m2, root, v) != frame_of(
        m2,
        root,
        w,
    ) by {
        assert(is_mapped(m1, root, v));
        assert(lookup(m2, root, v) == lookup(m1, root, v));
        let dv = frame_of(m1, root, v);
        pt1.lemma_owned_data_frames_are_allocated(m1, dv);
        if w < first + count {
            assert(is_mapped(m1, root, w));
            assert(lookup(m2, root, w) == lookup(m1, root, w));
            assert(frame_of(m1, root, v) != frame_of(m1, root, w));
        } else {
            assert(w == vpn);
        }
    }
    assert forall|v: u64|
        #![trigger lookup(m2, root, v)]
        v < VPN_LIMIT && !(first <= v < first + (count + 1)) implies lookup(m2, root, v) == lookup(
        m0,
        root,
        v,
    ) by {
        assert(lookup(m2, root, v) == lookup(m1, root, v));
        assert(lookup(m1, root, v) == lookup(m0, root, v));
    }
}

/// A range of unmapped pages stays as it is when a further page was not
/// mapped and nothing has changed.
pub proof fn lemma_unmapped_range_after_failure(
    root: int,
    m0: &PhysMemory,
    m1: &PhysMemory,
    m2: &PhysMemory,
    first: u64,
    count: int,
)
    requires
        unmapped_range(root, m0, m1, first, count),
        same_mappings(m1, m2, root),
    ensures
        unmapped_range(root, m0, m2, first, count),
{
    assert forall|v: u64| #![trigger is_mapped(m0, root, v)] first <= v < first + count implies !is_mapped(
        m2,
        root,
        v,
    ) by {
        assert(lookup(m2, root, v) == lookup(m1, root, v));
    }
    assert forall|v: u64|
        #![trigger lookup(m2, root, v)]
        v < VPN_LIMIT && !(first <= v < first + count) implies lookup(m2, root, v) == lookup(
        m0,
        root,
        v,
    ) by {
        assert(lookup(m1, root, v) == lookup(m0, root, v));
    }
}

/// A range of unmapped pages grows by the page behind it when that page,
/// which was mapped, has been unmapped.
pub proof fn lemma_unmapped_range_extend(
    pt: &PageTable,
    root: int,
    m0: &PhysMemory,
    m1: &PhysMemory,
    m2: &PhysMemory,
    first: u64,
    count: int,
)
    requires
        0 <= count,
        first + count < VPN_LIMIT,
        pt.root() == root,
        unmapped_range(root, m0, m1, first, count),
        is_mapped(m1, root, (first + count) as u64),
        pt.unmapped_page(m1, m2, (first + count) as u64),
    ensures
        unmapped_range(root, m0, m2, first, count + 1),
{
    let vpn = (first + count) as u64;
    assert forall|v: u64| v < VPN_LIMIT && v != vpn implies !same_indexes(v, vpn) by {
        if same_indexes(v, vpn) {
            lemma_vpn_indexes_injective(v, vpn);
        }
    }
    assert(lookup(m1, root, vpn) == lookup(m0, root, vpn));
    assert forall|v: u64|
        #![trigger is_mapped(m0, root, v)]
        first <= v < first + count + 1 implies is_mapped(m0, root, v) && !is_mapped(m2, root, v) by {
        assert(lookup(m2, root, v) == lookup(m2, root, v));
        if v < first + count {
            assert(lookup(m1, root, v) is None);
        } else {
            assert(v == vpn);
        }
    }
    assert forall|v: u64|
        #![trigger lookup(m2, root, v)]
        v < VPN_LIMIT && !(first <= v < first + (count + 1)) implies lookup(m2, root, v) == lookup(
        m0,
        root,
        v,
    ) by {
        assert(lookup(m1, root, v) == lookup(m0, root, v));
    }
}

/// The number of pages that `len` bytes take.
pub open spec fn pages_of(len: u64) -> int {
    (len + 4095) / 4096
}

/// Maps the pages of the `len` bytes from the address `start` for the
/// user, each to a new frame filled with zeros, with the flags that `port`
/// names: `port` shifted left by one bit, cut to eight bits. Returns 0
/// when all pages are mapped. Returns -1 at the first page that is mapped
/// already or for which the free frames do not suffice; the pages before
/// it stay mapped.
pub fn map_with_len(page_table: &mut PageTable, m: &mut PhysMemory, start: u64, len: u64, port: usize) -> (r:
    isize)
    requires
        old(page_table).inv(old(m)),
        start % 4096 == 0,
        start + len <= 0x80_0000_0000,
    ensures
        final(page_table).inv(final(m)),
        final(page_table).root() == old(page_table).root(),
        final(m).base_ppn() == old(m).base_ppn(),
        final(m).end_ppn() == old(m).end_ppn(),
        kept_to_itself(final(page_table), old(page_table), old(m), final(m)),
        r == 0 || r == -1,
        mapped_pages(
            final(page_table),
            old(page_table),
            old(m),
            final(m),
            start / 4096,
            pages_of(len),
            port_flags(port),
            r,
        ),
{
    let ghost root = page_table.root();
    let ghost m0 = *m;
    let ghost first = start / 4096;
    let ghost f = port_flags(port);
    proof {
        m.lemma_next_frame();
        assert(mapped_range(page_table, page_table, m, m, first, 0, f));
        assert(kept_to_itself(page_table, page_table, m, m));
    }
    if len == 0 {
        return 0;
    }
    let page_num: u64 = (len + 4095) / 4096;
    let p = port << 1;
    let flags = PTEFlags::from_bits_truncate(p as u8);
    let mut i: u64 = 0;
    while i < page_num
        invariant
            i <= page_num,
            page_num == pages_of(len),
            start % 4096 == 0,
            start + len <= 0x80_0000_0000,
            first == start / 4096,
            first + page_num <= VPN_LIMIT,
            flags.bits == f,
            f == port_flags(port),
            root == old(page_table).root(),
            m0 == *old(m),
            page_table.inv(m),
            page_table.root() == root,
            m.base_ppn() == m0.base_ppn(),
            m.end_ppn() == m0.end_ppn(),
            mapped_range(page_table, old(page_table), &m0, m, first, i as int, f),
            kept_to_itself(page_table, old(page_table), &m0, m),
            forall|p: int|
                old(page_table).owned_data_frames().contains(p)
                    ==> #[trigger] page_table.owned_data_frames().contains(p),
            forall|p: int| m0.is_allocated(p) ==> #[trigger] m.is_allocated(p),
            m.free_frames() == m0.free_frames() - range_cost(&m0, root, first, i as int),
            forall|w: u64|
                first + i <= w < VPN_LIMIT ==> #[trigger] missing_tables(m, root, w)
                    == missing_in_progress(&m0, root, first, i as int, w),
        decreases page_num - i,
    {
        let va = VirtAddr::new(start + i * 4096);
        let vpn = va.floor();
        assert(vpn.0 == first + i);
        let ghost m1 = *m;
        let ghost pt1 = *page_table;
        proof {
            m.lemma_next_frame();
            assert(lookup(&m1, root, vpn.0) == lookup(&m0, root, vpn.0));
            assert(missing_tables(&m1, root, vpn.0) == page_cost(&m0, root, first, i as int) - 1);
            lemma_range_cost_grows(&m0, root, first, i as int + 1, page_num as int);
            lemma_range_cost_grows(&m0, root, first, i as int, i as int + 1);
        }
        if -1 == page_table.try_map_user(m, vpn, flags) {
            proof {
                m.lemma_next_frame();
                lemma_kept_to_itself_twice(old(page_table), &pt1, page_table, &m0, &m1, m);
                lemma_mapped_range_after_failure(
                    old(page_table),
                    &pt1,
                    page_table,
                    &m0,
                    &m1,
                    m,
                    first,
                    i as int,
                    f,
                );
                assert(failed_at(
                    page_table,
                    old(page_table),
                    &m0,
                    m,
                    first,
                    i as int,
                    f,
                ));
            }
            return -1;
        }
        proof {
            lemma_kept_to_itself_twice(old(page_table), &pt1, page_table, &m0, &m1, m);
            lemma_mapped_range_extend(
                old(page_table),
                &pt1,
                page_table,
                &m0,
                &m1,
                m,
                first,
                i as int,
                flags,
            );
            lemma_missing_in_progress_step(&m0, &m1, m, root, first, i as int);
        }
        i += 1;
    }
    proof {
        m.lemma_next_frame();
        assert forall|v: u64| first <= v < first + page_num implies !#[trigger] is_mapped(
            &m0,
            root,
            v,
        ) by {
            assert(is_mapped(m, root, v));
        }
    }
    0
}

/// Mapping stopped at the page `first + k`: the `k` pages before it are
/// mapped, for which the free frames sufficed, and the page itself was
/// mapped already, or the free frames did not suffice for it. In the first
/// case the free frames are those that the pages before have left, in the
/// second none is left.
pub open spec fn failed_at(
    pt: &PageTable,
    before: &PageTable,
    m0: &PhysMemory,
    m: &PhysMemory,
    first: u64,
    k: int,
    flags: u8,
) -> bool {
    &&& mapped_range(pt, before, m0, m, first, k, flags)
    &&& m0.free_frames() >= range_cost(m0, before.root(), first, k)
    &&& (is_mapped(m0, before.root(), (first + k) as u64) || m0.free_frames() < range_cost(
        m0,
        before.root(),
        first,
        k + 1,
    ))
    &&& m.free_frames() == if is_mapped(m0, before.root(), (first + k) as u64) {
        m0.free_frames() - range_cost(m0, before.root(), first, k)
    } else {
        0
    }
}

/// What `map_with_len` has done to the `count` pages from page `first`,
/// `r` being its result. The result is 0 exactly when none of the pages
/// was mapped and the free frames sufficed for all of them; then all are
/// mapped, and the frames they took are no longer free. Otherwise mapping
/// stopped at the first page that was mapped already or for which the free
/// frames did not suffice.
pub open spec fn mapped_pages(
    pt: &PageTable,
    before: &PageTable,
    m0: &PhysMemory,
    m: &PhysMemory,
    first: u64,
    count: int,
    flags: u8,
    r: isize,
) -> bool {
    &&& r == 0 <==> (forall|v: u64|
        first <= v < first + count ==> !#[trigger] is_mapped(m0, before.root(), v))
        && m0.free_frames() >= range_cost(m0, before.root(), first, count)
    &&& r == 0 ==> mapped_range(pt, before, m0, m, first, count, flags) && m.free_frames()
        == m0.free_frames() - range_cost(m0, before.root(), first, count)
    &&& r != 0 ==> exists|k: int|
        0 <= k < count && #[trigger] failed_at(pt, before, m0, m, first, k, flags)
}

/// The flags that `port` names: `port` shifted left by one bit, cut to
/// eight bits.
pub open spec fn port_flags(port: usize) -> u8 {
    (port << 1) as u8
}

/// Unmaps the pages of the `len` bytes from the address `start`. Returns 0
/// when all were mapped and are unmapped now. Returns -1 at the first page
/// that is not mapped; the pages before it stay unmapped.
pub fn unmap_with_len(page_table: &mut PageTable, m: &mut PhysMemory, start: u64, len: u64) -> (r:
    isize)
    requires
        old(page_table).inv(old(m)),
        start % 4096 == 0,
        start + len <= 0x80_0000_0000,
    ensures
        final(page_table).inv(final(m)),
        final(page_table).root() == old(page_table).root(),
        final(page_table).owned_frames() == old(page_table).owned_frames(),
        final(page_table).owned_data_frames() == old(page_table).owned_data_frames(),
        final(m).same_allocation(old(m)),
        kept_to_itself(final(page_table), old(page_table), old(m), final(m)),
        r == if forall|v: u64|
            start / 4096 <= v < start / 4096 + pages_of(len) ==> #[trigger] is_mapped(
                old(m),
                old(page_table).root(),
                v,
            ) {
            0isize
        } else {
            -1isize
        },
        r == 0 ==> unmapped_range(
            old(page_table).root(),
            old(m),
            final(m),
            start / 4096,
            pages_of(len),
        ),
        r == -1 ==> exists|k: int|
            0 <= k < pages_of(len) && #[trigger] unmapped_range(
                old(page_table).root(),
                old(m),
                final(m),
                start / 4096,
                k,
            ) && !is_mapped(old(m), old(page_table).root(), (start / 4096 + k) as u64),
{
    let page_num: u64 = (len + 4095) / 4096;
    let ghost root = page_table.root();
    let ghost m0 = *m;
    let ghost first = start / 4096;
    let mut i: u64 = 0;
    proof {
        assert(kept_to_itself(page_table, page_table, m, m));
    }
    while i < page_num
        invariant
            i <= page_num,
            page_num == pages_of(len),
            start % 4096 == 0,
            start + len <= 0x80_0000_0000,
            first == start / 4096,
            first + page_num <= VPN_LIMIT,
            root == old(page_table).root(),
            m0 == *old(m),
            page_table.inv(m),
            page_table.root() == root,
            page_table.owned_frames() == old(page_table).owned_frames(),
            page_table.owned_data_frames() == old(page_table).owned_data_frames(),
            m.same_allocation(&m0),
            kept_to_itself(page_table, old(page_table), &m0, m),
            unmapped_range(root, &m0, m, first, i as int),
        decreases page_num - i,
    {
        let va = VirtAddr::new(start + i * 4096);
        let vpn = va.floor();
        assert(vpn.0 == first + i);
        let ghost m1 = *m;
        let ghost pt1 = *page_table;
        proof {
            assert(lookup(&m1, root, vpn.0) == lookup(&m0, root, vpn.0));
        }
        let unmapped = page_table.try_unmap(m, vpn);
        proof {
            lemma_kept_to_itself_twice(old(page_table), &pt1, page_table, &m0, &m1, m);
        }
        if -1 == unmapped {
            proof {
                lemma_unmapped_range_after_failure(root, &m0, &m1, m, first, i as int);
            }
            return -1;
        }
        proof {
            lemma_unmapped_range_extend(page_table, root, &m0, &m1, m, first, i as int);
        }
        i += 1;
    }
    0
}

/// The number of pages that the `len` bytes from the address `ptr` touch.
pub open spec fn buffer_page_count(ptr: u64, len: u64) -> int {
    if len == 0 {
        0
    } else {
        (ptr + len - 1) / 4096 - ptr / 4096 + 1
    }
}

/// The piece of the `len` bytes from the virtual address `ptr` that lies
/// in the `k`-th page they touch: the frame that the page is mapped to, and
/// the offsets in it at which the piece begins and ends.
pub open spec fn buffer_slice(m: &PhysMemory, root: int, ptr: u64, len: u64, k: int) -> FrameSlice {
    FrameSlice {
        ppn: lookup(m, root, (ptr / 4096 + k) as u64).unwrap().spec_ppn(),
        start: if k == 0 {
            (ptr % 4096) as usize
        } else {
            0
        },
        end: if k == buffer_page_count(ptr, len) - 1 {
            ((ptr + len - 1) % 4096 + 1) as usize
        } else {
            4096
        },
    }
}

/// The pieces of the `len` bytes from the virtual address `ptr`, page by
/// page.
pub open spec fn buffer_slices(m: &PhysMemory, root: int, ptr: u64, len: u64) -> Seq<FrameSlice> {
    Seq::new(buffer_page_count(ptr, len) as nat, |k: int| buffer_slice(m, root, ptr, len, k))
}

/// The pieces, frame by frame, of the `len` bytes from the virtual address
/// `ptr` in the address space that `token` names. The buffer must lie in
/// the address space, and each of its pages must be mapped.
pub fn translated_byte_buffer(m: &PhysMemory, token: u64, ptr: u64, len: u64) -> (v: Vec<FrameSlice>)
    requires
        walkable(m, token_root(token)),
        ptr + len <= 0x80_0000_0000,
        forall|p: u64|
            ptr / 4096 <= p < ptr / 4096 + buffer_page_count(ptr, len) ==> #[trigger] is_mapped(
                m,
                token_root(token),
                p,
            ),
    ensures
        v@ == buffer_slices(m, token_root(token), ptr, len),
        v@.len() == buffer_page_count(ptr, len),
        forall|k: int|
            0 <= k < v@.len() ==> #[trigger] v@[k] == buffer_slice(
                m,
                token_root(token),
                ptr,
                len,
                k,
            ),
        forall|k: int| 0 <= k < v@.len() ==> (#[trigger] v@[k]).start < v@[k].end <= 4096,
        crate::mm::frame_allocator::slices_len(v@) == len,
{
    let page_table = PageTable::from_token(token);
    let ghost root = token_root(token);
    let mut start = ptr;
    let end = start + len;
    let mut v: Vec<FrameSlice> = Vec::new();
    let ghost count = buffer_page_count(ptr, len);
    while start < end
        invariant
            page_table.root() == root,
            walkable(m, root),
            end == ptr + len,
            ptr + len <= 0x80_0000_0000,
            count == buffer_page_count(ptr, len),
            ptr <= start <= end,
            v@.len() <= count,
            v@.len() == 0 ==> start == ptr,
            v@.len() > 0 ==> start == (ptr / 4096 + v@.len()) * 4096 || start == end,
            start < end ==> start / 4096 == ptr / 4096 + v@.len(),
            start == end ==> v@.len() == count,
            forall|p: u64|
                ptr / 4096 <= p < ptr / 4096 + count ==> #[trigger] is_mapped(m, root, p),
            forall|k: int|
                0 <= k < v@.len() ==> #[trigger] v@[k] == buffer_slice(m, root, ptr, len, k),
            forall|k: int| 0 <= k < v@.len() ==> (#[trigger] v@[k]).start < v@[k].end <= 4096,
            crate::mm::frame_allocator::slices_len(v@) == start - ptr,
        decreases end - start,
    {
        let start_va = VirtAddr::new(start);
        let mut vpn = start_va.floor();
        proof {
            assert(vpn.0 == ptr / 4096 + v@.len());
            assert(is_mapped(m, root, vpn.0));
        }
        let ppn = page_table.translate(m, vpn).unwrap().ppn();
        vpn.step();
        let mut end_va = VirtAddr::from_vpn(vpn);
        let limit = VirtAddr(end);
        if limit.0 < end_va.0 {
            end_va = limit;
        }
        let slice = if end_va.page_offset() == 0 {
            FrameSlice { ppn, start: start_va.page_offset() as usize, end: 4096 }
        } else {
            FrameSlice {
                ppn,
                start: start_va.page_offset() as usize,
                end: end_va.page_offset() as usize,
            }
        };
        proof {
            let k = v@.len() as int;
            assert(slice == buffer_slice(m, root, ptr, len, k));
            assert(v@.push(slice).drop_last() =~= v@);
            assert(slice.end - slice.start == end_va.0 - start);
        }
        v.push(slice);
        start = end_va.0;
    }
    assert(v@ =~= buffer_slices(m, root, ptr, len));
    v
}

} // verus!
