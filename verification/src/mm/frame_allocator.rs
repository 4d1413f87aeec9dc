//! Physical memory: an arena of frames and the allocator that hands them
//! out.
//!
//! A frame is 4 KiB, held as 512 words of 64 bits; byte `k` of a word is
//! its bits `8k` to `8k + 7`. Frames are handed out from a mark that
//! descends from the top of the arena; a frame that is given back goes on
//! a stack and is handed out again before the mark moves on.

use crate::mm::address::PhysPageNum;
use crate::mm::address::PPN_LIMIT;
use vstd::prelude::*;

verus! {

/// The ownership of one physical frame.
#[derive(Debug)]
pub struct FrameTracker {
    pub ppn: PhysPageNum,
}

/// Byte `k` of the word `w`.
pub open spec fn word_byte(w: u64, k: u64) -> u8 {
    ((w >> (8 * k)) & 0xff) as u8
}

/// The word `w` with its byte `k` replaced by `b`.
pub open spec fn word_with_byte(w: u64, k: u64, b: u8) -> u64 {
    (w & !(0xffu64 << (8 * k))) | ((b as u64) << (8 * k))
}

/// Replacing a byte of a word changes that byte and no other.
pub proof fn lemma_word_with_byte(w: u64, k: u64, b: u8, j: u64)
    requires
        k < 8,
        j < 8,
    ensures
        word_byte(word_with_byte(w, k, b), j) == if j == k {
            b
        } else {
            word_byte(w, j)
        },
        word_byte(0, j) == 0,
{
    assert(((((w & !(0xffu64 << (8 * k))) | ((b as u64) << (8 * k))) >> (8 * j)) & 0xff) as u8
        == if j == k {
        b
    } else {
        ((w >> (8 * j)) & 0xff) as u8
    }) by (bit_vector)
        requires
            k < 8,
            j < 8,
    ;
    assert(((0u64 >> (8 * j)) & 0xff) as u8 == 0) by (bit_vector)
        requires
            j < 8,
    ;
}

/// The physical memory of the machine with its frame allocator.
pub struct PhysMemory {
    base: u64,
    end: u64,
    words: Vec<u64>,
    current: u64,
    recycled: Vec<u64>,
}

impl PhysMemory {
    /// The number of the first frame of the arena.
    pub closed spec fn base_ppn(&self) -> int {
        self.base as int
    }

    /// One more than the number of the last frame of the arena.
    pub closed spec fn end_ppn(&self) -> int {
        self.end as int
    }

    /// Frame `ppn` is a frame of the arena.
    pub open spec fn contains(&self, ppn: int) -> bool {
        self.base_ppn() <= ppn < self.end_ppn()
    }

    /// The arena is consistent.
    pub closed spec fn wf(&self) -> bool {
        &&& self.base <= self.current <= self.end
        &&& self.end <= PPN_LIMIT
        &&& self.words@.len() == (self.end - self.base) * 512
        &&& forall|k: int|
            0 <= k < self.recycled@.len() ==> self.current <= #[trigger] self.recycled@[k]
                < self.end
        &&& forall|k: int, l: int|
            0 <= k < l < self.recycled@.len() ==> #[trigger] self.recycled@[k]
                != #[trigger] self.recycled@[l]
    }

    /// Frame `ppn` is handed out.
    pub closed spec fn is_allocated(&self, ppn: int) -> bool {
        &&& self.current <= ppn < self.end
        &&& forall|k: int| 0 <= k < self.recycled@.len() ==> #[trigger] self.recycled@[k] != ppn
    }

    /// The number of frames that can still be handed out.
    pub closed spec fn free_frames(&self) -> int {
        self.recycled@.len() + (self.current - self.base)
    }

    /// The frame that is handed out next: the one given back last, or else
    /// the one below the mark.
    pub closed spec fn next_frame(&self) -> Option<int> {
        if self.recycled@.len() > 0 {
            Some(self.recycled@.last() as int)
        } else if self.current > self.base {
            Some(self.current - 1)
        } else {
            None
        }
    }

    /// Word `idx` of frame `ppn`.
    pub closed spec fn word(&self, ppn: int, idx: int) -> u64 {
        self.words@[(ppn - self.base) * 512 + idx]
    }

    /// Byte `off` of frame `ppn`.
    pub open spec fn byte(&self, ppn: int, off: int) -> u8 {
        word_byte(self.word(ppn, off / 8), (off % 8) as u64)
    }

    /// The two memories have the same frames in the same state of
    /// allocation.
    pub open spec fn same_allocation(&self, other: &PhysMemory) -> bool {
        &&& self.base_ppn() == other.base_ppn()
        &&& self.end_ppn() == other.end_ppn()
        &&& self.free_frames() == other.free_frames()
        &&& self.next_frame() == other.next_frame()
        &&& forall|p: int| #[trigger] self.is_allocated(p) == other.is_allocated(p)
    }

    /// A frame that is handed out is a frame of the arena, and its number
    /// is below `PPN_LIMIT`.
    pub proof fn lemma_allocated_is_contained(&self, ppn: int)
        requires
            self.wf(),
            self.is_allocated(ppn) || self.contains(ppn),
        ensures
            self.contains(ppn),
            0 <= ppn < PPN_LIMIT,
    {
    }

    /// The frame handed out next is free, and there is one exactly when
    /// a frame is left.
    pub proof fn lemma_next_frame(&self)
        requires
            self.wf(),
        ensures
            0 <= self.free_frames(),
            self.next_frame() is Some <==> self.free_frames() > 0,
            self.next_frame() matches Some(p) ==> self.contains(p) && !self.is_allocated(p),
    {
        if self.recycled@.len() > 0 {
            let k = self.recycled@.len() - 1;
            assert(self.recycled@[k] == self.recycled@.last());
        }
    }

    /// An arena of `frame_count` frames that begins at frame `base`. All
    /// frames are free and filled with zeros.
    pub fn new(base: PhysPageNum, frame_count: usize) -> (m: Self)
        requires
            base.0 + frame_count <= PPN_LIMIT,
            frame_count * 512 <= usize::MAX,
        ensures
            m.wf(),
            m.base_ppn() == base.0,
            m.end_ppn() == base.0 + frame_count,
            m.free_frames() == frame_count,
            forall|p: int| !m.is_allocated(p),
            forall|p: int, i: int|
                m.contains(p) && 0 <= i < 512 ==> #[trigger] m.word(p, i) == 0,
    {
        let end = base.0 + frame_count as u64;
        let m = PhysMemory {
            base: base.0,
            end,
            words: vec![0u64; frame_count * 512],
            current: end,
            recycled: Vec::new(),
        };
        assert forall|p: int, i: int| m.contains(p) && 0 <= i < 512 implies #[trigger] m.word(
            p,
            i,
        ) == 0 by {
            assert(0 <= (p - m.base) * 512 + i < m.words@.len());
        }
        m
    }

    /// Whether frame `ppn` belongs to the arena.
    pub fn has_frame(&self, ppn: PhysPageNum) -> (r: bool)
        ensures
            r == self.contains(ppn.0 as int),
    {
        self.base <= ppn.0 && ppn.0 < self.end
    }

    /// Whether a frame is left to hand out.
    pub fn has_free_frame(&self) -> (r: bool)
        requires
            self.wf(),
        ensures
            r == (self.free_frames() > 0),
            !r ==> self.free_frames() == 0,
    {
        self.recycled.len() > 0 || self.current > self.base
    }

    /// Hands out a frame, filled with zeros: the frame that was given back
    /// last, or else the frame below the mark. There is none when every
    /// frame of the arena is handed out.
    pub fn frame_alloc(&mut self) -> (r: Option<FrameTracker>)
        requires
            old(self).wf(),
        ensures
            final(self).wf(),
            final(self).base_ppn() == old(self).base_ppn(),
            final(self).end_ppn() == old(self).end_ppn(),
            r is Some <==> old(self).free_frames() > 0,
            r is None ==> final(self).same_allocation(old(self)) && forall|p: int, i: int|
                #![trigger final(self).word(p, i)]
                final(self).word(p, i) == old(self).word(p, i),
            r matches Some(frame) ==> {
                &&& old(self).next_frame() == Some(frame.ppn.0 as int)
                &&& old(self).contains(frame.ppn.0 as int)
                &&& !old(self).is_allocated(frame.ppn.0 as int)
                &&& final(self).is_allocated(frame.ppn.0 as int)
                &&& final(self).free_frames() == old(self).free_frames() - 1
                &&& forall|p: int|
                    p != frame.ppn.0 ==> #[trigger] final(self).is_allocated(p) == old(self).is_allocated(p)
                &&& forall|i: int|
                    0 <= i < 512 ==> #[trigger] final(self).word(frame.ppn.0 as int, i) == 0
                &&& forall|p: int, i: int|
                    #![trigger final(self).word(p, i)]
                    old(self).contains(p) && p != frame.ppn.0 && 0 <= i < 512 ==> final(self).word(p, i) == old(self).word(p, i)
            },
    {
        proof {
            self.lemma_next_frame();
        }
        let ghost before = *self;
        let ppn = match self.recycled.pop() {
            Some(ppn) => ppn,
            None => {
                if self.current == self.base {
                    assert(self.same_allocation(&before));
                    return None;
                }
                self.current -= 1;
                self.current
            },
        };
        assert(self.wf());
        assert(self.is_allocated(ppn as int));
        assert forall|p: int| p != ppn implies #[trigger] self.is_allocated(p)
            == before.is_allocated(p) by {
            if before.recycled@.len() > 0 {
                if before.is_allocated(p) {
                    assert(self.is_allocated(p));
                } else if before.current <= p < before.end {
                    let k = choose|k: int|
                        0 <= k < before.recycled@.len() && before.recycled@[k] == p;
                    assert(self.recycled@[k] == p);
                }
            }
        }
        assert(self.free_frames() == before.free_frames() - 1);
        let ghost after = *self;
        let start = self.word_index(PhysPageNum(ppn), 0);
        let mut i: usize = 0;
        while i < 512
            invariant
                i <= 512,
                self.wf(),
                self.base == before.base,
                self.end == before.end,
                self.current <= ppn < self.end,
                start == (ppn - self.base) * 512,
                self.words@.len() == before.words@.len(),
                forall|k: int| 0 <= k < i ==> #[trigger] self.words@[start + k] == 0,
                forall|k: int|
                    0 <= k < self.words@.len() && !(start <= k < start + 512)
                        ==> #[trigger] self.words@[k] == before.words@[k],
                self.recycled@ == after.recycled@,
                self.current == after.current,
            decreases 512 - i,
        {
            self.words[start + i] = 0;
            i += 1;
        }
        assert forall|p: int| #[trigger] self.is_allocated(p) == after.is_allocated(p) by {}
        assert forall|i: int| 0 <= i < 512 implies #[trigger] self.word(ppn as int, i) == 0 by {
            assert(self.words@[start + i] == 0);
        }
        assert forall|p: int, i: int|
            #![trigger self.word(p, i)]
            before.contains(p) && p != ppn && 0 <= i < 512 implies self.word(p, i) == before.word(
            p,
            i,
        ) by {
            let k = (p - self.base) * 512 + i;
            assert(!(start <= k < start + 512));
            assert(self.words@[k] == before.words@[k]);
        }
        Some(FrameTracker { ppn: PhysPageNum(ppn) })
    }

    /// Takes frame `ppn`, which is handed out, back. It is the frame
    /// handed out next.
    pub fn frame_dealloc(&mut self, ppn: PhysPageNum)
        requires
            old(self).wf(),
            old(self).is_allocated(ppn.0 as int),
        ensures
            final(self).wf(),
            final(self).base_ppn() == old(self).base_ppn(),
            final(self).end_ppn() == old(self).end_ppn(),
            !final(self).is_allocated(ppn.0 as int),
            final(self).next_frame() == Some(ppn.0 as int),
            final(self).free_frames() == old(self).free_frames() + 1,
            forall|p: int|
                p != ppn.0 ==> #[trigger] final(self).is_allocated(p) == old(self).is_allocated(p),
            forall|p: int, i: int|
                #![trigger final(self).word(p, i)]
                final(self).word(p, i) == old(self).word(p, i),
    {
        let ghost before = *self;
        self.recycled.push(ppn.0);
        assert(self.recycled@[self.recycled@.len() - 1] == ppn.0);
        assert forall|p: int| p != ppn.0 implies #[trigger] self.is_allocated(p)
            == before.is_allocated(p) by {
            if self.is_allocated(p) {
                assert forall|k: int| 0 <= k < before.recycled@.len() implies before.recycled@[k]
                    != p by {
                    assert(self.recycled@[k] == before.recycled@[k]);
                }
            }
        }
    }

    fn word_index(&self, ppn: PhysPageNum, idx: usize) -> (k: usize)
        requires
            self.wf(),
            self.contains(ppn.0 as int),
            idx < 512,
        ensures
            k == (ppn.0 - self.base) * 512 + idx,
            k < self.words@.len(),
    {
        let n = self.words.len();
        let frame = ppn.0 - self.base;
        assert(frame * 512 + idx < n);
        (frame as usize) * 512 + idx
    }

    /// Reads word `idx` of frame `ppn`.
    pub fn read_word(&self, ppn: PhysPageNum, idx: usize) -> (r: u64)
        requires
            self.wf(),
            self.contains(ppn.0 as int),
            idx < 512,
        ensures
            r == self.word(ppn.0 as int, idx as int),
    {
        let k = self.word_index(ppn, idx);
        self.words[k]
    }

    /// Writes `value` to word `idx` of frame `ppn`.
    pub fn write_word(&mut self, ppn: PhysPageNum, idx: usize, value: u64)
        requires
            old(self).wf(),
            old(self).contains(ppn.0 as int),
            idx < 512,
        ensures
            final(self).wf(),
            final(self).same_allocation(old(self)),
            final(self).word(ppn.0 as int, idx as int) == value,
            forall|p: int, i: int|
                #![trigger final(self).word(p, i)]
                old(self).contains(p) && 0 <= i < 512 && !(p == ppn.0 && i == idx) ==> final(self).word(p, i) == old(self).word(p, i),
    {
        let ghost before = *self;
        let k = self.word_index(ppn, idx);
        self.words[k] = value;
        assert forall|p: int, i: int|
            #![trigger self.word(p, i)]
            before.contains(p) && 0 <= i < 512 && !(p == ppn.0 && i == idx) implies self.word(p, i)
            == before.word(p, i) by {
            assert((p - self.base) * 512 + i != k);
        }
        assert(self.recycled@ == before.recycled@ && self.current == before.current && self.end
            == before.end);
        assert forall|p: int| #[trigger] self.is_allocated(p) == before.is_allocated(p) by {
            if before.is_allocated(p) {
                assert(self.is_allocated(p));
            }
            if self.is_allocated(p) {
                assert(before.is_allocated(p));
            }
        }
    }

    /// Reads byte `off` of frame `ppn`.
    pub fn read_byte(&self, ppn: PhysPageNum, off: usize) -> (r: u8)
        requires
            self.wf(),
            self.contains(ppn.0 as int),
            off < 4096,
        ensures
            r == self.byte(ppn.0 as int, off as int),
    {
        let w = self.read_word(ppn, off / 8);
        let k = (off % 8) as u64;
        assert(8 * k < 64);
        ((w >> (8 * k)) & 0xff) as u8
    }

    /// Writes `value` to byte `off` of frame `ppn`.
    pub fn write_byte(&mut self, ppn: PhysPageNum, off: usize, value: u8)
        requires
            old(self).wf(),
            old(self).contains(ppn.0 as int),
            off < 4096,
        ensures
            final(self).wf(),
            final(self).same_allocation(old(self)),
            final(self).byte(ppn.0 as int, off as int) == value,
            forall|p: int, o: int|
                #![trigger final(self).byte(p, o)]
                old(self).contains(p) && 0 <= o < 4096 && !(p == ppn.0 && o == off) ==> final(self).byte(p, o) == old(self).byte(p, o),
            forall|p: int, i: int|
                #![trigger final(self).word(p, i)]
                old(self).contains(p) && 0 <= i < 512 && !(p == ppn.0 && i == off / 8) ==> final(self).word(p, i) == old(self).word(p, i),
    {
        let ghost before = *self;
        let w = self.read_word(ppn, off / 8);
        let k = (off % 8) as u64;
        assert(8 * k < 64);
        let updated = (w & !(0xffu64 << (8 * k))) | ((value as u64) << (8 * k));
        self.write_word(ppn, off / 8, updated);
        proof {
            lemma_word_with_byte(w, k, value, k);
            assert forall|p: int, o: int|
                #![trigger self.byte(p, o)]
                before.contains(p) && 0 <= o < 4096 && !(p == ppn.0 && o == off) implies self.byte(
                p,
                o,
            ) == before.byte(p, o) by {
                if p == ppn.0 && o / 8 == off / 8 {
                    lemma_word_with_byte(w, k, value, (o % 8) as u64);
                } else {
                    assert(self.word(p, o / 8) == before.word(p, o / 8));
                }
            }
        }
    }
}


/// A piece of a buffer that lies in one frame: the bytes of frame `ppn`
/// from the offset `start` up to, but not including, the offset `end`.
#[derive(Debug, Clone, Copy, PartialEq, Eq, Structural)]
pub struct FrameSlice {
    pub ppn: PhysPageNum,
    pub start: usize,
    pub end: usize,
}

/// The bytes of the memory that the slice names.
pub open spec fn slice_bytes(m: &PhysMemory, s: FrameSlice) -> Seq<u8> {
    Seq::new((s.end - s.start) as nat, |i: int| m.byte(s.ppn.0 as int, s.start + i))
}

/// The bytes of the memory that the slices name, one slice after the
/// other.
pub open spec fn slices_bytes(m: &PhysMemory, slices: Seq<FrameSlice>) -> Seq<u8>
    decreases slices.len(),
{
    if slices.len() == 0 {
        Seq::empty()
    } else {
        slices_bytes(m, slices.drop_last()) + slice_bytes(m, slices.last())
    }
}

/// The number of bytes that the slices name together.
pub open spec fn slices_len(slices: Seq<FrameSlice>) -> int
    decreases slices.len(),
{
    if slices.len() == 0 {
        0
    } else {
        slices_len(slices.drop_last()) + (slices.last().end - slices.last().start)
    }
}

/// Every slice lies inside a frame of the memory, and no two slices lie
/// in the same frame.
pub open spec fn slices_wf(m: &PhysMemory, slices: Seq<FrameSlice>) -> bool {
    &&& forall|k: int|
        0 <= k < slices.len() ==> m.contains((#[trigger] slices[k]).ppn.0 as int) && slices[k].start
            <= slices[k].end <= 4096
    &&& forall|j: int, k: int|
        0 <= j < k < slices.len() ==> (#[trigger] slices[j]).ppn != (#[trigger] slices[k]).ppn
}

/// The byte `o` of the frame `p` lies in one of the slices.
pub open spec fn slices_hold(slices: Seq<FrameSlice>, p: int, o: int) -> bool {
    exists|k: int|
        0 <= k < slices.len() && (#[trigger] slices[k]).ppn.0 == p && slices[k].start <= o
            < slices[k].end
}

/// Frame `ppn` holds one of the slices.
pub open spec fn slices_touch(slices: Seq<FrameSlice>, ppn: int) -> bool {
    exists|k: int| 0 <= k < slices.len() && (#[trigger] slices[k]).ppn.0 == ppn
}

/// The bytes that slices name depend on nothing but the bytes inside the
/// slices.
pub proof fn lemma_slices_bytes_congruent(m0: &PhysMemory, m: &PhysMemory, slices: Seq<FrameSlice>)
    requires
        forall|k: int| 0 <= k < slices.len() ==> (#[trigger] slices[k]).start <= slices[k].end,
        forall|k: int, o: int|
            #![trigger m.byte(slices[k].ppn.0 as int, o)]
            0 <= k < slices.len() && slices[k].start <= o < slices[k].end ==> m.byte(
                slices[k].ppn.0 as int,
                o,
            ) == m0.byte(slices[k].ppn.0 as int, o),
    ensures
        slices_bytes(m, slices) == slices_bytes(m0, slices),
    decreases slices.len(),
{
    if slices.len() > 0 {
        let rest = slices.drop_last();
        let last = slices.last();
        assert forall|k: int, o: int|
            #![trigger m.byte(rest[k].ppn.0 as int, o)]
            0 <= k < rest.len() && rest[k].start <= o < rest[k].end implies m.byte(
            rest[k].ppn.0 as int,
            o,
        ) == m0.byte(rest[k].ppn.0 as int, o) by {
            assert(rest[k] == slices[k]);
            assert(m.byte(slices[k].ppn.0 as int, o) == m0.byte(slices[k].ppn.0 as int, o));
        }
        assert forall|k: int| 0 <= k < rest.len() implies (#[trigger] rest[k]).start <= rest[k].end by {
            assert(rest[k] == slices[k]);
        }
        lemma_slices_bytes_congruent(m0, m, rest);
        let n = slices.len() - 1;
        assert(slices[n] == last);
        assert forall|i: int| 0 <= i < last.end - last.start implies slice_bytes(m, last)[i]
            == slice_bytes(m0, last)[i] by {
            assert(m.byte(slices[n].ppn.0 as int, last.start + i) == m0.byte(
                slices[n].ppn.0 as int,
                last.start + i,
            ));
        }
        assert(slice_bytes(m, last) =~= slice_bytes(m0, last));
    }
}

impl PhysMemory {
    /// Reads the bytes that the slices name, one slice after the other.
    pub fn read_bytes(&self, slices: &Vec<FrameSlice>) -> (data: Vec<u8>)
        requires
            self.wf(),
            slices_wf(self, slices@),
        ensures
            data@ == slices_bytes(self, slices@),
    {
        let mut data: Vec<u8> = Vec::new();
        let mut k: usize = 0;
        assert(slices@.take(0) =~= Seq::<FrameSlice>::empty());
        while k < slices.len()
            invariant
                k <= slices.len(),
                self.wf(),
                slices_wf(self, slices@),
                data@ == slices_bytes(self, slices@.take(k as int)),
            decreases slices.len() - k,
        {
            let s = slices[k];
            let ghost head = data@;
            let mut o: usize = s.start;
            while o < s.end
                invariant
                    s.start <= o <= s.end <= 4096,
                    self.wf(),
                    self.contains(s.ppn.0 as int),
                    data@.len() == head.len() + (o - s.start),
                    forall|i: int| 0 <= i < head.len() ==> data@[i] == head[i],
                    forall|b: int|
                        s.start <= b < o ==> data@[head.len() + b - s.start] == #[trigger] self.byte(
                            s.ppn.0 as int,
                            b,
                        ),
                decreases s.end - o,
            {
                data.push(self.read_byte(s.ppn, o));
                o += 1;
            }
            proof {
                assert(slices@.take(k + 1).drop_last() =~= slices@.take(k as int));
                assert(slices@.take(k + 1).last() == s);
                assert forall|i: int| 0 <= i < s.end - s.start implies data@[head.len() + i]
                    == slice_bytes(self, s)[i] by {
                    assert(data@[head.len() + (s.start + i) - s.start] == self.byte(
                        s.ppn.0 as int,
                        s.start + i,
                    ));
                }
                assert(data@ =~= head + slice_bytes(self, s));
            }
            k += 1;
        }
        assert(slices@.take(slices@.len() as int) =~= slices@);
        data
    }

    /// Writes `data` to the bytes that the slices name, one slice after
    /// the other.
    pub fn write_bytes(&mut self, slices: &Vec<FrameSlice>, data: &Vec<u8>)
        requires
            old(self).wf(),
            slices_wf(old(self), slices@),
            slices_len(slices@) == data@.len(),
        ensures
            final(self).wf(),
            final(self).same_allocation(old(self)),
            slices_bytes(final(self), slices@) == data@,
            forall|p: int, i: int|
                #![trigger final(self).word(p, i)]
                old(self).contains(p) && 0 <= i < 512 && !slices_touch(slices@, p) ==> final(self).word(p, i) == old(self).word(p, i),
            forall|p: int, o: int|
                #![trigger final(self).byte(p, o)]
                old(self).contains(p) && 0 <= o < 4096 && !slices_hold(slices@, p, o)
                    ==> final(self).byte(p, o) == old(self).byte(p, o),
    {
        let ghost m0 = *self;
        let total = data.len();
        let mut pos: usize = 0;
        let mut k: usize = 0;
        proof {
            assert(slices@.take(0) =~= Seq::<FrameSlice>::empty());
            assert(data@.take(0) =~= Seq::<u8>::empty());
        }
        while k < slices.len()
            invariant
                k <= slices.len(),
                self.wf(),
                self.same_allocation(&m0),
                m0.wf(),
                slices_wf(&m0, slices@),
                slices_len(slices@) == data@.len(),
                data@.len() <= usize::MAX,
                pos == slices_len(slices@.take(k as int)),
                pos <= data@.len(),
                slices_bytes(self, slices@.take(k as int)) == data@.take(pos as int),
                forall|p: int, i: int|
                    #![trigger self.word(p, i)]
                    m0.contains(p) && 0 <= i < 512 && !slices_touch(slices@.take(k as int), p)
                        ==> self.word(p, i) == m0.word(p, i),
                forall|p: int, o: int|
                    #![trigger self.byte(p, o)]
                    m0.contains(p) && 0 <= o < 4096 && !(exists|j: int|
                        0 <= j < k && (#[trigger] slices@[j]).ppn.0 == p && slices@[j].start <= o
                            < slices@[j].end) ==> self.byte(p, o) == m0.byte(p, o),
            decreases slices.len() - k,
        {
            let s = slices[k];
            let ghost m1 = *self;
            proof {
                assert(slices@.take(k + 1).drop_last() =~= slices@.take(k as int));
                assert(slices@.take(k + 1).last() == s);
                lemma_slices_len_prefix(slices@, k + 1);
            }
            let mut o: usize = s.start;
            while o < s.end
                invariant
                    s.start <= o <= s.end <= 4096,
                    k < slices.len(),
                    s == slices@[k as int],
                    self.wf(),
                    self.same_allocation(&m0),
                    m0.wf(),
                    m0.contains(s.ppn.0 as int),
                    pos + (s.end - s.start) <= data@.len(),
                    data@.len() <= usize::MAX,
                    forall|b: int|
                        s.start <= b < o ==> #[trigger] self.byte(s.ppn.0 as int, b) == data@[pos + b
                            - s.start],
                    forall|p: int, i: int|
                        #![trigger self.word(p, i)]
                        m0.contains(p) && 0 <= i < 512 && p != s.ppn.0 ==> self.word(p, i) == m1.word(
                            p,
                            i,
                        ),
                    forall|p: int, b: int|
                        #![trigger self.byte(p, b)]
                        m0.contains(p) && 0 <= b < 4096 && !(p == s.ppn.0 && s.start <= b < o)
                            ==> self.byte(p, b) == m1.byte(p, b),
                decreases s.end - o,
            {
                let ghost m2 = *self;
                self.write_byte(s.ppn, o, data[pos + (o - s.start)]);
                proof {
                    assert forall|b: int| s.start <= b < o + 1 implies #[trigger] self.byte(
                        s.ppn.0 as int,
                        b,
                    ) == data@[pos + b - s.start] by {
                        if b < o {
                            assert(self.byte(s.ppn.0 as int, b) == m2.byte(s.ppn.0 as int, b));
                        }
                    }
                    assert forall|p: int, b: int|
                        #![trigger self.byte(p, b)]
                        m0.contains(p) && 0 <= b < 4096 && !(p == s.ppn.0 && s.start <= b < o + 1) implies self.byte(
                        p,
                        b,
                    ) == m1.byte(p, b) by {
                        assert(self.byte(p, b) == m2.byte(p, b));
                    }
                    assert forall|p: int, i: int|
                        #![trigger self.word(p, i)]
                        m0.contains(p) && 0 <= i < 512 && p != s.ppn.0 implies self.word(p, i)
                        == m1.word(p, i) by {
                        assert(self.word(p, i) == m2.word(p, i));
                    }
                }
                o += 1;
            }
            proof {
                let done = slices@.take(k as int);
                assert forall|j: int, b: int|
                    #![trigger self.byte(done[j].ppn.0 as int, b)]
                    0 <= j < done.len() && done[j].start <= b < done[j].end implies self.byte(
                    done[j].ppn.0 as int,
                    b,
                ) == m1.byte(done[j].ppn.0 as int, b) by {
                    assert(done[j] == slices@[j]);
                    assert(slices@[j].ppn != slices@[k as int].ppn);
                }
                lemma_slices_bytes_congruent(&m1, self, done);
                assert forall|i: int| 0 <= i < s.end - s.start implies slice_bytes(self, s)[i]
                    == data@[pos + i] by {
                    assert(self.byte(s.ppn.0 as int, s.start + i) == data@[pos + (s.start + i)
                        - s.start]);
                }
                assert(slice_bytes(self, s) =~= data@.subrange(
                    pos as int,
                    pos + (s.end - s.start),
                ));
                assert(data@.take(pos + (s.end - s.start)) =~= data@.take(pos as int)
                    + data@.subrange(pos as int, pos + (s.end - s.start)));
                assert forall|p: int, i: int|
                    #![trigger self.word(p, i)]
                    m0.contains(p) && 0 <= i < 512 && !slices_touch(slices@.take(k + 1), p) implies self.word(
                    p,
                    i,
                ) == m0.word(p, i) by {
                    assert(slices@.take(k + 1)[k as int] == s);
                    assert(p != s.ppn.0);
                    if slices_touch(slices@.take(k as int), p) {
                        let j = choose|j: int|
                            0 <= j < slices@.take(k as int).len() && (#[trigger] slices@.take(
                                k as int,
                            )[j]).ppn.0 == p;
                        assert(slices@.take(k + 1)[j].ppn.0 == p);
                    }
                    assert(self.word(p, i) == m1.word(p, i));
                }
                assert forall|p: int, b: int|
                    #![trigger self.byte(p, b)]
                    m0.contains(p) && 0 <= b < 4096 && !(exists|j: int|
                        0 <= j < k + 1 && (#[trigger] slices@[j]).ppn.0 == p && slices@[j].start <= b
                            < slices@[j].end) implies self.byte(p, b) == m0.byte(p, b) by {
                    assert(!(slices@[k as int].ppn.0 == p && slices@[k as int].start <= b
                        < slices@[k as int].end));
                    assert(self.byte(p, b) == m1.byte(p, b));
                }
            }
            pos = pos + (s.end - s.start);
            k += 1;
        }
        proof {
            assert(slices@.take(slices@.len() as int) =~= slices@);
            assert(data@.take(data@.len() as int) =~= data@);
        }
    }
}

/// The length of the first `n` slices is at most the length of all, and
/// grows by the length of the slice added.
pub proof fn lemma_slices_len_prefix(slices: Seq<FrameSlice>, n: int)
    requires
        0 < n <= slices.len(),
        forall|k: int| 0 <= k < slices.len() ==> (#[trigger] slices[k]).start <= slices[k].end,
    ensures
        slices_len(slices.take(n)) == slices_len(slices.take(n - 1)) + (slices[n - 1].end - slices[n
            - 1].start),
        slices_len(slices.take(n)) <= slices_len(slices),
        slices_len(slices.take(n - 1)) >= 0,
    decreases slices.len() - n,
{
    assert(slices.take(n).drop_last() =~= slices.take(n - 1));
    assert(slices.take(n).last() == slices[n - 1]);
    lemma_slices_bytes_len_only(slices.take(n - 1));
    if n < slices.len() {
        lemma_slices_len_prefix(slices, n + 1);
    } else {
        assert(slices.take(n) =~= slices);
    }
}

/// The slices name no fewer than zero bytes.
proof fn lemma_slices_bytes_len_only(slices: Seq<FrameSlice>)
    requires
        forall|k: int| 0 <= k < slices.len() ==> (#[trigger] slices[k]).start <= slices[k].end,
    ensures
        slices_len(slices) >= 0,
    decreases slices.len(),
{
    if slices.len() > 0 {
        lemma_slices_bytes_len_only(slices.drop_last());
    }
}

} // verus!
