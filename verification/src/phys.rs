//! The physical frame allocator: a bitmap with one bit per 4 KiB frame of
//! usable RAM, carved out of the front of the usable region that the boot
//! collaborator reports.

use vstd::prelude::*;
use vstd::arithmetic::div_mod::{
    lemma_div_is_ordered, lemma_fundamental_div_mod, lemma_fundamental_div_mod_converse,
    lemma_mod_division_less_than_divisor,
};
use crate::bitmap::{
    bitmap_bit, bits_of, first_free, lemma_first_free_bounds, lemma_first_free_full_iff,
    lemma_first_free_is, lemma_index_decompose, lemma_word_clear_bit, lemma_word_full,
    lemma_word_set_bit, lemma_word_tail_mask, lemma_word_zero, word_bit,
};

verus! {

/// Size of a physical frame in bytes: the allocation granularity.
pub const FRAME_SIZE: u64 = 4096;

/// Upper bound on physical addresses this allocator accepts, less one
/// bitmap-sizing unit: it keeps the bitmap inside its fixed virtual window
/// and its word count within every machine limit.
pub const MAX_PHYS_ADDR: u64 = 0x3_FFFF_FF00_0000;

/// Fixed virtual base address at which the bitmap's own backing frames are
/// identity-mapped before the bitmap is first read or written.
pub const BITMAP_VIRT_BASE: u64 = 0xFFFF_FF00_0000_0000;

/// The sizing rule reserves one bitmap frame per this many bytes of tracked
/// RAM (16 MiB), rounded up by one extra frame.
pub const BYTES_PER_BITMAP_FRAME: u64 = 0x100_0000;

/// What a physical memory range reported by the boot collaborator is used for.
#[derive(Clone, Copy, Debug, PartialEq, Eq, Structural)]
pub enum MemoryRegionKind {
    /// Free for the allocator to hand out.
    Usable,
    /// In use by the boot collaborator.
    Bootloader,
    /// Not available to the kernel.
    Reserved,
}

/// A contiguous physical address range `[start, end)` tagged with its kind.
#[derive(Clone, Copy, Debug, PartialEq, Eq, Structural)]
pub struct MemoryRegion {
    /// First physical address of the range.
    pub start: u64,
    /// First physical address past the range.
    pub end: u64,
    /// What the range is used for.
    pub kind: MemoryRegionKind,
}

/// A 4 KiB physical frame, identified by its 4 KiB-aligned start address.
#[derive(Clone, Copy, Debug, PartialEq, Eq, Structural)]
pub struct Frame {
    start: u64,
}

/// The physical address `addr` rounded down to its frame boundary.
pub open spec fn spec_align_down(addr: u64) -> int {
    addr as int - (addr as int) % (FRAME_SIZE as int)
}

impl Frame {
    /// The frame's start address.
    pub closed spec fn addr(&self) -> u64 {
        self.start
    }

    /// The frame containing the physical address `addr`.
    pub fn containing_address(addr: u64) -> (r: Frame)
        ensures
            r.addr() == spec_align_down(addr),
            r.addr() % FRAME_SIZE == 0,
    {
        proof {
            lemma_align_down_aligned(addr);
        }
        Frame { start: addr - addr % FRAME_SIZE }
    }

    /// The start address of the frame.
    pub fn start_address(&self) -> (r: u64)
        ensures
            r == self.addr(),
    {
        self.start
    }
}

proof fn lemma_align_down_aligned(addr: u64)
    ensures
        0 <= spec_align_down(addr) <= addr,
        spec_align_down(addr) % (FRAME_SIZE as int) == 0,
{
    lemma_fundamental_div_mod(addr as int, FRAME_SIZE as int);
    lemma_mod_division_less_than_divisor(addr as int, FRAME_SIZE as int);
    assert(spec_align_down(addr) == (FRAME_SIZE as int) * (addr as int / (FRAME_SIZE as int)));
    lemma_mul_mod_zero(addr as int / (FRAME_SIZE as int), FRAME_SIZE as int);
}

proof fn lemma_mul_mod_zero(q: int, d: int)
    requires
        0 < d,
    ensures
        (d * q) % d == 0,
{
    assert(d * q == q * d + 0) by (nonlinear_arith);
    lemma_fundamental_div_mod_converse(d * q, d, q, 0);
}

/// If `0 <= x < n * d` then `x / d < n`.
proof fn lemma_div_bound(x: int, n: int, d: int)
    requires
        0 <= x,
        0 < d,
        x < n * d,
    ensures
        0 <= x / d < n,
{
    lemma_fundamental_div_mod(x, d);
    lemma_mod_division_less_than_divisor(x, d);
    vstd::arithmetic::div_mod::lemma_div_pos_is_pos(x, d);
    if x / d >= n {
        assert(d * (x / d) >= d * n) by (nonlinear_arith)
            requires
                d > 0,
                x / d >= n,
        ;
        assert(n * d == d * n) by (nonlinear_arith);
    }
}

/// The bitmap word count `(n + 63) / 64` covers all `n` tracked frames.
proof fn lemma_words_cover(n: int)
    requires
        0 <= n,
    ensures
        ((n + 63) / 64) * 64 >= n,
        ((n + 63) / 64) * 64 < n + 64,
        0 <= (n + 63) / 64,
{
    lemma_fundamental_div_mod(n + 63, 64);
    lemma_mod_division_less_than_divisor(n + 63, 64);
    vstd::arithmetic::div_mod::lemma_div_pos_is_pos(n + 63, 64);
    assert(((n + 63) / 64) * 64 == 64 * ((n + 63) / 64)) by (nonlinear_arith);
}

/// A structure that holds the usable memory region reported at boot and a
/// corresponding bitmap tracking which of its frames are allocated.
pub struct PhysFrameAllocator {
    /// The region of memory available for allocation, after the bitmap's own
    /// backing frames have been carved out of its front.
    pub usable_memory_region: MemoryRegion,
    /// The region of memory reserved to hold the bitmap itself; its frames
    /// are never handed out.
    pub bit_map_region: MemoryRegion,
    /// One bit per tracked frame, packed into 64-bit words; bit `i` set means
    /// the frame at `usable_memory_region.start + i * 4096` is allocated.
    pub bitmap: Vec<u64>,
}

impl PhysFrameAllocator {
    /// Number of frames tracked by the bitmap.
    pub open spec fn num_frames(&self) -> int {
        (self.usable_memory_region.end - self.usable_memory_region.start) / (FRAME_SIZE as int)
    }

    /// Allocation status of every tracked frame: `true` means allocated.
    pub open spec fn frames(&self) -> Seq<bool> {
        bits_of(self.bitmap@, self.num_frames() as nat)
    }

    /// The bitmap index of the frame starting at the aligned address `addr`.
    pub open spec fn frame_index(&self, addr: int) -> int {
        (addr - self.usable_memory_region.start) / (FRAME_SIZE as int)
    }

    /// The start address of the frame with bitmap index `index`.
    pub open spec fn spec_frame_addr(&self, index: int) -> int {
        self.usable_memory_region.start + index * (FRAME_SIZE as int)
    }

    /// Internal consistency: the regions are aligned and adjacent, the bitmap
    /// has a word for every tracked frame, and the padding bits past the last
    /// tracked frame are permanently marked allocated.
    pub open spec fn wf(&self) -> bool {
        &&& self.usable_memory_region.kind == MemoryRegionKind::Usable
        &&& self.usable_memory_region.start % FRAME_SIZE == 0
        &&& self.usable_memory_region.start <= self.usable_memory_region.end
        &&& self.usable_memory_region.end <= MAX_PHYS_ADDR
        &&& self.bit_map_region.start % FRAME_SIZE == 0
        &&& self.bit_map_region.start < self.bit_map_region.end
        &&& self.bit_map_region.end == self.usable_memory_region.start
        &&& self.bit_map_region.end - self.bit_map_region.start <= 0x100_0000_0000
        &&& self.bitmap@.len() == (self.num_frames() + 63) / 64
        &&& forall|i: int|
            self.num_frames() <= i < self.bitmap@.len() * 64 ==> bitmap_bit(self.bitmap@, i)
    }

    /// Bounds that every method needs: the frame count and word count fit
    /// comfortably below every machine limit.
    pub proof fn lemma_wf_bounds(&self)
        requires
            self.wf(),
        ensures
            self.frames().len() == self.num_frames(),
            0 <= self.num_frames() <= 0x100_0000_0000,
            self.num_frames() * (FRAME_SIZE as int) <= self.usable_memory_region.end
                - self.usable_memory_region.start,
            self.bitmap@.len() * 64 >= self.num_frames(),
    {
        let sz = self.usable_memory_region.end - self.usable_memory_region.start;
        vstd::arithmetic::div_mod::lemma_div_pos_is_pos(sz, FRAME_SIZE as int);
        lemma_div_is_ordered(sz, MAX_PHYS_ADDR as int, FRAME_SIZE as int);
        assert(MAX_PHYS_ADDR as int / (FRAME_SIZE as int) == 0x3F_FFFF_F000);
        lemma_fundamental_div_mod(sz, FRAME_SIZE as int);
        lemma_mod_division_less_than_divisor(sz, FRAME_SIZE as int);
        assert(self.num_frames() * (FRAME_SIZE as int) == (FRAME_SIZE as int) * self.num_frames())
            by (nonlinear_arith);
        lemma_words_cover(self.num_frames());
    }

    /// Total allocatable bytes, published once at boot for diagnostics.
    pub fn bytes_available(&self) -> (r: u64)
        requires
            self.wf(),
        ensures
            r == self.usable_memory_region.end - self.usable_memory_region.start,
    {
        self.usable_memory_region.end - self.usable_memory_region.start
    }

    /// The physical frame at bitmap index `index`.
    pub fn frame_from_bit_index(&self, index: u64) -> (r: Frame)
        requires
            self.wf(),
            index < self.num_frames(),
        ensures
            r.addr() == self.spec_frame_addr(index as int),
            r.addr() % FRAME_SIZE == 0,
    {
        proof {
            self.lemma_wf_bounds();
            assert((index as int) * (FRAME_SIZE as int) < self.num_frames() * (FRAME_SIZE as int))
                by (nonlinear_arith)
                requires
                    (index as int) < self.num_frames(),
                    0 < (FRAME_SIZE as int),
            ;
            lemma_mul_mod_zero(index as int, FRAME_SIZE as int);
            assert((index as int) * (FRAME_SIZE as int) == (FRAME_SIZE as int) * (index as int))
                by (nonlinear_arith);
            vstd::arithmetic::div_mod::lemma_add_mod_noop(
                self.usable_memory_region.start as int,
                (index as int) * (FRAME_SIZE as int),
                FRAME_SIZE as int,
            );
        }
        Frame { start: self.usable_memory_region.start + index * FRAME_SIZE }
    }
}

/// Writing one word of the bitmap with one bit set or cleared changes exactly
/// that bit's frame and no other.
proof fn lemma_bit_update_effect(words: Seq<u64>, wi: int, bi: u64, nw: u64, set: bool)
    requires
        0 <= wi < words.len(),
        bi < 64,
        nw == if set {
            words[wi] | (1u64 << bi)
        } else {
            words[wi] & !(1u64 << bi)
        },
    ensures
        forall|i: int|
            0 <= i < words.len() * 64 ==> bitmap_bit(words.update(wi, nw), i) == (if i == wi * 64
                + bi {
                set
            } else {
                bitmap_bit(words, i)
            }),
{
    let len = words.len() as int;
    assert forall|i: int| 0 <= i < len * 64 implies bitmap_bit(words.update(wi, nw), i) == (if i
        == wi * 64 + bi {
        set
    } else {
        bitmap_bit(words, i)
    }) by {
        lemma_fundamental_div_mod(i, 64);
        lemma_mod_division_less_than_divisor(i, 64);
        let iw = i / 64;
        let ib = (i % 64) as u64;
        assert(len * 64 == 64 * len) by (nonlinear_arith);
        if iw == wi {
            if set {
                lemma_word_set_bit(words[wi], bi, ib);
            } else {
                lemma_word_clear_bit(words[wi], bi, ib);
            }
        }
    }
}

impl PhysFrameAllocator {
    /// Allocate the next free frame in the usable memory region.
    ///
    /// The bitmap is scanned one 64-bit word at a time; a word equal to
    /// all-ones is skipped without bit-level inspection, and within the first
    /// word that is not full, bit positions are scanned low to high. The
    /// first zero bit is set to one and its frame returned. Returns `None`
    /// exactly when every tracked frame is already allocated.
    pub fn allocate_frame(&mut self) -> (r: Option<Frame>)
        requires
            old(self).wf(),
        ensures
            final(self).wf(),
            final(self).usable_memory_region == old(self).usable_memory_region,
            final(self).bit_map_region == old(self).bit_map_region,
            ({
                let ff = first_free(old(self).frames());
                if ff < old(self).num_frames() {
                    &&& r matches Some(f) && f.addr() == old(self).spec_frame_addr(ff) && f.addr()
                        % FRAME_SIZE == 0
                    &&& final(self).frames() == old(self).frames().update(ff, true)
                } else {
                    &&& r is None
                    &&& *final(self) == *old(self)
                }
            }),
    {
        let ghost prior = *self;
        proof {
            prior.lemma_wf_bounds();
        }
        let nwords: usize = self.bitmap.len();
        let mut wi: usize = 0;
        while wi < nwords
            invariant
                *self == prior,
                prior == *old(self),
                prior.wf(),
                nwords == self.bitmap@.len(),
                wi <= nwords,
                forall|j: int| 0 <= j < (wi as int) * 64 ==> bitmap_bit(self.bitmap@, j),
            decreases nwords - wi,
        {
            let w = self.bitmap[wi];
            if w != 0xffff_ffff_ffff_ffffu64 {
                let mut bi: u64 = 0;
                while bi < 64
                    invariant
                        *self == prior,
                        prior == *old(self),
                        prior.wf(),
                        nwords == self.bitmap@.len(),
                        wi < nwords,
                        w == self.bitmap@[wi as int],
                        bi <= 64,
                        forall|j: int| 0 <= j < (wi as int) * 64 ==> bitmap_bit(self.bitmap@, j),
                        forall|b: u64| b < bi ==> word_bit(w, b),
                    decreases 64 - bi,
                {
                    if (w >> bi) & 1u64 == 0u64 {
                        let index: u64 = (wi as u64) * 64 + bi;
                        proof {
                            prior.lemma_wf_bounds();
                            lemma_index_decompose(wi as int, bi as int);
                            assert(!bitmap_bit(prior.bitmap@, index as int));
                            assert((wi as int) * 64 + 64 <= nwords * 64) by (nonlinear_arith)
                                requires
                                    (wi as int) < nwords,
                            ;
                            assert(index < prior.num_frames());
                            assert forall|j: int| 0 <= j < index implies prior.frames()[j] by {
                                if j >= (wi as int) * 64 {
                                    lemma_index_decompose(wi as int, j - (wi as int) * 64);
                                }
                            }
                            lemma_first_free_is(prior.frames(), index as int);
                        }
                        let new_w = w | (1u64 << bi);
                        self.bitmap[wi] = new_w;
                        proof {
                            lemma_bit_update_effect(prior.bitmap@, wi as int, bi, new_w, true);
                            assert(self.frames() =~= prior.frames().update(index as int, true));
                        }
                        let f = self.frame_from_bit_index(index);
                        return Some(f);
                    }
                    proof {
                        assert((w >> bi) & 1u64 == 0u64 || (w >> bi) & 1u64 == 1u64)
                            by (bit_vector);
                    }
                    bi = bi + 1;
                }
                proof {
                    assert forall|j: int|
                        0 <= j < ((wi + 1) as int) * 64 implies bitmap_bit(
                        self.bitmap@,
                        j,
                    ) by {
                        if j >= (wi as int) * 64 {
                            lemma_index_decompose(wi as int, j - (wi as int) * 64);
                        }
                    }
                }
            } else {
                proof {
                    assert forall|j: int|
                        0 <= j < ((wi + 1) as int) * 64 implies bitmap_bit(
                        self.bitmap@,
                        j,
                    ) by {
                        if j >= (wi as int) * 64 {
                            lemma_index_decompose(wi as int, j - (wi as int) * 64);
                            lemma_word_full((j - (wi as int) * 64) as u64);
                        }
                    }
                }
            }
            wi = wi + 1;
        }
        proof {
            prior.lemma_wf_bounds();
            assert forall|j: int| 0 <= j < prior.num_frames() implies prior.frames()[j] by {}
            lemma_first_free_is(prior.frames(), prior.num_frames());
        }
        None
    }

    /// Deallocate a frame that is no longer in use by clearing its bit in the
    /// bitmap. The caller guarantees that the frame was returned by an
    /// allocation, lies in the usable region, and is not in use by anything
    /// else at the time of the call.
    pub fn deallocate_frame(&mut self, frame: Frame)
        requires
            old(self).wf(),
            frame.addr() % FRAME_SIZE == 0,
            old(self).usable_memory_region.start <= frame.addr(),
            frame.addr() < old(self).usable_memory_region.start + old(self).num_frames() * (
            FRAME_SIZE as int),
            old(self).frames()[old(self).frame_index(frame.addr() as int)],
        ensures
            final(self).wf(),
            final(self).usable_memory_region == old(self).usable_memory_region,
            final(self).bit_map_region == old(self).bit_map_region,
            final(self).frames() == old(self).frames().update(
                old(self).frame_index(frame.addr() as int),
                false,
            ),
    {
        let ghost prior = *self;
        proof {
            prior.lemma_wf_bounds();
        }
        let nwords: usize = self.bitmap.len();
        let offset = frame.start_address() - self.usable_memory_region.start;
        let index = offset / FRAME_SIZE;
        proof {
            lemma_div_bound(offset as int, prior.num_frames(), FRAME_SIZE as int);
            lemma_div_bound(index as int, prior.bitmap@.len() as int, 64);
            lemma_fundamental_div_mod(index as int, 64);
            lemma_mod_division_less_than_divisor(index as int, 64);
            assert(index / 64 < nwords);
        }
        let wi = (index / 64) as usize;
        let bi = index % 64;
        let w = self.bitmap[wi];
        let new_w = w & !(1u64 << bi);
        self.bitmap[wi] = new_w;
        proof {
            lemma_index_decompose(wi as int, bi as int);
            lemma_bit_update_effect(prior.bitmap@, wi as int, bi, new_w, false);
            assert(self.frames() =~= prior.frames().update(index as int, false));
        }
    }

    /// Deallocate `frame` only after checking that it is a tracked,
    /// currently allocated frame: the form for callers that cannot establish
    /// the deallocation contract themselves. Returns whether it was freed.
    pub fn deallocate_frame_checked(&mut self, frame: Frame) -> (r: bool)
        requires
            old(self).wf(),
        ensures
            final(self).wf(),
            final(self).usable_memory_region == old(self).usable_memory_region,
            final(self).bit_map_region == old(self).bit_map_region,
            r == {
                &&& frame.addr() % FRAME_SIZE == 0
                &&& old(self).usable_memory_region.start <= frame.addr()
                &&& frame.addr() < old(self).usable_memory_region.start + old(self).num_frames()
                    * (FRAME_SIZE as int)
                &&& old(self).frames()[old(self).frame_index(frame.addr() as int)]
            },
            r ==> final(self).frames() == old(self).frames().update(
                old(self).frame_index(frame.addr() as int),
                false,
            ),
            !r ==> *final(self) == *old(self),
    {
        let ghost prior = *self;
        proof {
            prior.lemma_wf_bounds();
        }
        let addr = frame.start_address();
        if addr % FRAME_SIZE != 0 {
            return false;
        }
        if addr < self.usable_memory_region.start {
            return false;
        }
        let offset = addr - self.usable_memory_region.start;
        let nf = (self.usable_memory_region.end - self.usable_memory_region.start) / FRAME_SIZE;
        let index = offset / FRAME_SIZE;
        proof {
            let d = FRAME_SIZE as int;
            lemma_fundamental_div_mod(addr as int, d);
            lemma_fundamental_div_mod(prior.usable_memory_region.start as int, d);
            let k = addr as int / d - prior.usable_memory_region.start as int / d;
            assert(offset == d * k);
            lemma_mul_mod_zero(k, d);
            assert(d * k == k * d + 0) by (nonlinear_arith);
            lemma_fundamental_div_mod_converse(offset as int, d, k, 0);
            assert(index == k);
            assert(d * k < d * prior.num_frames() <==> k < prior.num_frames())
                by (nonlinear_arith)
                requires
                    0 < d,
            ;
        }
        if index >= nf {
            return false;
        }
        proof {
            lemma_div_bound(index as int, prior.bitmap@.len() as int, 64);
            lemma_fundamental_div_mod(index as int, 64);
            lemma_mod_division_less_than_divisor(index as int, 64);
        }
        let nwords: usize = self.bitmap.len();
        proof {
            assert(index / 64 < nwords);
        }
        let wi = (index / 64) as usize;
        let bi = index % 64;
        let w = self.bitmap[wi];
        proof {
            lemma_index_decompose(wi as int, bi as int);
            assert((w >> bi) & 1u64 == 0u64 || (w >> bi) & 1u64 == 1u64) by (bit_vector);
        }
        if (w >> bi) & 1u64 == 0u64 {
            return false;
        }
        self.deallocate_frame(frame);
        true
    }

    /// Allocate the specific frame containing the physical address `start`
    /// (aligned down to the nearest 4 KiB boundary), for when a fixed
    /// physical address must back a fixed virtual mapping. Returns `None` if
    /// that frame is already marked allocated; otherwise marks it allocated
    /// and returns it.
    pub fn allocate_frame_nth(&mut self, start: u64) -> (r: Option<Frame>)
        requires
            old(self).wf(),
            old(self).usable_memory_region.start <= start,
            start < old(self).usable_memory_region.start + old(self).num_frames() * (
            FRAME_SIZE as int),
        ensures
            final(self).wf(),
            final(self).usable_memory_region == old(self).usable_memory_region,
            final(self).bit_map_region == old(self).bit_map_region,
            ({
                let idx = old(self).frame_index(spec_align_down(start));
                if old(self).frames()[idx] {
                    &&& r is None
                    &&& *final(self) == *old(self)
                } else {
                    &&& r matches Some(f) && f.addr() == spec_align_down(start) && f.addr()
                        % FRAME_SIZE == 0
                    &&& final(self).frames() == old(self).frames().update(idx, true)
                }
            }),
    {
        let ghost prior = *self;
        proof {
            prior.lemma_wf_bounds();
            lemma_align_down_aligned(start);
            lemma_align_down_in_region(prior.usable_memory_region.start, start);
        }
        let nwords: usize = self.bitmap.len();
        let start_frame_addr = Frame::containing_address(start).start_address();
        let offset = start_frame_addr - self.usable_memory_region.start;
        let index = offset / FRAME_SIZE;
        proof {
            lemma_div_bound(offset as int, prior.num_frames(), FRAME_SIZE as int);
            lemma_div_bound(index as int, prior.bitmap@.len() as int, 64);
            lemma_fundamental_div_mod(index as int, 64);
            lemma_mod_division_less_than_divisor(index as int, 64);
            assert(index / 64 < nwords);
        }
        let wi = (index / 64) as usize;
        let bi = index % 64;
        let w = self.bitmap[wi];
        proof {
            lemma_index_decompose(wi as int, bi as int);
            assert((w >> bi) & 1u64 == 0u64 || (w >> bi) & 1u64 == 1u64) by (bit_vector);
        }
        if (w >> bi) & 1u64 == 1u64 {
            None
        } else {
            let new_w = w | (1u64 << bi);
            self.bitmap[wi] = new_w;
            proof {
                lemma_bit_update_effect(prior.bitmap@, wi as int, bi, new_w, true);
                assert(self.frames() =~= prior.frames().update(index as int, true));
            }
            Some(Frame { start: start_frame_addr })
        }
    }
}

/// The last region of kind `Usable` in the boot-reported sequence; the
/// bootstrap adopts it. A machine that reports a single usable region, the
/// common case, makes this that region.
pub open spec fn last_usable(regions: Seq<MemoryRegion>) -> Option<MemoryRegion>
    decreases regions.len(),
{
    if regions.len() == 0 {
        None
    } else if regions.last().kind == MemoryRegionKind::Usable {
        Some(regions.last())
    } else {
        last_usable(regions.drop_last())
    }
}

/// A region selected by `last_usable` is one of the reported regions.
proof fn lemma_last_usable_in(regions: Seq<MemoryRegion>)
    requires
        last_usable(regions) is Some,
    ensures
        exists|i: int|
            0 <= i < regions.len() && regions[i] == last_usable(regions)->Some_0
                && regions[i].kind == MemoryRegionKind::Usable,
    decreases regions.len(),
{
    if regions.last().kind != MemoryRegionKind::Usable {
        lemma_last_usable_in(regions.drop_last());
        let i = choose|i: int|
            0 <= i < regions.drop_last().len() && regions.drop_last()[i] == last_usable(
                regions.drop_last(),
            )->Some_0 && regions.drop_last()[i].kind == MemoryRegionKind::Usable;
        assert(regions[i] == regions.drop_last()[i]);
    }
}

/// Number of frames reserved for the bitmap: one per 16 MiB of the original
/// usable region, rounded up by one.
pub open spec fn spec_bitmap_frames(r: MemoryRegion) -> int {
    (r.end - r.start) / (BYTES_PER_BITMAP_FRAME as int) + 1
}

/// Whether a usable region is large enough to hold its own bitmap and still
/// have room left to allocate from.
pub open spec fn region_can_hold_bitmap(r: MemoryRegion) -> bool {
    r.start + spec_bitmap_frames(r) * (FRAME_SIZE as int) <= r.end
}

impl PhysFrameAllocator {
    /// Initialize the physical frame allocator from the boot-reported region
    /// list.
    ///
    /// The usable memory region is divided in two: a front sub-region able to
    /// hold one bit per remaining frame (`bit_map_region`), and the remaining
    /// allocatable `usable_memory_region`, all of whose frames start out
    /// free. Returns `None` when the boot loader reports no usable region, or
    /// when the usable region cannot hold its own bitmap.
    pub fn init(memory_regions: &Vec<MemoryRegion>) -> (r: Option<PhysFrameAllocator>)
        requires
            forall|i: int|
                0 <= i < memory_regions@.len() && memory_regions@[i].kind
                    == MemoryRegionKind::Usable ==> {
                    &&& memory_regions@[i].start % FRAME_SIZE == 0
                    &&& memory_regions@[i].start <= memory_regions@[i].end
                    &&& memory_regions@[i].end <= MAX_PHYS_ADDR
                },
        ensures
            ({
                match last_usable(memory_regions@) {
                    None => r is None,
                    Some(u) => {
                        if region_can_hold_bitmap(u) {
                            &&& r matches Some(a)
                            &&& a.wf()
                            &&& a.bit_map_region.start == u.start
                            &&& a.bit_map_region.end == u.start + spec_bitmap_frames(u) * (
                            FRAME_SIZE as int)
                            &&& a.usable_memory_region.start == a.bit_map_region.end
                            &&& a.usable_memory_region.end == u.end
                            &&& forall|i: int| 0 <= i < a.num_frames() ==> !a.frames()[i]
                        } else {
                            r is None
                        }
                    },
                }
            }),
    {
        let n = memory_regions.len();
        let mut found: Option<MemoryRegion> = None;
        let mut i: usize = 0;
        while i < n
            invariant
                i <= n,
                n == memory_regions@.len(),
                found == last_usable(memory_regions@.subrange(0, i as int)),
            decreases n - i,
        {
            let region = memory_regions[i];
            proof {
                assert(memory_regions@.subrange(0, i as int + 1).drop_last() =~= memory_regions@
                    .subrange(0, i as int));
                assert(memory_regions@.subrange(0, i as int + 1).last() == memory_regions@[
                    i as int]);
            }
            if region.kind == MemoryRegionKind::Usable {
                found = Some(region);
            }
            i = i + 1;
        }
        proof {
            assert(memory_regions@.subrange(0, n as int) =~= memory_regions@);
        }
        let u = match found {
            None => {
                return None;
            },
            Some(u) => u,
        };
        proof {
            lemma_last_usable_in(memory_regions@);
            lemma_div_is_ordered(
                (u.end - u.start) as int,
                MAX_PHYS_ADDR as int,
                BYTES_PER_BITMAP_FRAME as int,
            );
            assert(MAX_PHYS_ADDR as int / (BYTES_PER_BITMAP_FRAME as int) == 0x3FF_FFFF);
        }
        let num_bitmap_frames = (u.end - u.start) / BYTES_PER_BITMAP_FRAME + 1;
        let bitmap_bytes = num_bitmap_frames * FRAME_SIZE;
        let usable_start = u.start + bitmap_bytes;
        if usable_start > u.end {
            return None;
        }
        proof {
            lemma_mul_mod_zero(num_bitmap_frames as int, FRAME_SIZE as int);
            assert(num_bitmap_frames as int * (FRAME_SIZE as int) == (FRAME_SIZE as int) * (
            num_bitmap_frames as int)) by (nonlinear_arith);
            vstd::arithmetic::div_mod::lemma_add_mod_noop(
                u.start as int,
                bitmap_bytes as int,
                FRAME_SIZE as int,
            );
        }
        let num_frames = (u.end - usable_start) / FRAME_SIZE;
        proof {
            vstd::arithmetic::div_mod::lemma_div_pos_is_pos(
                (u.end - usable_start) as int,
                FRAME_SIZE as int,
            );
            lemma_div_is_ordered((u.end - usable_start) as int, u.end as int, FRAME_SIZE as int);
            lemma_div_is_ordered(u.end as int, MAX_PHYS_ADDR as int, FRAME_SIZE as int);
            assert(MAX_PHYS_ADDR as int / (FRAME_SIZE as int) == 0x3F_FFFF_F000);
            lemma_words_cover(num_frames as int);
            lemma_div_is_ordered(num_frames as int + 63, 0x3F_FFFF_F03F, 64);
            assert(0x3F_FFFF_F03Fint / 64 == 0xFFFF_FFC0int);
        }
        let nwords = ((num_frames + 63) / 64) as usize;
        let mut bitmap: Vec<u64> = Vec::new();
        let mut k: usize = 0;
        while k < nwords
            invariant
                k <= nwords,
                bitmap@.len() == k,
                forall|j: int| 0 <= j < k ==> bitmap@[j] == 0u64,
            decreases nwords - k,
        {
            bitmap.push(0u64);
            k = k + 1;
        }
        let rem = num_frames % 64;
        proof {
            lemma_fundamental_div_mod(num_frames as int, 64);
            lemma_mod_division_less_than_divisor(num_frames as int, 64);
            if rem == 0 {
                lemma_fundamental_div_mod_converse(
                    num_frames as int + 63,
                    64,
                    num_frames as int / 64,
                    63,
                );
            } else {
                lemma_fundamental_div_mod_converse(
                    num_frames as int + 63,
                    64,
                    num_frames as int / 64 + 1,
                    rem as int - 1,
                );
            }
        }
        if rem != 0 {
            let tail_word = 0xffff_ffff_ffff_ffffu64 << rem;
            bitmap[nwords - 1] = tail_word;
        }
        let allocator = PhysFrameAllocator {
            usable_memory_region: MemoryRegion {
                start: usable_start,
                end: u.end,
                kind: MemoryRegionKind::Usable,
            },
            bit_map_region: MemoryRegion {
                start: u.start,
                end: usable_start,
                kind: MemoryRegionKind::Reserved,
            },
            bitmap,
        };
        proof {
            let nf = allocator.num_frames();
            let words = allocator.bitmap@;
            assert(nf == num_frames);
            assert forall|idx: int| 0 <= idx < words.len() * 64 implies bitmap_bit(words, idx) == (
            rem != 0 && idx / 64 == words.len() - 1 && idx % 64 >= rem) by {
                lemma_fundamental_div_mod(idx, 64);
                lemma_mod_division_less_than_divisor(idx, 64);
                let iw = idx / 64;
                let ib = (idx % 64) as u64;
                assert(words.len() * 64 == 64 * (words.len() as int)) by (nonlinear_arith);
                if rem != 0 && iw == words.len() - 1 {
                    lemma_word_tail_mask(rem, ib);
                } else {
                    lemma_word_zero(ib);
                }
            }
            assert forall|idx: int| nf <= idx < words.len() * 64 implies bitmap_bit(
                words,
                idx,
            ) by {
                lemma_fundamental_div_mod(idx, 64);
                lemma_mod_division_less_than_divisor(idx, 64);
                assert(words.len() * 64 == 64 * (words.len() as int)) by (nonlinear_arith);
                if rem != 0 {
                    lemma_fundamental_div_mod_converse(
                        nf,
                        64,
                        (words.len() - 1) as int,
                        rem as int,
                    );
                }
            }
            assert forall|idx: int| 0 <= idx < nf implies !allocator.frames()[idx] by {
                lemma_fundamental_div_mod(idx, 64);
                lemma_mod_division_less_than_divisor(idx, 64);
                if rem != 0 {
                    lemma_fundamental_div_mod_converse(
                        nf,
                        64,
                        (words.len() - 1) as int,
                        rem as int,
                    );
                }
            }
            assert(allocator.wf());
        }
        Some(allocator)
    }

    /// The identity-map work list for the bitmap's own backing frames.
    ///
    /// Entry `i` pairs the page at virtual address
    /// `BITMAP_VIRT_BASE + i * 4096` with the physical frame at
    /// `bit_map_region.start + i * 4096`; the page-table service must install
    /// every pair before the bitmap is first touched.
    pub fn bit_frame_mappings(&self) -> (r: Vec<(u64, u64)>)
        requires
            self.wf(),
        ensures
            r@.len() == (self.bit_map_region.end - self.bit_map_region.start) / (FRAME_SIZE as int),
            forall|i: int|
                0 <= i < r@.len() ==> #[trigger] r@[i] == (
                (BITMAP_VIRT_BASE + i * (FRAME_SIZE as int)) as u64,
                (self.bit_map_region.start + i * (FRAME_SIZE as int)) as u64,
                ),
    {
        let size = self.bit_map_region.end - self.bit_map_region.start;
        let count = size / FRAME_SIZE;
        proof {
            vstd::arithmetic::div_mod::lemma_div_pos_is_pos(size as int, FRAME_SIZE as int);
            lemma_div_is_ordered(size as int, 0x100_0000_0000, FRAME_SIZE as int);
            lemma_fundamental_div_mod(size as int, FRAME_SIZE as int);
            lemma_mod_division_less_than_divisor(size as int, FRAME_SIZE as int);
        }
        let mut r: Vec<(u64, u64)> = Vec::new();
        let mut i: u64 = 0;
        while i < count
            invariant
                i <= count,
                count <= 0x1000_0000,
                self.bit_map_region.start <= MAX_PHYS_ADDR,
                r@.len() == i,
                forall|j: int|
                    0 <= j < i ==> #[trigger] r@[j] == (
                    (BITMAP_VIRT_BASE + j * (FRAME_SIZE as int)) as u64,
                    (self.bit_map_region.start + j * (FRAME_SIZE as int)) as u64,
                    ),
            decreases count - i,
        {
            proof {
                assert((i as int) * (FRAME_SIZE as int) < 0x1000_0000 * (FRAME_SIZE as int))
                    by (nonlinear_arith)
                    requires
                        (i as int) < 0x1000_0000,
                ;
            }
            let page = BITMAP_VIRT_BASE + i * FRAME_SIZE;
            let frame = self.bit_map_region.start + i * FRAME_SIZE;
            r.push((page, frame));
            i = i + 1;
        }
        r
    }
}

/// Allocate/deallocate round trip, over the bitmap model: allocating the
/// first free frame, freeing it again, and allocating once more hands back
/// the identical frame, provided no other allocation happened in between.
pub proof fn lemma_allocate_free_allocate_round_trip(s: Seq<bool>)
    requires
        first_free(s) < s.len(),
    ensures
        first_free(s.update(first_free(s), true).update(first_free(s), false)) == first_free(s),
{
    let ff = first_free(s);
    lemma_first_free_bounds(s);
    assert(s.update(ff, true).update(ff, false) =~= s);
}

/// Disjointness, over the bitmap model: two consecutive successful
/// allocations with no intervening deallocation return distinct frames.
pub proof fn lemma_consecutive_allocations_distinct(s: Seq<bool>)
    requires
        first_free(s) < s.len(),
        first_free(s.update(first_free(s), true)) < s.len(),
    ensures
        first_free(s.update(first_free(s), true)) != first_free(s),
{
    lemma_first_free_bounds(s.update(first_free(s), true));
}

/// Allocations fill the bitmap in index order: when exactly the first `k`
/// frames are allocated, the next allocation returns frame `k` (or reports
/// exhaustion once `k` reaches the frame count).
pub proof fn lemma_allocations_fill_in_order(s: Seq<bool>, k: int)
    requires
        0 <= k <= s.len(),
        forall|i: int| 0 <= i < s.len() ==> (s[i] <==> i < k),
    ensures
        first_free(s) == k,
{
    lemma_first_free_is(s, k);
}

/// Exhaustion, over the bitmap model: once every frame has been allocated,
/// the next allocation finds no free frame, and conversely.
pub proof fn lemma_exhaustion(s: Seq<bool>)
    ensures
        first_free(s) == s.len() <==> (forall|i: int| 0 <= i < s.len() ==> s[i]),
{
    lemma_first_free_full_iff(s);
}

/// A frame that is marked allocated is never the one a general allocation
/// returns, until it is freed.
pub proof fn lemma_allocated_frame_not_returned(s: Seq<bool>, j: int)
    requires
        0 <= j < s.len(),
        s[j],
    ensures
        first_free(s) != j,
{
    lemma_first_free_bounds(s);
}

/// An address at or past the aligned start of a region aligns down to an
/// address still at or past that start.
proof fn lemma_align_down_in_region(region_start: u64, addr: u64)
    requires
        region_start % FRAME_SIZE == 0,
        region_start <= addr,
    ensures
        region_start <= spec_align_down(addr),
{
    let d = FRAME_SIZE as int;
    lemma_fundamental_div_mod(region_start as int, d);
    lemma_fundamental_div_mod(addr as int, d);
    lemma_div_is_ordered(region_start as int, addr as int, d);
    assert(d * (region_start as int / d) <= d * (addr as int / d)) by (nonlinear_arith)
        requires
            0 < d,
            region_start as int / d <= addr as int / d,
    ;
}

/// A frame allocator that always reports "no frames available"; it services
/// the one-shot mapping of the bitmap's own backing frames, at an instant
/// when no further physical frames may be consumed.
pub struct EmptyFrameAllocator;

impl EmptyFrameAllocator {
    /// Returns no frame and touches no memory state.
    pub fn allocate_frame(&mut self) -> (r: Option<Frame>)
        ensures
            r is None,
    {
        None
    }
}

} // verus!
