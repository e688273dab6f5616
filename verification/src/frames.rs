//! Physical frame allocation.
//!
//! The boot loader reports which physical address ranges are usable. Frames
//! are handed out in ascending order across those ranges by a monotonically
//! advancing cursor; nothing is ever reclaimed, so a frame returned once is
//! never returned again.

use vstd::prelude::*;

verus! {

/// Size in bytes of a physical frame (and of a virtual page).
pub const FRAME_SIZE: u64 = 4096;

/// A half-open physical address range `[start, end)` marked usable in the
/// boot-reported memory map.
#[derive(Debug, Clone, Copy, PartialEq, Eq, Structural)]
pub struct UsableRegion {
    pub start: u64,
    pub end: u64,
}

impl UsableRegion {
    /// A region is well formed when it is frame-aligned and non-empty.
    pub closed spec fn wf(self) -> bool {
        &&& self.start % (FRAME_SIZE as u64) == 0
        &&& self.end % (FRAME_SIZE as u64) == 0
        &&& self.start < self.end
    }
}

/// The usable regions are individually well formed and listed in ascending
/// order without overlap, as the boot loader reports them.
pub open spec fn regions_wf(regions: Seq<UsableRegion>) -> bool {
    &&& forall|i: int| 0 <= i < regions.len() ==> #[trigger] regions[i].wf()
    &&& forall|i: int|
        0 <= i && i + 1 < regions.len() ==> #[trigger] regions[i].end <= regions[i + 1].start
}

/// Number of frames a usable region holds.
pub open spec fn region_frames(r: UsableRegion) -> int {
    (r.end - r.start) / (FRAME_SIZE as int)
}

/// Number of frames held by the regions from index `i` on.
pub open spec fn frames_from(regions: Seq<UsableRegion>, i: int) -> int
    decreases regions.len() - i,
{
    if i < 0 || i >= regions.len() {
        0
    } else {
        region_frames(regions[i]) + frames_from(regions, i + 1)
    }
}

/// A tail count of frames is never negative.
pub proof fn lemma_frames_from_nonneg(regions: Seq<UsableRegion>, i: int)
    requires
        regions_wf(regions),
    ensures
        frames_from(regions, i) >= 0,
    decreases regions.len() - i,
{
    if 0 <= i < regions.len() {
        assert(regions[i].wf());
        lemma_frames_from_nonneg(regions, i + 1);
    }
}

/// A frame address lies inside one of the usable regions and is frame-aligned.
pub open spec fn frame_in_usable(regions: Seq<UsableRegion>, f: u64) -> bool {
    &&& f % (FRAME_SIZE as u64) == 0
    &&& exists|i: int|
        0 <= i < regions.len() && (#[trigger] regions[i]).start <= f && f + FRAME_SIZE
            <= regions[i].end
}

/// Bump allocator over the boot-reported usable regions.
///
/// The cursor `(cur, next)` designates the next frame to hand out:
/// `next` is a frame-aligned address inside `regions[cur]`, or `cur` equals
/// the number of regions once every frame has been handed out.
pub struct BootInfoFrameAllocator {
    regions: Vec<UsableRegion>,
    cur: usize,
    next: u64,
    /// Every frame address this allocator has ever returned.
    returned: Ghost<Set<u64>>,
}

impl BootInfoFrameAllocator {
    /// Internal consistency of the cursor, and freshness of the next frame:
    /// every frame already handed out lies strictly below the cursor.
    pub closed spec fn wf(self) -> bool {
        &&& regions_wf(self.regions@)
        &&& self.cur <= self.regions@.len()
        &&& self.cur < self.regions@.len() ==> {
            &&& self.regions@[self.cur as int].start <= self.next
            &&& self.next < self.regions@[self.cur as int].end
            &&& self.next % (FRAME_SIZE as u64) == 0
        }
        &&& self.cur < self.regions@.len() ==> forall|f: u64|
            self.returned@.contains(f) ==> f < self.next
    }

    /// The set of frames handed out so far.
    pub closed spec fn handed_out(self) -> Set<u64> {
        self.returned@
    }

    /// The regions this allocator draws from.
    pub closed spec fn spec_regions(self) -> Seq<UsableRegion> {
        self.regions@
    }

    /// True once every usable frame has been handed out.
    pub closed spec fn exhausted(self) -> bool {
        self.cur >= self.regions@.len()
    }

    /// The next frame the allocator will return, when not exhausted.
    pub closed spec fn next_frame(self) -> u64 {
        self.next
    }

    /// Number of frames not yet handed out.
    pub closed spec fn remaining(self) -> int {
        if self.cur >= self.regions@.len() {
            0
        } else {
            (self.regions@[self.cur as int].end - self.next) / (FRAME_SIZE as int) + frames_from(
                self.regions@,
                self.cur + 1,
            )
        }
    }

    /// The allocator is exhausted exactly when no frame remains.
    pub proof fn lemma_remaining_zero(self)
        requires
            self.wf(),
        ensures
            self.remaining() == 0 <==> self.exhausted(),
            self.remaining() >= 0,
    {
        if self.cur < self.regions@.len() {
            assert(self.regions@[self.cur as int].wf());
            let end = self.regions@[self.cur as int].end;
            assert((end - self.next) / (FRAME_SIZE as int) >= 1) by (nonlinear_arith)
                requires
                    self.next < end,
                    self.next % (FRAME_SIZE as u64) == 0,
                    end % (FRAME_SIZE as u64) == 0,
                    FRAME_SIZE == 4096,
            ;
            lemma_frames_from_nonneg(self.regions@, self.cur + 1);
        }
    }

    /// Builds the allocator over the boot-reported usable regions.
    pub fn new(regions: Vec<UsableRegion>) -> (r: BootInfoFrameAllocator)
        requires
            regions_wf(regions@),
        ensures
            r.wf(),
            r.spec_regions() == regions@,
            r.handed_out() === Set::empty(),
            r.exhausted() <==> regions@.len() == 0,
    {
        let next: u64 = if regions.len() > 0 {
            proof {
                assert(regions@[0].wf());
            }
            regions[0].start
        } else {
            0
        };
        BootInfoFrameAllocator { regions, cur: 0, next, returned: Ghost(Set::empty()) }
    }

    /// Hands out the next unused frame in ascending order across all usable
    /// regions, or `None` once they are exhausted.
    ///
    /// Frame uniqueness: a returned frame was never returned before, and the
    /// record of handed-out frames grows by exactly that frame, so no two
    /// `Some` results of any call sequence are equal.
    pub fn allocate_frame(&mut self) -> (r: Option<u64>)
        requires
            old(self).wf(),
        ensures
            final(self).wf(),
            final(self).spec_regions() == old(self).spec_regions(),
            r is None <==> old(self).exhausted(),
            old(self).exhausted() ==> *final(self) == *old(self),
            !old(self).exhausted() ==> final(self).remaining() == old(self).remaining() - 1,
            !old(self).exhausted() ==> {
                &&& r == Some(old(self).next_frame())
                &&& !old(self).handed_out().contains(old(self).next_frame())
                &&& final(self).handed_out() == old(self).handed_out().insert(
                    old(self).next_frame(),
                )
                &&& frame_in_usable(old(self).spec_regions(), old(self).next_frame())
            },
    {
        if self.cur >= self.regions.len() {
            return None;
        }
        let f = self.next;
        let region = self.regions[self.cur];
        proof {
            assert(self.regions@[self.cur as int].wf());
            assert(region.end - f > 0 && (region.end - f) % (FRAME_SIZE as int) == 0) by (
            nonlinear_arith)
                requires
                    f % (FRAME_SIZE as u64) == 0,
                    region.end % (FRAME_SIZE as u64) == 0,
                    f < region.end,
                    FRAME_SIZE == 4096,
            ;
            assert(f + FRAME_SIZE <= region.end) by (nonlinear_arith)
                requires
                    region.end - f > 0,
                    (region.end - f) % (FRAME_SIZE as int) == 0,
                    FRAME_SIZE == 4096,
            ;
            assert(frame_in_usable(self.regions@, f)) by {
                assert(self.regions@[self.cur as int] == region);
            }
        }
        proof {
            assert((f + FRAME_SIZE) % (FRAME_SIZE as int) == 0) by (nonlinear_arith)
                requires
                    f % (FRAME_SIZE as u64) == 0,
                    f + FRAME_SIZE <= u64::MAX,
                    FRAME_SIZE == 4096,
            ;
        }
        self.next = f + FRAME_SIZE;
        if self.next >= region.end {
            self.cur = self.cur + 1;
            if self.cur < self.regions.len() {
                let start = self.regions[self.cur].start;
                proof {
                    assert(self.regions@[self.cur as int].wf());
                    assert(self.regions@[self.cur - 1].end <= self.regions@[self.cur as int].start);
                }
                self.next = start;
            }
        }
        proof {
            self.returned@ = self.returned@.insert(f);
            let regions = self.regions@;
            let oldcur = old(self).cur as int;
            let end = regions[oldcur].end as int;
            let oldnext = old(self).next as int;
            if self.cur == old(self).cur {
                assert((end - (oldnext + 4096)) / (FRAME_SIZE as int) == (end - oldnext) / (
                FRAME_SIZE as int) - 1) by (nonlinear_arith)
                    requires
                        (end - oldnext) % (FRAME_SIZE as int) == 0,
                        end - oldnext >= 4096,
                        FRAME_SIZE == 4096,
                ;
            } else {
                assert(end - oldnext == 4096) by (nonlinear_arith)
                    requires
                        oldnext + 4096 >= end,
                        oldnext < end,
                        (end - oldnext) % (FRAME_SIZE as int) == 0,
                        FRAME_SIZE == 4096,
                ;
                assert((end - oldnext) / (FRAME_SIZE as int) == 1) by (nonlinear_arith)
                    requires
                        end - oldnext == 4096,
                        FRAME_SIZE == 4096,
                ;
                assert(frames_from(regions, oldcur + 1) == if oldcur + 1 < regions.len() {
                    region_frames(regions[oldcur + 1]) + frames_from(regions, oldcur + 2)
                } else {
                    0int
                });
                if self.cur < self.regions.len() {
                    assert(self.remaining() == (regions[oldcur + 1].end - regions[oldcur
                        + 1].start) / (FRAME_SIZE as int) + frames_from(regions, oldcur + 2));
                }
            }
        }
        Some(f)
    }
}

} // verus!
