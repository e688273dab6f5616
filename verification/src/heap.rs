//! Heap allocation.
//!
//! The kernel heap is a fixed virtual range handed over at initialization.
//! Requests are rounded up to the smallest power-of-two size class that
//! covers both size and alignment; each class keeps a free list of blocks.
//! Requests above the largest class, and any request whose class list is
//! empty, are served by first-fit carving from the fallback region. Freed
//! class blocks return to their list in constant time; freed fallback
//! allocations return to the fallback region as a free extent.

use vstd::prelude::*;
use vstd::arithmetic::power2::{pow2, lemma_pow2_adds, lemma_pow2_pos, lemma_pow2_strictly_increases, lemma2_to64};
use vstd::arithmetic::div_mod::{lemma_mod_mod, lemma_mod_multiples_basic};
use crate::arch::{align_up_u64, is_pow2_u64, spec_align_up};
use crate::frames::BootInfoFrameAllocator;
use crate::paging::{valid_page, MapError, OffsetPageTable, PageFlags};
use vstd::pervasive::VecAdditionalExecFns;

verus! {

/// Default start of the heap's virtual range.
pub const HEAP_START: u64 = 0x4444_4444_0000;

/// Default heap size in bytes.
pub const HEAP_SIZE: u64 = 100 * 1024;

/// Number of power-of-two size classes, 8 bytes up to 2048 bytes.
pub const NUM_CLASSES: usize = 9;

/// Block size of size class `k`.
pub open spec fn spec_csize(k: int) -> u64 {
    if k == 0 {
        8
    } else if k == 1 {
        16
    } else if k == 2 {
        32
    } else if k == 3 {
        64
    } else if k == 4 {
        128
    } else if k == 5 {
        256
    } else if k == 6 {
        512
    } else if k == 7 {
        1024
    } else if k == 8 {
        2048
    } else {
        0
    }
}

/// The smallest class whose block covers both the size and the alignment of
/// a request, or `None` for requests above the largest class.
pub open spec fn spec_class_of(size: u64, align: u64) -> Option<int> {
    let m: u64 = if size >= align {
        size
    } else {
        align
    };
    if m <= 8 {
        Some(0int)
    } else if m <= 16 {
        Some(1int)
    } else if m <= 32 {
        Some(2int)
    } else if m <= 64 {
        Some(3int)
    } else if m <= 128 {
        Some(4int)
    } else if m <= 256 {
        Some(5int)
    } else if m <= 512 {
        Some(6int)
    } else if m <= 1024 {
        Some(7int)
    } else if m <= 2048 {
        Some(8int)
    } else {
        None
    }
}

/// Bytes actually reserved for a request: the class block, or the request
/// size itself for fallback allocations.
pub open spec fn spec_reserved(size: u64, align: u64) -> u64 {
    match spec_class_of(size, align) {
        Some(k) => spec_csize(k),
        None => size,
    }
}

/// The half-open ranges `[s1, e1)` and `[s2, e2)` share no byte.
pub open spec fn ranges_disjoint(s1: int, e1: int, s2: int, e2: int) -> bool {
    e1 <= s2 || e2 <= s1
}

/// An extent of the fallback region can serve a request of `res` bytes at
/// alignment `al`.
pub open spec fn spec_fits(ext: (u64, u64), res: u64, al: u64) -> bool {
    spec_align_up(ext.0 as int, al as int) + res <= ext.1
}

/// The first-fit carve: the served extent is the first that fits, the block
/// starts at its aligned start, and the two leftover pieces keep its place.
pub open spec fn spec_carved(
    oldh: HeapAllocator,
    newh: HeapAllocator,
    a: u64,
    res: u64,
    al: u64,
) -> bool {
    exists|j: int|
        {
            &&& 0 <= j < oldh.fb().len()
            &&& spec_fits(#[trigger] oldh.fb()[j], res, al)
            &&& forall|j2: int| 0 <= j2 < j ==> !spec_fits(#[trigger] oldh.fb()[j2], res, al)
            &&& a == spec_align_up(oldh.fb()[j].0 as int, al as int)
            &&& newh.fb() == oldh.fb().update(j, (oldh.fb()[j].0, a)).push(
                ((a + res) as u64, oldh.fb()[j].1),
            )
        }
}

/// Size-class heap allocator over a fixed virtual range.
pub struct HeapAllocator {
    heap_start: u64,
    heap_end: u64,
    free_lists: Vec<Vec<u64>>,
    fallback: Vec<(u64, u64)>,
    /// Address of each live allocation, with its reserved byte count and
    /// whether it was served from a size class.
    live: Ghost<Map<u64, (u64, bool)>>,
}

impl HeapAllocator {
    /// First byte of the heap range.
    pub closed spec fn lo(self) -> u64 {
        self.heap_start
    }

    /// First byte past the heap range.
    pub closed spec fn hi(self) -> u64 {
        self.heap_end
    }

    /// The free lists, one sequence of block addresses per size class.
    pub closed spec fn lists(self) -> Seq<Seq<u64>> {
        self.free_lists@.map_values(|v: Vec<u64>| v@)
    }

    /// The free extents of the fallback region.
    pub closed spec fn fb(self) -> Seq<(u64, u64)> {
        self.fallback@
    }

    /// The live allocations: address to reserved bytes and class flag.
    pub closed spec fn live_map(self) -> Map<u64, (u64, bool)> {
        self.live@
    }

    /// Internal consistency: every free block sits in the heap, aligned to
    /// its class; free blocks, free extents and live allocations are
    /// pairwise disjoint.
    pub open spec fn wf(self) -> bool {
        let lists = self.lists();
        let fb = self.fb();
        let live = self.live_map();
        let lo = self.lo() as int;
        let hi = self.hi() as int;
        &&& lists.len() == NUM_CLASSES
        &&& lo <= hi
        &&& forall|k: int, i: int|
            0 <= k < NUM_CLASSES && 0 <= i < lists[k].len() ==> {
                let b = #[trigger] lists[k][i];
                &&& lo <= b
                &&& b + spec_csize(k) <= hi
                &&& b % spec_csize(k) == 0
            }
        &&& forall|k1: int, i1: int, k2: int, i2: int|
            0 <= k1 < NUM_CLASSES && 0 <= i1 < lists[k1].len() && 0 <= k2 < NUM_CLASSES && 0 <= i2
                < lists[k2].len() && !(k1 == k2 && i1 == i2) ==> ranges_disjoint(
                #[trigger] lists[k1][i1] as int,
                lists[k1][i1] + spec_csize(k1),
                #[trigger] lists[k2][i2] as int,
                lists[k2][i2] + spec_csize(k2),
            )
        &&& forall|j: int|
            0 <= j < fb.len() ==> lo <= (#[trigger] fb[j]).0 <= fb[j].1 <= hi
        &&& forall|j1: int, j2: int|
            0 <= j1 < fb.len() && 0 <= j2 < fb.len() && j1 != j2 ==> ranges_disjoint(
                (#[trigger] fb[j1]).0 as int,
                fb[j1].1 as int,
                (#[trigger] fb[j2]).0 as int,
                fb[j2].1 as int,
            )
        &&& forall|k: int, i: int, j: int|
            0 <= k < NUM_CLASSES && 0 <= i < lists[k].len() && 0 <= j < fb.len()
                ==> ranges_disjoint(
                #[trigger] lists[k][i] as int,
                lists[k][i] + spec_csize(k),
                (#[trigger] fb[j]).0 as int,
                fb[j].1 as int,
            )
        &&& forall|a: u64|
            #[trigger] live.contains_key(a) ==> {
                &&& lo <= a
                &&& a + live[a].0 <= hi
                &&& live[a].0 >= 1
                &&& live[a].1 ==> a % live[a].0 == 0
            }
        &&& forall|a1: u64, a2: u64|
            #[trigger] live.contains_key(a1) && #[trigger] live.contains_key(a2) && a1 != a2
                ==> ranges_disjoint(a1 as int, a1 + live[a1].0, a2 as int, a2 + live[a2].0)
        &&& forall|k: int, i: int, a: u64|
            0 <= k < NUM_CLASSES && 0 <= i < lists[k].len() && live.contains_key(a)
                ==> ranges_disjoint(
                #[trigger] lists[k][i] as int,
                lists[k][i] + spec_csize(k),
                a as int,
                a + (#[trigger] live[a]).0,
            )
        &&& forall|j: int, a: u64|
            0 <= j < fb.len() && live.contains_key(a) ==> ranges_disjoint(
                (#[trigger] fb[j]).0 as int,
                fb[j].1 as int,
                a as int,
                a + (#[trigger] live[a]).0,
            )
    }

    /// A fresh allocator over `[start, start + size)`, with every byte in
    /// the fallback region and nothing live.
    pub fn new(start: u64, size: u64) -> (r: HeapAllocator)
        requires
            size >= 1,
            start + size <= u64::MAX,
        ensures
            r.wf(),
            r.lo() == start,
            r.hi() == start + size,
            forall|k: int| 0 <= k < NUM_CLASSES ==> (#[trigger] r.lists()[k]).len() == 0,
            r.fb() =~= seq![(start, (start + size) as u64)],
            r.live_map() =~= Map::<u64, (u64, bool)>::empty(),
    {
        let mut free_lists: Vec<Vec<u64>> = Vec::new();
        let mut k: usize = 0;
        while k < NUM_CLASSES
            invariant
                k <= NUM_CLASSES,
                free_lists@.len() == k,
                forall|i: int| 0 <= i < k ==> (#[trigger] free_lists@[i])@.len() == 0,
            decreases NUM_CLASSES - k,
        {
            free_lists.push(Vec::new());
            k = k + 1;
        }
        let mut fallback: Vec<(u64, u64)> = Vec::new();
        fallback.push((start, start + size));
        HeapAllocator {
            heap_start: start,
            heap_end: start + size,
            free_lists,
            fallback,
            live: Ghost(Map::empty()),
        }
    }

    /// Exec mirror of the size-class table.
    fn csize_of(k: usize) -> (r: u64)
        requires
            k < NUM_CLASSES,
        ensures
            r == spec_csize(k as int),
    {
        if k == 0 {
            8
        } else if k == 1 {
            16
        } else if k == 2 {
            32
        } else if k == 3 {
            64
        } else if k == 4 {
            128
        } else if k == 5 {
            256
        } else if k == 6 {
            512
        } else if k == 7 {
            1024
        } else {
            2048
        }
    }

    /// Exec mirror of the class choice.
    fn class_of(size: u64, align: u64) -> (r: Option<usize>)
        ensures
            r == match spec_class_of(size, align) {
                Some(k) => Some(k as usize),
                None => None::<usize>,
            },
    {
        let m = if size >= align {
            size
        } else {
            align
        };
        if m <= 8 {
            Some(0)
        } else if m <= 16 {
            Some(1)
        } else if m <= 32 {
            Some(2)
        } else if m <= 64 {
            Some(3)
        } else if m <= 128 {
            Some(4)
        } else if m <= 256 {
            Some(5)
        } else if m <= 512 {
            Some(6)
        } else if m <= 1024 {
            Some(7)
        } else if m <= 2048 {
            Some(8)
        } else {
            None
        }
    }

    /// Serves a request of `res` bytes at alignment `al` by first-fit
    /// carving from the fallback region; records the allocation as live.
    #[verifier::loop_isolation(false)]
    fn carve(&mut self, res: u64, al: u64, is_class: bool) -> (r: Option<u64>)
        requires
            old(self).wf(),
            res >= 1,
            is_pow2_u64(al),
            is_class ==> al == res,
        ensures
            final(self).wf(),
            final(self).lo() == old(self).lo(),
            final(self).hi() == old(self).hi(),
            final(self).lists() == old(self).lists(),
            (r is Some) <==> exists|j: int|
                0 <= j < old(self).fb().len() && spec_fits(#[trigger] old(self).fb()[j], res, al),
            r is None ==> final(self).fb() == old(self).fb() && final(self).live_map() == old(
                self,
            ).live_map(),
            r is Some ==> {
                let a = r->0;
                &&& a % al == 0
                &&& old(self).lo() <= a
                &&& a + res <= old(self).hi()
                &&& !old(self).live_map().contains_key(a)
                &&& forall|b: u64| #[trigger]
                    old(self).live_map().contains_key(b) ==> ranges_disjoint(
                        a as int,
                        a + res,
                        b as int,
                        b + old(self).live_map()[b].0,
                    )
                &&& final(self).live_map() == old(self).live_map().insert(a, (res, is_class))
            },
            r is Some ==> spec_carved(*old(self), *final(self), r->0, res, al),
    {
        let ghost oldself = *old(self);
        proof {
            let n0 = choose|n0: nat| n0 <= 63 && al as nat == pow2(n0);
            lemma_pow2_pos(n0);
        }
        let n = self.fallback.len();
        let mut j: usize = 0;
        while j < n
            invariant
                j <= n,
                n == self.fallback@.len(),
                *self == oldself,
                self.wf(),
                res >= 1,
                al >= 1,
                is_pow2_u64(al),
                forall|j2: int| 0 <= j2 < j ==> !spec_fits(#[trigger] self.fb()[j2], res, al),
            decreases n - j,
        {
            let (s, e) = self.fallback[j];
            // Decide whether this extent fits, without overflowing.
            let aligned: Option<u64> = if s % al == 0 {
                Some(s)
            } else {
                let delta = al - s % al;
                if delta <= u64::MAX - s {
                    Some(align_up_u64(s, al))
                } else {
                    None
                }
            };
            match aligned {
                Some(a) => {
                    if a <= e && res <= e - a {
                        // This extent serves the request: carve [a, a + res)
                        // out, keeping both leftover pieces.
                        assert(spec_fits(oldself.fb()[j as int], res, al));
                        let ghost newlive = oldself.live@.insert(a, (res, is_class));
                        self.fallback[j] = (s, a);
                        self.fallback.push((a + res, e));
                        proof {
                            self.live@ = newlive;
                            lemma_carve_wf(oldself, *self, j as int, s, e, a, res, al, is_class);
                            assert(spec_carved(oldself, *self, a, res, al)) by {
                                assert(self.fb() =~= oldself.fb().update(j as int, (s, a)).push(
                                    ((a + res) as u64, e),
                                ));
                                assert({
                                    &&& 0 <= j < oldself.fb().len()
                                    &&& spec_fits(oldself.fb()[j as int], res, al)
                                    &&& forall|j2: int|
                                        0 <= j2 < j ==> !spec_fits(
                                            #[trigger] oldself.fb()[j2],
                                            res,
                                            al,
                                        )
                                    &&& a == spec_align_up(
                                        oldself.fb()[j as int].0 as int,
                                        al as int,
                                    )
                                    &&& self.fb() == oldself.fb().update(
                                        j as int,
                                        (oldself.fb()[j as int].0, a),
                                    ).push(((a + res) as u64, oldself.fb()[j as int].1))
                                });
                            }
                        }
                        return Some(a);
                    }
                },
                None => {
                    proof {
                        assert(!spec_fits(oldself.fb()[j as int], res, al)) by {
                            assert(spec_align_up(s as int, al as int) > u64::MAX);
                            assert(oldself.fb()[j as int].1 <= u64::MAX);
                        }
                    }
                },
            }
            proof {
                assert(!spec_fits(oldself.fb()[j as int], res, al));
            }
            j = j + 1;
        }
        None
    }

    /// Allocates `size` bytes at the given power-of-two alignment, or
    /// returns `None` when neither the matching free list nor the fallback
    /// region can serve the request. The returned range is fresh: it
    /// overlaps no other live allocation.
    pub fn allocate(&mut self, size: u64, align: u64) -> (r: Option<u64>)
        requires
            old(self).wf(),
            size >= 1,
            is_pow2_u64(align),
        ensures
            final(self).wf(),
            final(self).lo() == old(self).lo(),
            final(self).hi() == old(self).hi(),
            r is None ==> final(self).lists() == old(self).lists() && final(self).fb() == old(
                self,
            ).fb() && final(self).live_map() == old(self).live_map(),
            r is Some ==> {
                let a = r->0;
                let res = spec_reserved(size, align);
                &&& a % align == 0
                &&& old(self).lo() <= a
                &&& a + res <= old(self).hi()
                &&& !old(self).live_map().contains_key(a)
                &&& forall|b: u64| #[trigger]
                    old(self).live_map().contains_key(b) ==> ranges_disjoint(
                        a as int,
                        a + res,
                        b as int,
                        b + old(self).live_map()[b].0,
                    )
                &&& final(self).live_map() == old(self).live_map().insert(
                    a,
                    (res, spec_class_of(size, align) is Some),
                )
            },
            match spec_class_of(size, align) {
                Some(k) => {
                    &&& old(self).lists()[k].len() > 0 ==> {
                        &&& r == Some(old(self).lists()[k].last())
                        &&& final(self).lists() == old(self).lists().update(
                            k,
                            old(self).lists()[k].drop_last(),
                        )
                        &&& final(self).fb() == old(self).fb()
                    }
                    &&& old(self).lists()[k].len() == 0 ==> ((r is Some) <==> exists|j: int|
                        0 <= j < old(self).fb().len() && spec_fits(
                            #[trigger] old(self).fb()[j],
                            spec_csize(k),
                            spec_csize(k),
                        ))
                    &&& (old(self).lists()[k].len() == 0 && r is Some) ==> spec_carved(
                        *old(self),
                        *final(self),
                        r->0,
                        spec_csize(k),
                        spec_csize(k),
                    )
                },
                None => {
                    &&& ((r is Some) <==> exists|j: int|
                        0 <= j < old(self).fb().len() && spec_fits(
                            #[trigger] old(self).fb()[j],
                            size,
                            align,
                        ))
                    &&& r is Some ==> spec_carved(*old(self), *final(self), r->0, size, align)
                },
            },
    {
        let ghost oldself = *old(self);
        match Self::class_of(size, align) {
            Some(k) => {
                let csize = Self::csize_of(k);
                proof {
                    lemma_csize_pow2(k as int);
                    lemma_align_divides_class(align, csize, size);
                }
                let mut lst: Vec<u64> = Vec::new();
                self.free_lists.set_and_swap(k, &mut lst);
                let popped = lst.pop();
                self.free_lists.set_and_swap(k, &mut lst);
                proof {
                    assert(self.free_lists@ =~= oldself.free_lists@.update(
                        k as int,
                        self.free_lists@[k as int],
                    ));
                }
                match popped {
                    Some(b) => {
                        proof {
                            self.live@ = oldself.live@.insert(b, (csize, true));
                            let oldlists = oldself.lists();
                            let last = oldlists[k as int].len() - 1;
                            assert(b == oldlists[k as int][last]);
                            assert(self.lists() =~~= oldlists.update(
                                k as int,
                                oldlists[k as int].drop_last(),
                            ));
                            lemma_pop_wf(oldself, *self, k as int, b);
                            assert(b % spec_csize(k as int) == 0);
                            lemma_mod_divides_align(b, csize, align);
                        }
                        Some(b)
                    },
                    None => {
                        proof {
                            assert(self.lists() =~~= oldself.lists());
                            assert(self.fb() == oldself.fb());
                            assert(self.live_map() == oldself.live_map());
                            assert(self.wf());
                        }
                        let r = self.carve(csize, csize, true);
                        proof {
                            if r is Some {
                                lemma_mod_divides_align(r->0, csize, align);
                            }
                        }
                        r
                    },
                }
            },
            None => self.carve(size, align, false),
        }
    }

    /// Returns an allocation. The size and alignment must be those the
    /// block was allocated with, as the language-level deallocation
    /// interface guarantees. Class blocks go back on their free list in
    /// constant time; fallback allocations become a free extent again.
    pub fn deallocate(&mut self, addr: u64, size: u64, align: u64)
        requires
            old(self).wf(),
            size >= 1,
            is_pow2_u64(align),
            old(self).live_map().contains_key(addr),
            old(self).live_map()[addr] == (
                spec_reserved(size, align),
                spec_class_of(size, align) is Some,
            ),
        ensures
            final(self).wf(),
            final(self).lo() == old(self).lo(),
            final(self).hi() == old(self).hi(),
            final(self).live_map() == old(self).live_map().remove(addr),
            match spec_class_of(size, align) {
                Some(k) => {
                    &&& final(self).lists() == old(self).lists().update(
                        k,
                        old(self).lists()[k].push(addr),
                    )
                    &&& final(self).fb() == old(self).fb()
                },
                None => {
                    &&& final(self).lists() == old(self).lists()
                    &&& final(self).fb() == old(self).fb().push((addr, (addr + size) as u64))
                },
            },
    {
        let ghost oldself = *old(self);
        match Self::class_of(size, align) {
            Some(k) => {
                let mut lst: Vec<u64> = Vec::new();
                self.free_lists.set_and_swap(k, &mut lst);
                lst.push(addr);
                self.free_lists.set_and_swap(k, &mut lst);
                proof {
                    self.live@ = oldself.live@.remove(addr);
                    assert(self.lists() =~~= oldself.lists().update(
                        k as int,
                        oldself.lists()[k as int].push(addr),
                    ));
                    lemma_dealloc_class_wf(oldself, *self, k as int, addr);
                }
            },
            None => {
                proof {
                    assert(addr + size <= oldself.hi());
                }
                self.fallback.push((addr, addr + size));
                proof {
                    self.live@ = oldself.live@.remove(addr);
                    lemma_dealloc_fb_wf(oldself, *self, addr, size);
                }
            },
        }
    }
}


/// Carving `[a, a + res)` out of extent `j` preserves consistency: both
/// leftover pieces stay inside the old extent, and the new allocation is
/// disjoint from everything else.
proof fn lemma_carve_wf(
    oldh: HeapAllocator,
    newh: HeapAllocator,
    j: int,
    s: u64,
    e: u64,
    a: u64,
    res: u64,
    al: u64,
    is_class: bool,
)
    requires
        oldh.wf(),
        0 <= j < oldh.fb().len(),
        oldh.fb()[j] == (s, e),
        a as int == spec_align_up(s as int, al as int),
        al >= 1,
        res >= 1,
        is_class ==> al == res,
        s <= a,
        a + res <= e,
        newh.lo() == oldh.lo(),
        newh.hi() == oldh.hi(),
        newh.lists() == oldh.lists(),
        newh.fb() == oldh.fb().update(j, (s, a)).push(((a + res) as u64, e)),
        newh.live_map() == oldh.live_map().insert(a, (res, is_class)),
    ensures
        newh.wf(),
        a % al == 0,
        !oldh.live_map().contains_key(a),
        forall|b: u64| #[trigger]
            oldh.live_map().contains_key(b) ==> ranges_disjoint(
                a as int,
                a + res,
                b as int,
                b + oldh.live_map()[b].0,
            ),
{
    let lo = oldh.lo() as int;
    let hi = oldh.hi() as int;
    let oldfb = oldh.fb();
    let fb = newh.fb();
    let lists = newh.lists();
    let oldlive = oldh.live_map();
    let live = newh.live_map();
    let si = s as int;
    let ali = al as int;
    assert(lo <= si && e as int <= hi);
    assert(a % al == 0) by {
        if si % ali == 0 {
        } else {
            vstd::arithmetic::div_mod::lemma_fundamental_div_mod(si, ali);
            assert(a as int == (si / ali + 1) * ali) by (nonlinear_arith)
                requires
                    a as int == si + (ali - si % ali),
                    si == ali * (si / ali) + si % ali,
            ;
            lemma_mod_multiples_basic(si / ali + 1, ali);
        }
    }
    // The carved range would overlap extent j if it were a live address.
    assert(!oldlive.contains_key(a)) by {
        if oldlive.contains_key(a) {
            assert(ranges_disjoint(si, e as int, a as int, a + oldlive[a].0));
        }
    }
    assert forall|b: u64| #[trigger]
        oldlive.contains_key(b) implies ranges_disjoint(
        a as int,
        a + res,
        b as int,
        b + oldlive[b].0,
    ) by {
        assert(ranges_disjoint(si, e as int, b as int, b + oldlive[b].0));
    }
    // Extent bounds.
    assert forall|j2: int| 0 <= j2 < fb.len() implies lo <= (#[trigger] fb[j2]).0 <= fb[j2].1
        <= hi by {
        if j2 < oldfb.len() && j2 != j {
            assert(fb[j2] == oldfb[j2]);
        }
    }
    // Extents pairwise disjoint.
    assert forall|j1: int, j2: int|
        0 <= j1 < fb.len() && 0 <= j2 < fb.len() && j1 != j2 implies ranges_disjoint(
        (#[trigger] fb[j1]).0 as int,
        fb[j1].1 as int,
        (#[trigger] fb[j2]).0 as int,
        fb[j2].1 as int,
    ) by {
        let last = oldfb.len() as int;
        if j1 != j && j1 != last {
            assert(fb[j1] == oldfb[j1]);
            assert(ranges_disjoint(oldfb[j1].0 as int, oldfb[j1].1 as int, si, e as int));
        }
        if j2 != j && j2 != last {
            assert(fb[j2] == oldfb[j2]);
            assert(ranges_disjoint(oldfb[j2].0 as int, oldfb[j2].1 as int, si, e as int));
        }
    }
    // Free blocks avoid the old extent, so also both pieces of it.
    assert forall|k: int, i: int, j2: int|
        0 <= k < NUM_CLASSES && 0 <= i < lists[k].len() && 0 <= j2 < fb.len()
        implies ranges_disjoint(
        #[trigger] lists[k][i] as int,
        lists[k][i] + spec_csize(k),
        (#[trigger] fb[j2]).0 as int,
        fb[j2].1 as int,
    ) by {
        assert(ranges_disjoint(lists[k][i] as int, lists[k][i] + spec_csize(k), si, e as int));
        if j2 < oldfb.len() && j2 != j {
            assert(fb[j2] == oldfb[j2]);
            assert(ranges_disjoint(
                lists[k][i] as int,
                lists[k][i] + spec_csize(k),
                oldfb[j2].0 as int,
                oldfb[j2].1 as int,
            ));
        }
    }
    // Live bookkeeping.
    assert forall|b: u64| #[trigger] live.contains_key(b) implies {
        &&& lo <= b
        &&& b + live[b].0 <= hi
        &&& live[b].0 >= 1
        &&& live[b].1 ==> b % live[b].0 == 0
    } by {
        if b != a {
            assert(oldlive.contains_key(b));
        }
    }
    assert forall|b1: u64, b2: u64|
        #[trigger] live.contains_key(b1) && #[trigger] live.contains_key(b2) && b1 != b2
        implies ranges_disjoint(b1 as int, b1 + live[b1].0, b2 as int, b2 + live[b2].0) by {
        if b1 == a {
            assert(ranges_disjoint(si, e as int, b2 as int, b2 + oldlive[b2].0));
        } else if b2 == a {
            assert(ranges_disjoint(si, e as int, b1 as int, b1 + oldlive[b1].0));
        } else {
            assert(oldlive.contains_key(b1) && oldlive.contains_key(b2));
        }
    }
    assert forall|k: int, i: int, b: u64|
        0 <= k < NUM_CLASSES && 0 <= i < lists[k].len() && live.contains_key(b)
        implies ranges_disjoint(
        #[trigger] lists[k][i] as int,
        lists[k][i] + spec_csize(k),
        b as int,
        b + (#[trigger] live[b]).0,
    ) by {
        if b == a {
            assert(ranges_disjoint(lists[k][i] as int, lists[k][i] + spec_csize(k), si, e as int));
        } else {
            assert(oldlive.contains_key(b));
            assert(ranges_disjoint(
                lists[k][i] as int,
                lists[k][i] + spec_csize(k),
                b as int,
                b + oldlive[b].0,
            ));
        }
    }
    assert forall|j2: int, b: u64|
        0 <= j2 < fb.len() && live.contains_key(b) implies ranges_disjoint(
        (#[trigger] fb[j2]).0 as int,
        fb[j2].1 as int,
        b as int,
        b + (#[trigger] live[b]).0,
    ) by {
        let last = oldfb.len() as int;
        if b == a {
            if j2 != j && j2 != last {
                assert(fb[j2] == oldfb[j2]);
                assert(ranges_disjoint(oldfb[j2].0 as int, oldfb[j2].1 as int, si, e as int));
            }
        } else {
            assert(oldlive.contains_key(b));
            assert(ranges_disjoint(si, e as int, b as int, b + oldlive[b].0));
            if j2 != j && j2 != last {
                assert(fb[j2] == oldfb[j2]);
                assert(ranges_disjoint(
                    oldfb[j2].0 as int,
                    oldfb[j2].1 as int,
                    b as int,
                    b + oldlive[b].0,
                ));
            }
        }
    }
    assert(newh.wf());
}

/// Taking the last block of a free list preserves consistency: the block
/// becomes live and everything else keeps its place.
proof fn lemma_pop_wf(oldh: HeapAllocator, newh: HeapAllocator, k: int, b: u64)
    requires
        oldh.wf(),
        0 <= k < NUM_CLASSES,
        oldh.lists()[k].len() > 0,
        b == oldh.lists()[k].last(),
        newh.lo() == oldh.lo(),
        newh.hi() == oldh.hi(),
        newh.lists() == oldh.lists().update(k, oldh.lists()[k].drop_last()),
        newh.fb() == oldh.fb(),
        newh.live_map() == oldh.live_map().insert(b, (spec_csize(k), true)),
    ensures
        newh.wf(),
        !oldh.live_map().contains_key(b),
        forall|b2: u64| #[trigger]
            oldh.live_map().contains_key(b2) ==> ranges_disjoint(
                b as int,
                b + spec_csize(k),
                b2 as int,
                b2 + oldh.live_map()[b2].0,
            ),
{
    let lo = oldh.lo() as int;
    let hi = oldh.hi() as int;
    let oldlists = oldh.lists();
    let lists = newh.lists();
    let fb = newh.fb();
    let oldlive = oldh.live_map();
    let live = newh.live_map();
    let last = oldlists[k].len() - 1;
    assert(oldlists[k][last] == b);
    assert forall|k2: int, i2: int|
        0 <= k2 < NUM_CLASSES && 0 <= i2 < lists[k2].len() implies #[trigger] lists[k2][i2]
        == oldlists[k2][i2] by {}
    assert(!oldlive.contains_key(b)) by {
        if oldlive.contains_key(b) {
            assert(ranges_disjoint(b as int, b + spec_csize(k), b as int, b + oldlive[b].0));
            assert(oldlive[b].0 >= 1);
        }
    }
    assert forall|b2: u64| #[trigger]
        oldlive.contains_key(b2) implies ranges_disjoint(
        b as int,
        b + spec_csize(k),
        b2 as int,
        b2 + oldlive[b2].0,
    ) by {}
    assert forall|b1: u64, b2: u64|
        #[trigger] live.contains_key(b1) && #[trigger] live.contains_key(b2) && b1 != b2
        implies ranges_disjoint(b1 as int, b1 + live[b1].0, b2 as int, b2 + live[b2].0) by {
        if b1 == b {
            assert(oldlive.contains_key(b2));
            assert(ranges_disjoint(
                oldlists[k][last] as int,
                oldlists[k][last] + spec_csize(k),
                b2 as int,
                b2 + oldlive[b2].0,
            ));
        } else if b2 == b {
            assert(oldlive.contains_key(b1));
            assert(ranges_disjoint(
                oldlists[k][last] as int,
                oldlists[k][last] + spec_csize(k),
                b1 as int,
                b1 + oldlive[b1].0,
            ));
        } else {
            assert(oldlive.contains_key(b1) && oldlive.contains_key(b2));
        }
    }
    assert forall|k2: int, i2: int, b2: u64|
        0 <= k2 < NUM_CLASSES && 0 <= i2 < lists[k2].len() && live.contains_key(b2)
        implies ranges_disjoint(
        #[trigger] lists[k2][i2] as int,
        lists[k2][i2] + spec_csize(k2),
        b2 as int,
        b2 + (#[trigger] live[b2]).0,
    ) by {
        if b2 == b {
            assert(!(k2 == k && i2 == last));
            assert(ranges_disjoint(
                oldlists[k2][i2] as int,
                oldlists[k2][i2] + spec_csize(k2),
                oldlists[k][last] as int,
                oldlists[k][last] + spec_csize(k),
            ));
        } else {
            assert(oldlive.contains_key(b2));
            assert(ranges_disjoint(
                oldlists[k2][i2] as int,
                oldlists[k2][i2] + spec_csize(k2),
                b2 as int,
                b2 + oldlive[b2].0,
            ));
        }
    }
    assert forall|j2: int, b2: u64|
        0 <= j2 < fb.len() && live.contains_key(b2) implies ranges_disjoint(
        (#[trigger] fb[j2]).0 as int,
        fb[j2].1 as int,
        b2 as int,
        b2 + (#[trigger] live[b2]).0,
    ) by {
        if b2 == b {
            assert(ranges_disjoint(
                oldlists[k][last] as int,
                oldlists[k][last] + spec_csize(k),
                oldh.fb()[j2].0 as int,
                oldh.fb()[j2].1 as int,
            ));
        } else {
            assert(oldlive.contains_key(b2));
        }
    }
    assert(newh.wf());
}

/// Returning a class block to its free list preserves consistency.
proof fn lemma_dealloc_class_wf(oldh: HeapAllocator, newh: HeapAllocator, k: int, addr: u64)
    requires
        oldh.wf(),
        0 <= k < NUM_CLASSES,
        oldh.live_map().contains_key(addr),
        oldh.live_map()[addr] == (spec_csize(k), true),
        newh.lo() == oldh.lo(),
        newh.hi() == oldh.hi(),
        newh.lists() == oldh.lists().update(k, oldh.lists()[k].push(addr)),
        newh.fb() == oldh.fb(),
        newh.live_map() == oldh.live_map().remove(addr),
    ensures
        newh.wf(),
{
    let lo = oldh.lo() as int;
    let hi = oldh.hi() as int;
    let oldlists = oldh.lists();
    let lists = newh.lists();
    let fb = newh.fb();
    let oldlive = oldh.live_map();
    let live = newh.live_map();
    let last = oldlists[k].len() as int;
    assert(lists[k][last] == addr);
    assert(addr % spec_csize(k) == 0 && addr + spec_csize(k) <= hi && lo <= addr);
    assert forall|k2: int, i2: int|
        0 <= k2 < NUM_CLASSES && 0 <= i2 < lists[k2].len() && !(k2 == k && i2 == last)
        implies #[trigger] lists[k2][i2] == oldlists[k2][i2] by {}
    assert forall|k1: int, i1: int, k2: int, i2: int|
        0 <= k1 < NUM_CLASSES && 0 <= i1 < lists[k1].len() && 0 <= k2 < NUM_CLASSES && 0 <= i2
            < lists[k2].len() && !(k1 == k2 && i1 == i2) implies ranges_disjoint(
        #[trigger] lists[k1][i1] as int,
        lists[k1][i1] + spec_csize(k1),
        #[trigger] lists[k2][i2] as int,
        lists[k2][i2] + spec_csize(k2),
    ) by {
        if k1 == k && i1 == last {
            assert(oldlive.contains_key(addr));
            assert(ranges_disjoint(
                oldlists[k2][i2] as int,
                oldlists[k2][i2] + spec_csize(k2),
                addr as int,
                addr + oldlive[addr].0,
            ));
        } else if k2 == k && i2 == last {
            assert(oldlive.contains_key(addr));
            assert(ranges_disjoint(
                oldlists[k1][i1] as int,
                oldlists[k1][i1] + spec_csize(k1),
                addr as int,
                addr + oldlive[addr].0,
            ));
        }
    }
    assert forall|k2: int, i2: int, j2: int|
        0 <= k2 < NUM_CLASSES && 0 <= i2 < lists[k2].len() && 0 <= j2 < fb.len()
        implies ranges_disjoint(
        #[trigger] lists[k2][i2] as int,
        lists[k2][i2] + spec_csize(k2),
        (#[trigger] fb[j2]).0 as int,
        fb[j2].1 as int,
    ) by {
        if k2 == k && i2 == last {
            assert(ranges_disjoint(
                oldh.fb()[j2].0 as int,
                oldh.fb()[j2].1 as int,
                addr as int,
                addr + oldlive[addr].0,
            ));
        }
    }
    assert forall|k2: int, i2: int, b2: u64|
        0 <= k2 < NUM_CLASSES && 0 <= i2 < lists[k2].len() && live.contains_key(b2)
        implies ranges_disjoint(
        #[trigger] lists[k2][i2] as int,
        lists[k2][i2] + spec_csize(k2),
        b2 as int,
        b2 + (#[trigger] live[b2]).0,
    ) by {
        assert(oldlive.contains_key(b2));
        if k2 == k && i2 == last {
            assert(b2 != addr);
            assert(ranges_disjoint(
                addr as int,
                addr + oldlive[addr].0,
                b2 as int,
                b2 + oldlive[b2].0,
            ));
        } else {
            assert(ranges_disjoint(
                oldlists[k2][i2] as int,
                oldlists[k2][i2] + spec_csize(k2),
                b2 as int,
                b2 + oldlive[b2].0,
            ));
        }
    }
    assert(newh.wf());
}

/// Returning a fallback allocation as a free extent preserves consistency.
proof fn lemma_dealloc_fb_wf(oldh: HeapAllocator, newh: HeapAllocator, addr: u64, size: u64)
    requires
        oldh.wf(),
        size >= 1,
        oldh.live_map().contains_key(addr),
        oldh.live_map()[addr] == (size, false),
        addr + size <= u64::MAX,
        newh.lo() == oldh.lo(),
        newh.hi() == oldh.hi(),
        newh.lists() == oldh.lists(),
        newh.fb() == oldh.fb().push((addr, (addr + size) as u64)),
        newh.live_map() == oldh.live_map().remove(addr),
    ensures
        newh.wf(),
{
    let lo = oldh.lo() as int;
    let hi = oldh.hi() as int;
    let oldfb = oldh.fb();
    let fb = newh.fb();
    let lists = newh.lists();
    let oldlive = oldh.live_map();
    let live = newh.live_map();
    let last = oldfb.len() as int;
    assert(fb[last] == (addr, (addr + size) as u64));
    assert forall|j1: int, j2: int|
        0 <= j1 < fb.len() && 0 <= j2 < fb.len() && j1 != j2 implies ranges_disjoint(
        (#[trigger] fb[j1]).0 as int,
        fb[j1].1 as int,
        (#[trigger] fb[j2]).0 as int,
        fb[j2].1 as int,
    ) by {
        if j1 == last {
            assert(ranges_disjoint(
                oldfb[j2].0 as int,
                oldfb[j2].1 as int,
                addr as int,
                addr + oldlive[addr].0,
            ));
        } else if j2 == last {
            assert(ranges_disjoint(
                oldfb[j1].0 as int,
                oldfb[j1].1 as int,
                addr as int,
                addr + oldlive[addr].0,
            ));
        }
    }
    assert forall|k2: int, i2: int, j2: int|
        0 <= k2 < NUM_CLASSES && 0 <= i2 < lists[k2].len() && 0 <= j2 < fb.len()
        implies ranges_disjoint(
        #[trigger] lists[k2][i2] as int,
        lists[k2][i2] + spec_csize(k2),
        (#[trigger] fb[j2]).0 as int,
        fb[j2].1 as int,
    ) by {
        if j2 == last {
            assert(ranges_disjoint(
                lists[k2][i2] as int,
                lists[k2][i2] + spec_csize(k2),
                addr as int,
                addr + oldlive[addr].0,
            ));
        }
    }
    assert forall|j2: int, b2: u64|
        0 <= j2 < fb.len() && live.contains_key(b2) implies ranges_disjoint(
        (#[trigger] fb[j2]).0 as int,
        fb[j2].1 as int,
        b2 as int,
        b2 + (#[trigger] live[b2]).0,
    ) by {
        assert(oldlive.contains_key(b2));
        if j2 == last {
            assert(b2 != addr);
            assert(ranges_disjoint(
                addr as int,
                addr + oldlive[addr].0,
                b2 as int,
                b2 + oldlive[b2].0,
            ));
        }
    }
    assert(newh.wf());
}


/// Maps the heap's virtual range, one fresh frame per page, and hands the
/// range to a new heap allocator.
///
/// Runs at boot over a range that nothing has mapped yet; the only failure
/// is frame exhaustion, which is reported, not retried, since retrying
/// cannot manufacture more memory, and which leaves the frame allocator
/// empty. Success is owed when the allocator holds four frames per heap
/// page: one backing frame and at most three table frames each.
#[verifier::loop_isolation(false)]
pub fn init_heap(mapper: &mut OffsetPageTable, fa: &mut BootInfoFrameAllocator) -> (r: Result<
    HeapAllocator,
    MapError,
>)
    requires
        old(mapper).wf(),
        old(fa).wf(),
        forall|p: u64|
            HEAP_START <= p < HEAP_START + HEAP_SIZE && p % 4096 == 0 ==> (#[trigger] old(mapper).spec_translate(p)) is None,
        forall|p: u64| !(#[trigger] old(mapper).hits_huge(p)),
    ensures
        final(mapper).wf(),
        final(fa).wf(),
        final(fa).spec_regions() == old(fa).spec_regions(),
        forall|q: u64|
            valid_page(q) && !(HEAP_START <= q < HEAP_START + HEAP_SIZE) ==> (#[trigger] final(mapper).spec_translate(q)) == old(mapper).spec_translate(q),
        old(fa).remaining() >= 4 * ((HEAP_SIZE / 4096) as int) ==> r is Ok,
        match r {
            Ok(h) => {
                &&& h.wf()
                &&& h.lo() == HEAP_START
                &&& h.hi() == HEAP_START + HEAP_SIZE
                &&& h.live_map() == Map::<u64, (u64, bool)>::empty()
                &&& forall|p: u64|
                    HEAP_START <= p < HEAP_START + HEAP_SIZE && p % 4096 == 0 ==> (
                    #[trigger] final(mapper).spec_translate(p)) is Some && (final(mapper).spec_translate(p)->0).1 == (PageFlags { writable: true })
            },
            Err(e) => {
                &&& e == MapError::FrameAllocationFailed
                &&& final(fa).exhausted()
            },
        },
{
    let pages = HEAP_SIZE / 4096;
    let mut i: u64 = 0;
    while i < pages
        invariant
            mapper.wf(),
            fa.wf(),
            fa.spec_regions() == old(fa).spec_regions(),
            i <= pages,
            pages == HEAP_SIZE / 4096,
            forall|q: u64|
                valid_page(q) && !(HEAP_START <= q < HEAP_START + i * 4096) ==> (
                #[trigger] mapper.spec_translate(q)) == old(mapper).spec_translate(q),
            forall|p: u64|
                HEAP_START <= p < HEAP_START + i * 4096 && p % 4096 == 0 ==> (
                #[trigger] mapper.spec_translate(p)) is Some && (mapper.spec_translate(p)->0).1
                    == (PageFlags { writable: true }),
            forall|p: u64| !(#[trigger] mapper.hits_huge(p)),
            old(fa).remaining() >= 4 * (pages as int) ==> fa.remaining() >= old(fa).remaining()
                - 4 * (i as int),
        decreases pages - i,
    {
        proof {
            assert(i * 4096 < HEAP_SIZE && i * 4096 + 4096 <= HEAP_SIZE) by (nonlinear_arith)
                requires
                    i < pages,
                    pages == HEAP_SIZE / 4096,
                    HEAP_SIZE == 102400,
            ;
        }
        let page = HEAP_START + i * 4096;
        proof {
            assert(page % 4096 == 0) by (nonlinear_arith)
                requires
                    page == HEAP_START + i * 4096,
                    HEAP_START % 4096 == 0,
            ;
            assert(valid_page(page));
            assert(old(mapper).spec_translate(page) is None);
            assert(mapper.spec_translate(page) is None);
        }
        proof {
            fa.lemma_remaining_zero();
            crate::paging::lemma_needed_bounds(*mapper, page);
        }
        let frame = match fa.allocate_frame() {
            Some(f) => f,
            None => {
                proof {
                    // With four frames per page still at hand the allocator
                    // cannot have run dry.
                    if old(fa).remaining() >= 4 * (pages as int) {
                        assert(fa.remaining() >= 4 * ((pages - i) as int));
                        assert(false);
                    }
                }
                return Err(MapError::FrameAllocationFailed);
            },
        };
        proof {
            crate::paging::lemma_needed_bounds(*mapper, page);
        }
        let res = mapper.map(page, frame, PageFlags { writable: true }, fa);
        match res {
            Ok(()) => {},
            Err(e) => {
                proof {
                    assert(e == MapError::FrameAllocationFailed);
                    if old(fa).remaining() >= 4 * (pages as int) {
                        assert(false);
                    }
                }
                return Err(e);
            },
        }
        proof {
            assert forall|p: u64|
                HEAP_START <= p < HEAP_START + (i + 1) * 4096 && p % 4096 == 0 implies (
            #[trigger] mapper.spec_translate(p)) is Some by {
                if p != page && p < HEAP_START + i * 4096 {
                    assert(valid_page(p));
                }
                if p != page && p >= HEAP_START + i * 4096 {
                    assert(p >= HEAP_START + i * 4096 && p < HEAP_START + i * 4096 + 4096 && p
                        % 4096 == 0 && (HEAP_START + i * 4096) % 4096 == 0 ==> p == HEAP_START + i
                        * 4096) by (nonlinear_arith);
                }
            }
        }
        i = i + 1;
    }
    proof {
        assert forall|p: u64|
            HEAP_START <= p < HEAP_START + HEAP_SIZE && p % 4096 == 0 implies (
        #[trigger] mapper.spec_translate(p)) is Some by {
            assert(pages * 4096 == HEAP_SIZE);
        }
    }
    Ok(HeapAllocator::new(HEAP_START, HEAP_SIZE))
}

/// Heap allocation non-overlap: any two distinct live allocations of a
/// consistent allocator occupy disjoint byte ranges.
pub proof fn lemma_live_disjoint(h: HeapAllocator, a1: u64, a2: u64)
    requires
        h.wf(),
        h.live_map().contains_key(a1),
        h.live_map().contains_key(a2),
        a1 != a2,
    ensures
        ranges_disjoint(
            a1 as int,
            a1 + h.live_map()[a1].0,
            a2 as int,
            a2 + h.live_map()[a2].0,
        ),
{
}

/// Every size class is a power of two of at least 8 bytes.
pub proof fn lemma_csize_pow2(k: int)
    requires
        0 <= k < NUM_CLASSES,
    ensures
        is_pow2_u64(spec_csize(k)),
        spec_csize(k) >= 8,
{
    lemma2_to64();
    assert(8 as nat == pow2(3) && 16 as nat == pow2(4) && 32 as nat == pow2(5) && 64 as nat
        == pow2(6) && 128 as nat == pow2(7) && 256 as nat == pow2(8) && 512 as nat == pow2(9)
        && 1024 as nat == pow2(10) && 2048 as nat == pow2(11));
}

/// A power-of-two divisor of a larger power of two divides whatever that
/// larger power divides.
proof fn lemma_pow2_mod_chain(a: int, n1: nat, n2: nat)
    requires
        n1 <= n2 <= 63,
        a % (pow2(n2) as int) == 0,
    ensures
        a % (pow2(n1) as int) == 0,
{
    lemma_pow2_adds(n1, (n2 - n1) as nat);
    lemma_pow2_pos(n1);
    lemma_pow2_pos((n2 - n1) as nat);
    let p1 = pow2(n1) as int;
    let p2 = pow2((n2 - n1) as nat) as int;
    lemma_mod_mod(a, p1, p2);
    assert(pow2(n2) == pow2(n1) * pow2((n2 - n1) as nat));
    assert(pow2(n2) as int == p1 * p2) by (nonlinear_arith)
        requires
            pow2(n2) == pow2(n1) * pow2((n2 - n1) as nat),
            p1 == pow2(n1) as int,
            p2 == pow2((n2 - n1) as nat) as int,
    ;
    assert((a % (p1 * p2)) % p1 == a % p1);
    assert(a % (p1 * p2) == 0);
    assert(0int % p1 == 0);
}

/// The requested alignment never exceeds the chosen class block size.
proof fn lemma_align_divides_class(align: u64, csize: u64, size: u64)
    requires
        spec_class_of(size, align) is Some,
        csize == spec_csize(spec_class_of(size, align)->0),
    ensures
        align <= csize,
{
}

/// An address aligned to a class block is aligned to any power-of-two
/// alignment the class covers.
proof fn lemma_mod_divides_align(a: u64, csize: u64, align: u64)
    requires
        is_pow2_u64(csize),
        is_pow2_u64(align),
        align <= csize,
        a % csize == 0,
    ensures
        a % align == 0,
{
    let n1 = choose|n: nat| n <= 63 && align as nat == pow2(n);
    let n2 = choose|n: nat| n <= 63 && csize as nat == pow2(n);
    if n1 > n2 {
        lemma_pow2_strictly_increases(n2, n1);
    }
    lemma_pow2_mod_chain(a as int, n1, n2);
}

} // verus!
