//! Virtual-address mapping.
//!
//! A 4-level translation structure binds page-aligned virtual addresses to
//! physical frames. Mapping walks from the root toward the leaf level,
//! drawing a fresh frame from the frame allocator for every table level that
//! is still absent, and installs the frame and flags in the leaf slot.
//! Remapping an existing page is an error, never a silent overwrite; a huge
//! mapping found where a table was expected is a fatal inconsistency
//! reported to the caller. All physical table memory is reached through the
//! boot-provided linear offset, kept here as the offset view.

use vstd::prelude::*;
use vstd::pervasive::VecAdditionalExecFns;
use crate::arch::{l1_index_of, l2_index_of, l3_index_of, l4_index_of, spec_l1_index, spec_l2_index, spec_l3_index, spec_l4_index};
use crate::frames::BootInfoFrameAllocator;

verus! {

/// Why a mapping request failed.
#[derive(Debug, Clone, Copy, PartialEq, Eq, Structural)]
pub enum MapError {
    /// The frame allocator ran out while creating an intermediate table.
    FrameAllocationFailed,
    /// An intermediate entry denotes a huge page where a table was expected.
    HugePageUnsupportedHere,
    /// The page already has a mapping; remapping needs an explicit unmap.
    PageAlreadyMapped,
}

/// Access flags of a mapping.
#[derive(Debug, Clone, Copy, PartialEq, Eq, Structural)]
pub struct PageFlags {
    pub writable: bool,
}

/// A page address this mapper accepts: page-aligned, in the lower canonical
/// half of the address space.
pub open spec fn valid_page(va: u64) -> bool {
    &&& va % 4096 == 0
    &&& va < 0x8000_0000_0000
}

/// Leaf-level entry: a mapped frame or nothing.
pub enum L1Entry {
    Absent,
    Mapped { frame: u64, flags: PageFlags },
}

/// Leaf table: 512 slots of mapped frames.
pub struct L1Table {
    pub entries: Vec<L1Entry>,
}

/// Mid-level entry: a child table (with the physical frame that holds it),
/// a huge mapping, or nothing.
pub enum L2Entry {
    Absent,
    Huge { frame: u64, flags: PageFlags },
    Table { frame: u64, table: L1Table },
}

/// Level-2 table.
pub struct L2Table {
    pub entries: Vec<L2Entry>,
}

/// Level-3 entry.
pub enum L3Entry {
    Absent,
    Huge { frame: u64, flags: PageFlags },
    Table { frame: u64, table: L2Table },
}

/// Level-3 table.
pub struct L3Table {
    pub entries: Vec<L3Entry>,
}

/// Root entry: a child table or nothing.
pub enum L4Entry {
    Absent,
    Table { frame: u64, table: L3Table },
}

impl L1Table {
    /// Full leaf table.
    pub open spec fn wf(self) -> bool {
        self.entries@.len() == 512
    }

    /// The mapping this table holds for the low bits of `va`.
    pub open spec fn lookup(self, va: u64) -> Option<(u64, PageFlags)> {
        match self.entries@[spec_l1_index(va)] {
            L1Entry::Absent => None,
            L1Entry::Mapped { frame, flags } => Some((frame, flags)),
        }
    }
}

impl L2Table {
    /// Full table of well-formed children.
    pub open spec fn wf(self) -> bool {
        &&& self.entries@.len() == 512
        &&& forall|i: int|
            0 <= i < 512 ==> match #[trigger] self.entries@[i] {
                L2Entry::Table { table, .. } => table.wf(),
                _ => true,
            }
    }

    /// Whether the walk for `va` meets a huge mapping at this level.
    pub open spec fn hits_huge(self, va: u64) -> bool {
        self.entries@[spec_l2_index(va)] is Huge
    }

    /// The mapping this subtree holds for `va`.
    pub open spec fn lookup(self, va: u64) -> Option<(u64, PageFlags)> {
        match self.entries@[spec_l2_index(va)] {
            L2Entry::Table { table, .. } => table.lookup(va),
            _ => None,
        }
    }

    /// Frames needed to complete the walk for `va` below this level.
    pub open spec fn needed(self, va: u64) -> int {
        match self.entries@[spec_l2_index(va)] {
            L2Entry::Absent => 1,
            _ => 0,
        }
    }
}

impl L3Table {
    /// Full table of well-formed children.
    pub open spec fn wf(self) -> bool {
        &&& self.entries@.len() == 512
        &&& forall|i: int|
            0 <= i < 512 ==> match #[trigger] self.entries@[i] {
                L3Entry::Table { table, .. } => table.wf(),
                _ => true,
            }
    }

    /// Whether the walk for `va` meets a huge mapping at or below this level.
    pub open spec fn hits_huge(self, va: u64) -> bool {
        match self.entries@[spec_l3_index(va)] {
            L3Entry::Huge { .. } => true,
            L3Entry::Table { table, .. } => table.hits_huge(va),
            L3Entry::Absent => false,
        }
    }

    /// The mapping this subtree holds for `va`.
    pub open spec fn lookup(self, va: u64) -> Option<(u64, PageFlags)> {
        match self.entries@[spec_l3_index(va)] {
            L3Entry::Table { table, .. } => table.lookup(va),
            _ => None,
        }
    }

    /// Frames needed to complete the walk for `va` below this level.
    pub open spec fn needed(self, va: u64) -> int {
        match self.entries@[spec_l3_index(va)] {
            L3Entry::Absent => 2,
            L3Entry::Huge { .. } => 0,
            L3Entry::Table { table, .. } => table.needed(va),
        }
    }
}

/// The 4-level translation structure, together with the physical-memory
/// offset through which table frames are reached.
pub struct OffsetPageTable {
    l4: Vec<L4Entry>,
    phys_offset: u64,
}

impl OffsetPageTable {
    /// Full root of well-formed subtrees.
    pub closed spec fn wf(self) -> bool {
        &&& self.l4@.len() == 512
        &&& forall|i: int|
            0 <= i < 512 ==> match #[trigger] self.l4@[i] {
                L4Entry::Table { table, .. } => table.wf(),
                L4Entry::Absent => true,
            }
    }

    /// The boot-provided offset at which physical memory is linearly mapped.
    pub closed spec fn spec_phys_offset(self) -> u64 {
        self.phys_offset
    }

    /// Whether the walk for `va` meets a huge mapping before the leaf level.
    pub closed spec fn hits_huge(self, va: u64) -> bool {
        match self.l4@[spec_l4_index(va)] {
            L4Entry::Table { table, .. } => table.hits_huge(va),
            L4Entry::Absent => false,
        }
    }

    /// The mapping the structure holds for `va`: the physical frame and its
    /// flags, or `None`.
    pub closed spec fn spec_translate(self, va: u64) -> Option<(u64, PageFlags)> {
        match self.l4@[spec_l4_index(va)] {
            L4Entry::Table { table, .. } => table.lookup(va),
            L4Entry::Absent => None,
        }
    }

    /// Table frames the walk for `va` still needs.
    pub closed spec fn spec_needed(self, va: u64) -> int {
        match self.l4@[spec_l4_index(va)] {
            L4Entry::Absent => 3,
            L4Entry::Table { table, .. } => table.needed(va),
        }
    }

    /// An empty mapper that reaches physical memory at the given offset.
    pub fn new(phys_offset: u64) -> (r: OffsetPageTable)
        ensures
            r.wf(),
            r.spec_phys_offset() == phys_offset,
            forall|q: u64| (#[trigger] r.spec_translate(q)) is None,
            forall|q: u64| !(#[trigger] r.hits_huge(q)),
    {
        let mut l4: Vec<L4Entry> = Vec::new();
        let mut i: usize = 0;
        while i < 512
            invariant
                i <= 512,
                l4@.len() == i,
                forall|j: int| 0 <= j < i ==> (#[trigger] l4@[j]) is Absent,
            decreases 512 - i,
        {
            l4.push(L4Entry::Absent);
            i = i + 1;
        }
        let r = OffsetPageTable { l4, phys_offset };
        proof {
            assert forall|q: u64| (#[trigger] r.spec_translate(q)) is None by {
                crate::arch::lemma_index_bounds(q);
            }
            assert forall|q: u64| !(#[trigger] r.hits_huge(q)) by {
                crate::arch::lemma_index_bounds(q);
            }
        }
        r
    }

    /// The virtual address at which a physical address can be read or
    /// written, under the offset view.
    pub fn phys_to_virt(&self, pa: u64) -> (r: u64)
        requires
            pa + self.spec_phys_offset() <= u64::MAX,
        ensures
            r == pa + self.spec_phys_offset(),
    {
        pa + self.phys_offset
    }

    /// Reads back the translation of a page: the frame and flags it is
    /// mapped to, or `None` when unmapped (including under a huge entry,
    /// which this mapper never creates).
    pub fn translate(&self, va: u64) -> (r: Option<(u64, PageFlags)>)
        requires
            self.wf(),
            valid_page(va),
        ensures
            r == self.spec_translate(va),
    {
        proof {
            crate::arch::lemma_index_bounds(va);
        }
        let i4 = l4_index_of(va);
        match &self.l4[i4] {
            L4Entry::Absent => None,
            L4Entry::Table { table: t3, .. } => {
                let i3 = l3_index_of(va);
                match &t3.entries[i3] {
                    L3Entry::Absent => None,
                    L3Entry::Huge { .. } => None,
                    L3Entry::Table { table: t2, .. } => {
                        let i2 = l2_index_of(va);
                        match &t2.entries[i2] {
                            L2Entry::Absent => None,
                            L2Entry::Huge { .. } => None,
                            L2Entry::Table { table: t1, .. } => {
                                let i1 = l1_index_of(va);
                                match &t1.entries[i1] {
                                    L1Entry::Absent => None,
                                    L1Entry::Mapped { frame, flags } => Some((*frame, *flags)),
                                }
                            },
                        }
                    },
                }
            },
        }
    }

    /// Binds the page-aligned virtual address `page` to `frame` with the
    /// given flags.
    ///
    /// Success is owed exactly when the walk meets no huge mapping, the page
    /// is not yet mapped, and the frame allocator still holds as many frames
    /// as the walk needs for absent intermediate tables. Every other mapping
    /// is left exactly as it was, whatever the outcome; a failed walk never
    /// maps the page.
    pub fn map(
        &mut self,
        page: u64,
        frame: u64,
        flags: PageFlags,
        fa: &mut BootInfoFrameAllocator,
    ) -> (r: Result<(), MapError>)
        requires
            old(self).wf(),
            valid_page(page),
            old(fa).wf(),
        ensures
            final(self).wf(),
            final(fa).wf(),
            final(fa).spec_regions() == old(fa).spec_regions(),
            final(self).spec_phys_offset() == old(self).spec_phys_offset(),
            forall|q: u64|
                valid_page(q) && q != page ==> (#[trigger] final(self).spec_translate(q)) == old(self).spec_translate(q),
            forall|q: u64| (#[trigger] final(self).hits_huge(q)) == old(self).hits_huge(q),
            match r {
                Ok(()) => {
                    &&& !old(self).hits_huge(page)
                    &&& old(self).spec_translate(page) is None
                    &&& old(self).spec_needed(page) <= old(fa).remaining()
                    &&& final(self).spec_translate(page) == Some((frame, flags))
                    &&& final(fa).remaining() == old(fa).remaining() - old(self).spec_needed(page)
                },
                Err(MapError::HugePageUnsupportedHere) => {
                    &&& old(self).hits_huge(page)
                    &&& forall|q: u64| (#[trigger] final(self).spec_translate(q)) == old(self).spec_translate(q)
                    &&& *final(fa) == *old(fa)
                },
                Err(MapError::PageAlreadyMapped) => {
                    &&& !old(self).hits_huge(page)
                    &&& old(self).spec_translate(page) is Some
                    &&& forall|q: u64| (#[trigger] final(self).spec_translate(q)) == old(self).spec_translate(q)
                    &&& *final(fa) == *old(fa)
                },
                Err(MapError::FrameAllocationFailed) => {
                    &&& !old(self).hits_huge(page)
                    &&& old(self).spec_translate(page) is None
                    &&& old(self).spec_needed(page) > old(fa).remaining()
                    &&& final(fa).exhausted()
                    &&& forall|q: u64| (#[trigger] final(self).spec_translate(q)) == old(self).spec_translate(q)
                },
            },
    {
        proof {
            crate::arch::lemma_index_bounds(page);
            old(fa).lemma_remaining_zero();
        }
        let i4 = l4_index_of(page);
        let kind: u8 = match &self.l4[i4] {
            L4Entry::Absent => 0,
            L4Entry::Table { .. } => 2,
        };
        if kind == 0 {
            match fa.allocate_frame() {
                None => {
                    return Err(MapError::FrameAllocationFailed);
                },
                Some(f3) => {
                    let t3 = new_l3_table();
                    self.l4[i4] = L4Entry::Table { frame: f3, table: t3 };
                },
            }
        }
        let mut taken = L4Entry::Absent;
        self.l4.set_and_swap(i4, &mut taken);
        match taken {
            L4Entry::Table { frame: tf, table: mut t3 } => {
                let inner = map_l3(&mut t3, page, frame, flags, fa);
                self.l4[i4] = L4Entry::Table { frame: tf, table: t3 };
                proof {
                    assert forall|q: u64|
                        valid_page(q) && q != page implies (#[trigger] final(self).spec_translate(q)) == old(self).spec_translate(q) by {
                        crate::arch::lemma_index_bounds(q);
                        if spec_l4_index(q) == spec_l4_index(page) && spec_l3_index(q)
                            == spec_l3_index(page) && spec_l2_index(q) == spec_l2_index(page)
                            && spec_l1_index(q) == spec_l1_index(page) {
                            crate::arch::lemma_indices_determine_page(q, page);
                        }
                    }
                    assert forall|q: u64| (#[trigger] final(self).hits_huge(q)) == old(self).hits_huge(q) by {
                        crate::arch::lemma_index_bounds(q);
                    }
                }
                match inner {
                    Ok(()) => Ok(()),
                    Err(e) => {
                        proof {
                            assert forall|q: u64| (#[trigger] final(self).spec_translate(q))
                                == old(self).spec_translate(q) by {
                                crate::arch::lemma_index_bounds(q);
                            }
                        }
                        if kind == 0 {
                            // A fresh level-3 subtree can only fail for want
                            // of a frame.
                            proof {
                                if e != MapError::FrameAllocationFailed {
                                    assert(false);
                                }
                            }
                        }
                        Err(e)
                    },
                }
            },
            _ => {
                proof {
                    assert(false);
                }
                Err(MapError::PageAlreadyMapped)
            },
        }
    }
}


/// A mapping walk never needs more than three fresh table frames.
pub proof fn lemma_needed_bounds(m: OffsetPageTable, va: u64)
    ensures
        0 <= m.spec_needed(va) <= 3,
{
}

/// A fresh, empty leaf table.
fn new_l1_table() -> (r: L1Table)
    ensures
        r.wf(),
        forall|q: u64| (#[trigger] r.lookup(q)) is None,
{
    let mut entries: Vec<L1Entry> = Vec::new();
    let mut i: usize = 0;
    while i < 512
        invariant
            i <= 512,
            entries@.len() == i,
            forall|j: int| 0 <= j < i ==> (#[trigger] entries@[j]) is Absent,
        decreases 512 - i,
    {
        entries.push(L1Entry::Absent);
        i = i + 1;
    }
    let r = L1Table { entries };
    proof {
        assert forall|q: u64| (#[trigger] r.lookup(q)) is None by {
            crate::arch::lemma_index_bounds(q);
        }
    }
    r
}

/// A fresh, empty level-2 table.
fn new_l2_table() -> (r: L2Table)
    ensures
        r.wf(),
        forall|q: u64| (#[trigger] r.lookup(q)) is None,
        forall|q: u64| !(#[trigger] r.hits_huge(q)),
        forall|q: u64| (#[trigger] r.needed(q)) == 1,
{
    let mut entries: Vec<L2Entry> = Vec::new();
    let mut i: usize = 0;
    while i < 512
        invariant
            i <= 512,
            entries@.len() == i,
            forall|j: int| 0 <= j < i ==> (#[trigger] entries@[j]) is Absent,
        decreases 512 - i,
    {
        entries.push(L2Entry::Absent);
        i = i + 1;
    }
    let r = L2Table { entries };
    proof {
        assert forall|q: u64| (#[trigger] r.lookup(q)) is None by {
            crate::arch::lemma_index_bounds(q);
        }
        assert forall|q: u64| !(#[trigger] r.hits_huge(q)) by {
            crate::arch::lemma_index_bounds(q);
        }
        assert forall|q: u64| (#[trigger] r.needed(q)) == 1 by {
            crate::arch::lemma_index_bounds(q);
        }
    }
    r
}

/// Installs the frame in the leaf slot for `va`, unless one is already
/// there.
fn map_l1(t1: &mut L1Table, va: u64, frame: u64, flags: PageFlags) -> (r: Result<(), MapError>)
    requires
        old(t1).wf(),
        valid_page(va),
    ensures
        final(t1).wf(),
        forall|q: u64|
            spec_l1_index(q) != spec_l1_index(va) ==> (#[trigger] final(t1).lookup(q)) == old(t1).lookup(q),
        match r {
            Ok(()) => old(t1).lookup(va) is None && final(t1).lookup(va) == Some((frame, flags)),
            Err(e) => {
                &&& e == MapError::PageAlreadyMapped
                &&& old(t1).lookup(va) is Some
                &&& *final(t1) == *old(t1)
            },
        },
{
    proof {
        crate::arch::lemma_index_bounds(va);
    }
    let i1 = l1_index_of(va);
    let occupied = match &t1.entries[i1] {
        L1Entry::Absent => false,
        L1Entry::Mapped { .. } => true,
    };
    if occupied {
        return Err(MapError::PageAlreadyMapped);
    }
    t1.entries[i1] = L1Entry::Mapped { frame, flags };
    proof {
        assert forall|q: u64|
            spec_l1_index(q) != spec_l1_index(va) implies (#[trigger] final(t1).lookup(q)) == old(t1).lookup(q) by {
            crate::arch::lemma_index_bounds(q);
        }
    }
    Ok(())
}

/// Walks the level-2 slot for `va`, creating the leaf table below it if
/// absent, and installs the mapping at the leaf.
fn map_l2(
    t2: &mut L2Table,
    va: u64,
    frame: u64,
    flags: PageFlags,
    fa: &mut BootInfoFrameAllocator,
) -> (r: Result<(), MapError>)
    requires
        old(t2).wf(),
        valid_page(va),
        old(fa).wf(),
    ensures
        final(t2).wf(),
        final(fa).wf(),
        final(fa).spec_regions() == old(fa).spec_regions(),
        forall|q: u64|
            !(spec_l2_index(q) == spec_l2_index(va) && spec_l1_index(q) == spec_l1_index(va)) ==> (
            #[trigger] final(t2).lookup(q)) == old(t2).lookup(q),
        forall|q: u64| (#[trigger] final(t2).hits_huge(q)) == old(t2).hits_huge(q),
        match r {
            Ok(()) => {
                &&& !old(t2).hits_huge(va)
                &&& old(t2).lookup(va) is None
                &&& old(t2).needed(va) <= old(fa).remaining()
                &&& final(t2).lookup(va) == Some((frame, flags))
                &&& final(fa).remaining() == old(fa).remaining() - old(t2).needed(va)
            },
            Err(MapError::HugePageUnsupportedHere) => {
                &&& old(t2).hits_huge(va)
                &&& *final(t2) == *old(t2)
                &&& *final(fa) == *old(fa)
            },
            Err(MapError::PageAlreadyMapped) => {
                &&& !old(t2).hits_huge(va)
                &&& old(t2).lookup(va) is Some
                &&& forall|q: u64| (#[trigger] final(t2).lookup(q)) == old(t2).lookup(q)
                &&& *final(fa) == *old(fa)
            },
            Err(MapError::FrameAllocationFailed) => {
                &&& !old(t2).hits_huge(va)
                &&& old(t2).lookup(va) is None
                &&& old(t2).needed(va) > old(fa).remaining()
                &&& final(fa).exhausted()
                &&& forall|q: u64| (#[trigger] final(t2).lookup(q)) == old(t2).lookup(q)
            },
        },
{
    proof {
        crate::arch::lemma_index_bounds(va);
        old(fa).lemma_remaining_zero();
    }
    let i2 = l2_index_of(va);
    let kind: u8 = match &t2.entries[i2] {
        L2Entry::Absent => 0,
        L2Entry::Huge { .. } => 1,
        L2Entry::Table { .. } => 2,
    };
    if kind == 1 {
        return Err(MapError::HugePageUnsupportedHere);
    }
    if kind == 0 {
        proof {
            old(fa).lemma_remaining_zero();
        }
        match fa.allocate_frame() {
            None => {
                proof {
                    old(fa).lemma_remaining_zero();
                }
                return Err(MapError::FrameAllocationFailed);
            },
            Some(f1) => {
                let t1 = new_l1_table();
                t2.entries[i2] = L2Entry::Table { frame: f1, table: t1 };
            },
        }
    }
    let mut taken = L2Entry::Absent;
    t2.entries.set_and_swap(i2, &mut taken);
    match taken {
        L2Entry::Table { frame: tf, table: mut t1 } => {
            let inner = map_l1(&mut t1, va, frame, flags);
            t2.entries[i2] = L2Entry::Table { frame: tf, table: t1 };
            proof {
                assert forall|q: u64|
                    !(spec_l2_index(q) == spec_l2_index(va) && spec_l1_index(q) == spec_l1_index(
                        va,
                    )) implies (#[trigger] final(t2).lookup(q)) == old(t2).lookup(q) by {
                    crate::arch::lemma_index_bounds(q);
                }
                assert forall|q: u64| (#[trigger] final(t2).hits_huge(q)) == old(t2).hits_huge(
                    q,
                ) by {
                    crate::arch::lemma_index_bounds(q);
                }
            }
            match inner {
                Ok(()) => Ok(()),
                Err(e) => {
                    proof {
                        assert forall|q: u64| (#[trigger] final(t2).lookup(q)) == old(t2).lookup(q) by {
                            crate::arch::lemma_index_bounds(q);
                        }
                    }
                    if kind == 0 {
                        // A freshly created leaf table has no occupied slot.
                        proof {
                            assert(false);
                        }
                    }
                    Err(e)
                },
            }
        },
        _ => {
            proof {
                assert(false);
            }
            Err(MapError::PageAlreadyMapped)
        },
    }
}


/// A fresh, empty level-3 table.
fn new_l3_table() -> (r: L3Table)
    ensures
        r.wf(),
        forall|q: u64| (#[trigger] r.lookup(q)) is None,
        forall|q: u64| !(#[trigger] r.hits_huge(q)),
        forall|q: u64| (#[trigger] r.needed(q)) == 2,
{
    let mut entries: Vec<L3Entry> = Vec::new();
    let mut i: usize = 0;
    while i < 512
        invariant
            i <= 512,
            entries@.len() == i,
            forall|j: int| 0 <= j < i ==> (#[trigger] entries@[j]) is Absent,
        decreases 512 - i,
    {
        entries.push(L3Entry::Absent);
        i = i + 1;
    }
    let r = L3Table { entries };
    proof {
        assert forall|q: u64| (#[trigger] r.lookup(q)) is None by {
            crate::arch::lemma_index_bounds(q);
        }
        assert forall|q: u64| !(#[trigger] r.hits_huge(q)) by {
            crate::arch::lemma_index_bounds(q);
        }
        assert forall|q: u64| (#[trigger] r.needed(q)) == 2 by {
            crate::arch::lemma_index_bounds(q);
        }
    }
    r
}

/// Walks the level-3 slot for `va`, creating the levels below it as needed,
/// and installs the mapping at the leaf.
fn map_l3(
    t3: &mut L3Table,
    va: u64,
    frame: u64,
    flags: PageFlags,
    fa: &mut BootInfoFrameAllocator,
) -> (r: Result<(), MapError>)
    requires
        old(t3).wf(),
        valid_page(va),
        old(fa).wf(),
    ensures
        final(t3).wf(),
        final(fa).wf(),
        final(fa).spec_regions() == old(fa).spec_regions(),
        forall|q: u64|
            !(spec_l3_index(q) == spec_l3_index(va) && spec_l2_index(q) == spec_l2_index(va)
                && spec_l1_index(q) == spec_l1_index(va)) ==> (#[trigger] final(t3).lookup(q))
                == old(t3).lookup(q),
        forall|q: u64| (#[trigger] final(t3).hits_huge(q)) == old(t3).hits_huge(q),
        match r {
            Ok(()) => {
                &&& !old(t3).hits_huge(va)
                &&& old(t3).lookup(va) is None
                &&& old(t3).needed(va) <= old(fa).remaining()
                &&& final(t3).lookup(va) == Some((frame, flags))
                &&& final(fa).remaining() == old(fa).remaining() - old(t3).needed(va)
            },
            Err(MapError::HugePageUnsupportedHere) => {
                &&& old(t3).hits_huge(va)
                &&& forall|q: u64| (#[trigger] final(t3).lookup(q)) == old(t3).lookup(q)
                &&& *final(fa) == *old(fa)
            },
            Err(MapError::PageAlreadyMapped) => {
                &&& !old(t3).hits_huge(va)
                &&& old(t3).lookup(va) is Some
                &&& forall|q: u64| (#[trigger] final(t3).lookup(q)) == old(t3).lookup(q)
                &&& *final(fa) == *old(fa)
            },
            Err(MapError::FrameAllocationFailed) => {
                &&& !old(t3).hits_huge(va)
                &&& old(t3).lookup(va) is None
                &&& old(t3).needed(va) > old(fa).remaining()
                &&& final(fa).exhausted()
                &&& forall|q: u64| (#[trigger] final(t3).lookup(q)) == old(t3).lookup(q)
            },
        },
{
    proof {
        crate::arch::lemma_index_bounds(va);
        old(fa).lemma_remaining_zero();
    }
    let i3 = l3_index_of(va);
    let kind: u8 = match &t3.entries[i3] {
        L3Entry::Absent => 0,
        L3Entry::Huge { .. } => 1,
        L3Entry::Table { .. } => 2,
    };
    if kind == 1 {
        return Err(MapError::HugePageUnsupportedHere);
    }
    if kind == 0 {
        match fa.allocate_frame() {
            None => {
                return Err(MapError::FrameAllocationFailed);
            },
            Some(f2) => {
                let t2 = new_l2_table();
                t3.entries[i3] = L3Entry::Table { frame: f2, table: t2 };
            },
        }
    }
    let mut taken = L3Entry::Absent;
    t3.entries.set_and_swap(i3, &mut taken);
    match taken {
        L3Entry::Table { frame: tf, table: mut t2 } => {
            let inner = map_l2(&mut t2, va, frame, flags, fa);
            t3.entries[i3] = L3Entry::Table { frame: tf, table: t2 };
            proof {
                assert forall|q: u64|
                    !(spec_l3_index(q) == spec_l3_index(va) && spec_l2_index(q) == spec_l2_index(
                        va,
                    ) && spec_l1_index(q) == spec_l1_index(va)) implies (#[trigger] final(t3).lookup(q)) == old(t3).lookup(q) by {
                    crate::arch::lemma_index_bounds(q);
                }
                assert forall|q: u64| (#[trigger] final(t3).hits_huge(q)) == old(t3).hits_huge(
                    q,
                ) by {
                    crate::arch::lemma_index_bounds(q);
                }
            }
            match inner {
                Ok(()) => Ok(()),
                Err(e) => {
                    proof {
                        assert forall|q: u64| (#[trigger] final(t3).lookup(q)) == old(t3).lookup(q) by {
                            crate::arch::lemma_index_bounds(q);
                        }
                    }
                    if kind == 0 {
                        // A fresh level-2 table can only fail for want of a
                        // frame.
                        proof {
                            if e != MapError::FrameAllocationFailed {
                                assert(false);
                            }
                        }
                    }
                    Err(e)
                },
            }
        },
        _ => {
            proof {
                assert(false);
            }
            Err(MapError::PageAlreadyMapped)
        },
    }
}

} // verus!
