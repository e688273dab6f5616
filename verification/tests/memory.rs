//! Frame allocation and virtual mapping, exercised end to end.

use nuclea_r_os::frames::{BootInfoFrameAllocator, UsableRegion};
use nuclea_r_os::heap::{init_heap, HEAP_SIZE, HEAP_START};
use nuclea_r_os::paging::{MapError, OffsetPageTable, PageFlags};

fn regions(spans: &[(u64, u64)]) -> Vec<UsableRegion> {
    spans.iter().map(|&(start, end)| UsableRegion { start, end }).collect()
}

#[test]
fn frames_come_in_ascending_order() {
    let mut fa = BootInfoFrameAllocator::new(regions(&[(0x1000, 0x3000), (0x5000, 0x6000)]));
    assert_eq!(fa.allocate_frame(), Some(0x1000));
    assert_eq!(fa.allocate_frame(), Some(0x2000));
    assert_eq!(fa.allocate_frame(), Some(0x5000));
    assert_eq!(fa.allocate_frame(), None);
    assert_eq!(fa.allocate_frame(), None);
}

#[test]
fn frames_are_unique() {
    let mut fa = BootInfoFrameAllocator::new(regions(&[(0x1000, 0x8000), (0x10000, 0x14000)]));
    let mut seen = Vec::new();
    while let Some(f) = fa.allocate_frame() {
        assert!(!seen.contains(&f), "frame {f:#x} handed out twice");
        assert_eq!(f % 4096, 0);
        seen.push(f);
    }
    assert_eq!(seen.len(), 7 + 4);
}

#[test]
fn empty_memory_map_is_exhausted_at_once() {
    let mut fa = BootInfoFrameAllocator::new(Vec::new());
    assert_eq!(fa.allocate_frame(), None);
}

#[test]
fn mapping_round_trip() {
    let mut fa = BootInfoFrameAllocator::new(regions(&[(0x1000, 0x10000)]));
    let mut pt = OffsetPageTable::new(0xffff_8000_0000);
    let page = 0x4000_0000_0000u64;
    let frame = fa.allocate_frame().unwrap();
    let flags = PageFlags { writable: true };
    assert_eq!(pt.map(page, frame, flags, &mut fa), Ok(()));
    assert_eq!(pt.translate(page), Some((frame, flags)));
    // A neighbouring page is untouched.
    assert_eq!(pt.translate(page + 4096), None);
}

#[test]
fn remapping_is_an_error_not_an_overwrite() {
    let mut fa = BootInfoFrameAllocator::new(regions(&[(0x1000, 0x10000)]));
    let mut pt = OffsetPageTable::new(0);
    let flags = PageFlags { writable: true };
    assert_eq!(pt.map(0x2000, 0x5000, flags, &mut fa), Ok(()));
    assert_eq!(
        pt.map(0x2000, 0x6000, flags, &mut fa),
        Err(MapError::PageAlreadyMapped)
    );
    // The first mapping still stands.
    assert_eq!(pt.translate(0x2000), Some((0x5000, flags)));
}

#[test]
fn mapping_without_frames_fails() {
    let mut fa = BootInfoFrameAllocator::new(Vec::new());
    let mut pt = OffsetPageTable::new(0);
    let flags = PageFlags { writable: false };
    assert_eq!(
        pt.map(0x2000, 0x5000, flags, &mut fa),
        Err(MapError::FrameAllocationFailed)
    );
    assert_eq!(pt.translate(0x2000), None);
}

#[test]
fn two_pages_can_share_intermediate_tables() {
    let mut fa = BootInfoFrameAllocator::new(regions(&[(0x1000, 0x10000)]));
    let mut pt = OffsetPageTable::new(0);
    let flags = PageFlags { writable: true };
    assert_eq!(pt.map(0x1000, 0xa000, flags, &mut fa), Ok(()));
    // The second page in the same leaf table needs no new table frames.
    assert_eq!(pt.map(0x2000, 0xb000, flags, &mut fa), Ok(()));
    assert_eq!(pt.translate(0x1000), Some((0xa000, flags)));
    assert_eq!(pt.translate(0x2000), Some((0xb000, flags)));
}

#[test]
fn phys_to_virt_applies_the_offset() {
    let pt = OffsetPageTable::new(0xffff_8000_0000);
    assert_eq!(pt.phys_to_virt(0x1234), 0xffff_8000_0000 + 0x1234);
}

#[test]
fn init_heap_maps_the_whole_range() {
    // Enough frames for 25 heap pages plus the table pages of the walk.
    let mut fa = BootInfoFrameAllocator::new(regions(&[(0x1000, 0x40000)]));
    let mut pt = OffsetPageTable::new(0);
    let heap = init_heap(&mut pt, &mut fa).expect("heap initialization failed");
    let mut page = HEAP_START;
    while page < HEAP_START + HEAP_SIZE {
        assert!(pt.translate(page).is_some(), "heap page {page:#x} unmapped");
        page += 4096;
    }
    let _ = heap;
}

#[test]
fn init_heap_reports_frame_exhaustion() {
    // Far too few frames to back the heap.
    let mut fa = BootInfoFrameAllocator::new(regions(&[(0x1000, 0x3000)]));
    let mut pt = OffsetPageTable::new(0);
    assert!(matches!(
        init_heap(&mut pt, &mut fa),
        Err(MapError::FrameAllocationFailed)
    ));
}
