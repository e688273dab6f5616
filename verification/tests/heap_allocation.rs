//! Heap allocator behaviour: size classes, reuse, non-overlap, fallback.

use nuclea_r_os::heap::HeapAllocator;

#[test]
fn simple_allocation_stays_in_the_heap() {
    let mut h = HeapAllocator::new(0x1000, 4096);
    let a = h.allocate(8, 8).expect("allocation failed");
    assert!(a >= 0x1000 && a + 8 <= 0x1000 + 4096);
    assert_eq!(a % 8, 0);
}

#[test]
fn freed_block_is_reused_for_the_same_class() {
    let mut h = HeapAllocator::new(0x1000, 4096);
    let a1 = h.allocate(64, 8).expect("allocation failed");
    h.deallocate(a1, 64, 8);
    let a2 = h.allocate(64, 8).expect("allocation after free failed");
    assert_eq!(a2, a1, "the freed block's address was not reused");
}

#[test]
fn live_allocations_never_overlap() {
    let mut h = HeapAllocator::new(0x8000, 8192);
    let mut live: Vec<(u64, u64)> = Vec::new();
    for &(size, align) in &[(8u64, 8u64), (16, 16), (200, 8), (8, 8), (1024, 64), (50, 2)] {
        let a = h.allocate(size, align).expect("allocation failed");
        assert_eq!(a % align, 0);
        for &(b, bsize) in &live {
            assert!(
                a + size <= b || b + bsize <= a,
                "allocation {a:#x}+{size} overlaps {b:#x}+{bsize}"
            );
        }
        live.push((a, size));
    }
}

#[test]
fn large_requests_use_the_fallback_region() {
    let mut h = HeapAllocator::new(0x1000, 8192);
    let a = h.allocate(3000, 8).expect("large allocation failed");
    assert_eq!(a % 8, 0);
    h.deallocate(a, 3000, 8);
    // The returned extent serves another large request.
    let b = h.allocate(4000, 8).expect("large allocation after free failed");
    assert_eq!(b % 8, 0);
}

#[test]
fn exhaustion_is_reported_not_panicked() {
    let mut h = HeapAllocator::new(0x1000, 4096);
    assert!(h.allocate(4096, 1).is_some());
    assert_eq!(h.allocate(8, 8), None);
}

#[test]
fn alignment_above_size_rounds_the_class_up() {
    let mut h = HeapAllocator::new(0x1000, 4096);
    let a = h.allocate(8, 64).expect("aligned allocation failed");
    assert_eq!(a % 64, 0);
}

#[test]
fn carving_aligns_within_an_unaligned_extent() {
    // The heap range starts 8 bytes past a 64-byte boundary, so a 64-byte
    // request must be placed at the next boundary inside the extent.
    let mut h = HeapAllocator::new(0x1008, 4096);
    let a = h.allocate(8, 64).expect("aligned allocation failed");
    assert_eq!(a, 0x1040);
}

#[test]
fn small_block_churn_stays_within_the_heap() {
    // Heap of 4096 bytes with classes 8..2048: two hundred 8-byte blocks,
    // freed, then one hundred 16-byte blocks, all without failure.
    let mut h = HeapAllocator::new(0x4000, 4096);
    let mut blocks = Vec::new();
    for _ in 0..200 {
        blocks.push(h.allocate(8, 8).expect("8-byte allocation failed"));
    }
    for &b in &blocks {
        h.deallocate(b, 8, 8);
    }
    for _ in 0..100 {
        let a = h.allocate(16, 16).expect("16-byte allocation failed");
        assert_eq!(a % 16, 0);
    }
}
