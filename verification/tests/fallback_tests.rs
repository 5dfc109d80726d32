use rust_os::allocator::fallback::FallbackAllocator;

const HEAP_BASE: usize = 0x10000;

fn heap(size: usize) -> FallbackAllocator {
    let mut f = FallbackAllocator::new();
    f.init(HEAP_BASE, size);
    f
}

#[test]
fn fallback_serves_from_the_region_start() {
    let mut f = heap(4096);
    assert_eq!(f.allocate_first_fit(10, 1), Some(HEAP_BASE));
    assert_eq!(f.allocate_first_fit(10, 1), Some(HEAP_BASE + 10));
}

#[test]
fn fallback_pads_for_alignment() {
    let mut f = heap(4096);
    assert_eq!(f.allocate_first_fit(20, 1), Some(HEAP_BASE));
    // The next free byte is HEAP_BASE + 20; a 16-aligned request is padded up.
    assert_eq!(f.allocate_first_fit(16, 16), Some(HEAP_BASE + 32));
}

#[test]
fn fallback_results_are_aligned() {
    let mut f = heap(4096);
    for &(size, align) in &[(1usize, 1usize), (10, 8), (100, 64), (5, 512)] {
        let addr = f.allocate_first_fit(size, align).unwrap();
        assert_eq!(addr % align, 0);
    }
}

#[test]
fn fallback_fails_without_room_and_recovers_on_free() {
    let mut f = heap(512);
    assert_eq!(f.allocate_first_fit(600, 1), None);
    let a = f.allocate_first_fit(512, 1).unwrap();
    assert_eq!(f.allocate_first_fit(1, 1), None);
    f.deallocate(a, 512);
    assert_eq!(f.allocate_first_fit(100, 1), Some(a));
}

#[test]
fn fallback_with_empty_heap_serves_nothing() {
    let mut f = heap(0);
    assert_eq!(f.allocate_first_fit(1, 1), None);
    let fresh = FallbackAllocator::new();
    assert_eq!(fresh.heap_start, 0);
    assert_eq!(fresh.heap_end, 0);
    assert!(fresh.regions.is_empty());
}

#[test]
fn fallback_scans_free_regions_in_list_order() {
    let mut f = heap(512);
    let a = f.allocate_first_fit(256, 1).unwrap();
    let b = f.allocate_first_fit(256, 1).unwrap();
    // Free b first, then a: the free list now holds b's region before a's,
    // and first-fit serves from the earlier listed one.
    f.deallocate(b, 256);
    f.deallocate(a, 256);
    assert_eq!(f.allocate_first_fit(50, 1), Some(b));
}
