use rust_os::allocator::fixed_size_block::{block_size, list_index, FixedSizeBlockAllocator};

const HEAP_BASE: usize = 0x10000;

fn heap(size: usize) -> FixedSizeBlockAllocator {
    let mut f = FixedSizeBlockAllocator::new();
    f.init(HEAP_BASE, size);
    f
}

#[test]
fn block_sizes_double_from_eight() {
    let expected = [8usize, 16, 32, 64, 128, 256, 512, 1024, 2048];
    for (i, &s) in expected.iter().enumerate() {
        assert_eq!(block_size(i), s);
    }
}

#[test]
fn list_index_picks_smallest_fitting_class() {
    // A request of size 17 with align 8 needs 17 bytes, so class 32.
    assert_eq!(list_index(17, 8), Some(2));
    assert_eq!(list_index(1, 1), Some(0));
    assert_eq!(list_index(8, 8), Some(0));
    assert_eq!(list_index(9, 1), Some(1));
    assert_eq!(list_index(2048, 1), Some(8));
    // Alignment counts too: the block size doubles as the block alignment.
    assert_eq!(list_index(100, 128), Some(4));
    assert_eq!(list_index(60, 8), Some(3));
    assert_eq!(list_index(50, 16), Some(3));
}

#[test]
fn list_index_rejects_oversized_requests() {
    assert_eq!(list_index(2049, 1), None);
    assert_eq!(list_index(4096, 8), None);
    assert_eq!(list_index(1, 4096), None);
}

#[test]
fn fsb_new_has_empty_lists_and_no_heap() {
    let f = FixedSizeBlockAllocator::new();
    assert_eq!(f.list_heads.len(), 9);
    for l in &f.list_heads {
        assert!(l.is_empty());
    }
    assert_eq!(f.fallback_allocator.heap_start, 0);
    assert_eq!(f.fallback_allocator.heap_end, 0);
}

#[test]
fn fsb_results_are_aligned() {
    let mut f = heap(8192);
    for &(size, align) in &[(1usize, 1usize), (60, 8), (17, 16), (100, 128), (3000, 8)] {
        let addr = f.allocate(size, align).unwrap();
        assert_eq!(addr % align, 0);
    }
}

#[test]
fn fsb_class_blocks_are_aligned_to_class_size() {
    let mut f = heap(8192);
    // Size 60 with align 8 lands in class 64; the block is 64-byte aligned.
    let addr = f.allocate(60, 8).unwrap();
    assert_eq!(addr % 64, 0);
}

#[test]
fn fsb_reuses_freed_block_of_same_class() {
    // Class 64: free a block, then allocate another request of the same
    // class; the freed block itself comes back.
    let mut f = heap(8192);
    let first = f.allocate(60, 8).unwrap();
    f.deallocate(first, 60, 8);
    let again = f.allocate(50, 16).unwrap();
    assert_eq!(again, first);
}

#[test]
fn fsb_reuse_is_most_recent_first() {
    let mut f = heap(8192);
    let a = f.allocate(60, 8).unwrap();
    let b = f.allocate(60, 8).unwrap();
    f.deallocate(a, 60, 8);
    f.deallocate(b, 60, 8);
    // b was freed last, so it is reused first.
    assert_eq!(f.allocate(60, 8).unwrap(), b);
    assert_eq!(f.allocate(60, 8).unwrap(), a);
}

#[test]
fn fsb_routes_oversized_requests_to_the_fallback() {
    // 4096 bytes exceed the largest class (2048), so the request is served by
    // the fallback allocator and no free list is ever touched.
    let mut f = heap(8192);
    let addr = f.allocate(4096, 8).unwrap();
    for l in &f.list_heads {
        assert!(l.is_empty());
    }
    f.deallocate(addr, 4096, 8);
    for l in &f.list_heads {
        assert!(l.is_empty());
    }
}

#[test]
fn fsb_freed_class_block_lands_on_its_list() {
    let mut f = heap(8192);
    let addr = f.allocate(60, 8).unwrap();
    f.deallocate(addr, 60, 8);
    // Class 64 has index 3.
    assert_eq!(f.list_heads[3], vec![addr]);
}

#[test]
fn fsb_fails_when_request_exceeds_remaining_heap() {
    // A 512-byte heap: a request larger than the whole heap fails cleanly,
    // and exhausting the heap makes the next request fail too.
    let mut f = heap(512);
    assert_eq!(f.allocate(600, 8), None);
    let a = f.allocate(256, 1).unwrap();
    let b = f.allocate(256, 1).unwrap();
    assert_eq!(f.allocate(8, 1), None);
    assert_ne!(a, b);
    // Freeing one class-256 block makes a same-class request succeed again.
    f.deallocate(a, 256, 1);
    assert_eq!(f.allocate(200, 1), Some(a));
}

#[test]
fn fsb_serves_the_largest_class_exactly() {
    // 2048 bytes still fit the largest class; one byte more goes to the
    // fallback.
    let mut f = heap(8192);
    let a = f.allocate(2048, 1).unwrap();
    f.deallocate(a, 2048, 1);
    assert_eq!(f.list_heads[8], vec![a]);
    let b = f.allocate(2049, 1).unwrap();
    f.deallocate(b, 2049, 1);
    assert_eq!(f.list_heads[8], vec![a]);
}

#[test]
fn fsb_live_allocations_do_not_overlap() {
    let mut f = heap(16384);
    let mut live: Vec<(usize, usize)> = Vec::new();
    let requests = [
        (100usize, 8usize),
        (1, 1),
        (60, 8),
        (3000, 8),
        (17, 16),
        (2048, 2048),
        (500, 4),
    ];
    for &(size, align) in &requests {
        let addr = f.allocate(size, align).unwrap();
        for &(a, s) in &live {
            assert!(addr + size <= a || a + s <= addr);
        }
        live.push((addr, size));
    }
    // Interleave: free two, allocate more, and check again.
    let (a0, s0) = live.remove(0);
    f.deallocate(a0, s0, 8);
    let (a2, s2) = live.remove(1);
    f.deallocate(a2, s2, 8);
    for &(size, align) in &[(90usize, 8usize), (40, 32)] {
        let addr = f.allocate(size, align).unwrap();
        for &(a, s) in &live {
            assert!(addr + size <= a || a + s <= addr);
        }
        live.push((addr, size));
    }
}

#[test]
fn fsb_carves_fresh_blocks_first_fit() {
    // With empty lists a class allocation carves a whole block from the
    // start of the free region.
    let mut f = heap(8192);
    let a = f.allocate(8, 8).unwrap();
    assert_eq!(a, HEAP_BASE);
    let b = f.allocate(8, 8).unwrap();
    assert_eq!(b, HEAP_BASE + 8);
}
