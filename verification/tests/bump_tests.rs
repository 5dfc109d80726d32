use rust_os::allocator::bump::BumpAllocator;
use rust_os::allocator::Dummy;

const HEAP_BASE: usize = 0x1000;

fn heap(size: usize) -> BumpAllocator {
    let mut b = BumpAllocator::new();
    b.init(HEAP_BASE, size);
    b
}

#[test]
fn bump_new_owns_nothing() {
    let b = BumpAllocator::new();
    assert_eq!(b.heap_start, 0);
    assert_eq!(b.heap_end, 0);
    assert_eq!(b.next, 0);
    assert_eq!(b.allocations, 0);
}

#[test]
fn bump_init_sets_the_region() {
    let b = heap(4096);
    assert_eq!(b.heap_start, HEAP_BASE);
    assert_eq!(b.heap_end, HEAP_BASE + 4096);
    assert_eq!(b.next, HEAP_BASE);
    assert_eq!(b.allocations, 0);
}

#[test]
fn bump_results_are_aligned() {
    let mut b = heap(4096);
    for &(size, align) in &[(1usize, 1usize), (3, 2), (100, 8), (17, 16), (5, 64), (1, 512)] {
        let addr = b.allocate(size, align).unwrap();
        assert_eq!(addr % align, 0);
    }
}

#[test]
fn bump_reclaims_after_single_cycle() {
    // A 4096-byte heap: one allocation, freed, is handed out again at the
    // same starting address.
    let mut b = heap(4096);
    let first = b.allocate(100, 8).unwrap();
    b.deallocate(first, 100, 8);
    let again = b.allocate(100, 8).unwrap();
    assert_eq!(again, first);
}

#[test]
fn bump_reclaims_after_frees_in_any_order() {
    let mut b = heap(4096);
    let a1 = b.allocate(100, 8).unwrap();
    let a2 = b.allocate(200, 16).unwrap();
    let a3 = b.allocate(50, 4).unwrap();
    // Free in a scrambled order; the region is only reclaimed once all three
    // are gone.
    b.deallocate(a2, 200, 16);
    assert_ne!(b.next, b.heap_start);
    b.deallocate(a3, 50, 4);
    b.deallocate(a1, 100, 8);
    let again = b.allocate(100, 8).unwrap();
    assert_eq!(again, a1);
}

#[test]
fn bump_live_allocations_do_not_overlap() {
    let mut b = heap(4096);
    let mut live: Vec<(usize, usize)> = Vec::new();
    for &(size, align) in &[(100usize, 8usize), (32, 32), (1, 1), (500, 4), (64, 128)] {
        let addr = b.allocate(size, align).unwrap();
        for &(a, s) in &live {
            assert!(addr + size <= a || a + s <= addr);
        }
        live.push((addr, size));
    }
}

#[test]
fn bump_fails_when_request_exceeds_remaining_heap() {
    // A 512-byte heap: filling it leaves nothing for an oversized request.
    let mut b = heap(512);
    assert_eq!(b.allocate(600, 8), None);
    let a = b.allocate(400, 8).unwrap();
    assert_eq!(b.allocate(200, 8), None);
    // The failure did not corrupt the allocator: a fitting request still works.
    let rest = b.allocate(112, 1).unwrap();
    assert_eq!(rest, a + 400);
    assert_eq!(b.allocate(1, 1), None);
}

#[test]
fn bump_treats_overflow_as_exhaustion() {
    let mut b = BumpAllocator::new();
    b.init(usize::MAX - 4096, 4096);
    // The end-address computation would overflow; the allocation fails
    // instead of wrapping around.
    assert_eq!(b.allocate(5000, 1), None);
    assert!(b.allocate(4096, 1).is_some());
}

#[test]
fn dummy_allocator_always_fails() {
    let d = Dummy;
    assert_eq!(d.allocate(1, 1), None);
    assert_eq!(d.allocate(100, 8), None);
}
