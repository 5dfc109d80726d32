use rust_os::allocator::{align_up, align_up_complicated, heap_page_range, HEAP_SIZE, HEAP_START};

#[test]
fn align_up_keeps_aligned_addresses() {
    assert_eq!(align_up(0, 8), 0);
    assert_eq!(align_up(8, 8), 8);
    assert_eq!(align_up(4096, 4096), 4096);
    assert_eq!(align_up(64, 1), 64);
}

#[test]
fn align_up_rounds_to_next_multiple() {
    assert_eq!(align_up(1, 8), 8);
    assert_eq!(align_up(17, 16), 32);
    assert_eq!(align_up(4095, 4096), 4096);
    assert_eq!(align_up(4097, 4096), 8192);
    assert_eq!(align_up(100, 64), 128);
}

#[test]
fn align_up_result_is_aligned_and_minimal() {
    for &align in &[1usize, 2, 4, 8, 16, 32, 64, 128, 256, 512, 1024, 2048, 4096] {
        for addr in 0usize..200 {
            let r = align_up(addr, align);
            assert_eq!(r % align, 0);
            assert!(r >= addr);
            assert!(r < addr + align);
        }
    }
}

#[test]
fn both_alignment_computations_agree() {
    for &align in &[1usize, 2, 4, 8, 16, 64, 512, 4096] {
        for addr in 0usize..300 {
            assert_eq!(align_up(addr, align), align_up_complicated(addr, align));
        }
        assert_eq!(
            align_up(usize::MAX - 2 * align, align),
            align_up_complicated(usize::MAX - 2 * align, align)
        );
    }
}

#[test]
fn heap_page_range_covers_the_heap() {
    let (first, last) = heap_page_range();
    assert_eq!(first, HEAP_START / 4096);
    assert_eq!(last, (HEAP_START + HEAP_SIZE as u64 - 1) / 4096);
    // 100 KiB is exactly 25 pages of 4 KiB.
    assert_eq!(last - first + 1, 25);
}
