//! The bump allocator: a monotone cursor over the heap region, with whole-heap
//! reclamation once every outstanding allocation has been returned.
use vstd::prelude::*;
use vstd::arithmetic::power2::is_pow2;
use crate::allocator::fallback::range_set;
use crate::allocator::{
    align_up_spec, lemma_align_up_remainder, lemma_align_up_spec, lemma_pow2_positive,
};

verus! {

/// A monotonic-pointer allocator. `next` marks the first unused heap address;
/// it only moves up until `allocations` returns to zero, at which point the
/// whole region is reclaimed in one step.
pub struct BumpAllocator {
    pub heap_start: usize,
    pub heap_end: usize,
    /// The next unused address in the heap region.
    pub next: usize,
    /// The number of allocations not yet returned.
    pub allocations: usize,
}

impl BumpAllocator {
    /// The cursor always stays inside the owned region.
    pub open spec fn wf(self) -> bool {
        self.heap_start <= self.next <= self.heap_end
    }

    /// An allocation request succeeds exactly when the aligned candidate plus
    /// the requested size still fits below the end of the heap.
    pub open spec fn fits(self, size: int, align: int) -> bool {
        align_up_spec(self.next as int, align) + size <= self.heap_end
    }

    /// Creates a new empty bump allocator, not yet tied to a heap region.
    pub fn new() -> (r: Self)
        ensures
            r.heap_start == 0,
            r.heap_end == 0,
            r.next == 0,
            r.allocations == 0,
            r.wf(),
    {
        BumpAllocator { heap_start: 0, heap_end: 0, next: 0, allocations: 0 }
    }

    /// Ties the allocator to the heap region `[heap_start, heap_start + heap_size)`.
    ///
    /// May only be called once, on a freshly created allocator; the caller must
    /// own the whole region and must have mapped it read/write beforehand.
    pub fn init(&mut self, heap_start: usize, heap_size: usize)
        requires
            old(self).heap_start == 0,
            old(self).heap_end == 0,
            old(self).next == 0,
            old(self).allocations == 0,
            heap_start + heap_size <= usize::MAX,
        ensures
            final(self).heap_start == heap_start,
            final(self).heap_end == heap_start + heap_size,
            final(self).next == heap_start,
            final(self).allocations == 0,
            final(self).wf(),
    {
        self.heap_start = heap_start;
        self.heap_end = heap_start + heap_size;
        self.next = heap_start;
    }

    /// Serves one allocation: aligns the cursor up to `align`, checks that the
    /// request still fits in the region (treating address-arithmetic overflow
    /// like exhaustion), and on success bumps the cursor past the new block.
    pub fn allocate(&mut self, size: usize, align: usize) -> (r: Option<usize>)
        requires
            old(self).wf(),
            is_pow2(align as int),
            old(self).allocations < usize::MAX,
        ensures
            final(self).wf(),
            final(self).heap_start == old(self).heap_start,
            final(self).heap_end == old(self).heap_end,
            r is Some <==> old(self).fits(size as int, align as int),
            match r {
                Some(addr) => {
                    &&& addr == align_up_spec(old(self).next as int, align as int)
                    &&& addr % align == 0
                    &&& old(self).next <= addr
                    &&& addr + size == final(self).next
                    &&& final(self).allocations == old(self).allocations + 1
                },
                None => *final(self) == *old(self),
            },
    {
        proof {
            lemma_pow2_positive(align as int);
            lemma_align_up_spec(self.next as int, align as int);
            lemma_align_up_remainder(self.next as int, align as int);
        }
        let remainder = self.next % align;
        let alloc_start_opt = if remainder == 0 {
            Some(self.next)
        } else {
            self.next.checked_add(align - remainder)
        };
        let alloc_start = match alloc_start_opt {
            Some(s) => s,
            None => {
                // The aligned candidate itself does not fit in the address
                // space, so it cannot fit below heap_end either.
                return None;
            },
        };
        // To prevent integer overflow on large requests, the end address is
        // computed with checked addition; overflow fails the allocation.
        let alloc_end = match alloc_start.checked_add(size) {
            Some(end) => end,
            None => {
                return None;
            },
        };
        if alloc_end > self.heap_end {
            None  // out of memory
        } else {
            self.next = alloc_end;
            self.allocations = self.allocations + 1;
            Some(alloc_start)
        }
    }

    /// Returns one allocation. The bump allocator keeps no per-allocation
    /// bookkeeping beyond the live count, so the address and layout are
    /// unused; when the count returns to zero the whole region is reclaimed
    /// by resetting the cursor to the start of the heap.
    pub fn deallocate(&mut self, _addr: usize, _size: usize, _align: usize)
        requires
            old(self).wf(),
            old(self).allocations >= 1,
        ensures
            final(self).wf(),
            final(self).heap_start == old(self).heap_start,
            final(self).heap_end == old(self).heap_end,
            final(self).allocations == old(self).allocations - 1,
            final(self).next == if old(self).allocations == 1 {
                old(self).heap_start
            } else {
                old(self).next
            },
    {
        self.allocations = self.allocations - 1;
        if self.allocations == 0 {
            self.next = self.heap_start;
        }
    }

    /// The allocator's free space: the untouched tail `[next, heap_end)` of
    /// the heap region.
    pub open spec fn free_space(self) -> Set<int> {
        range_set(self.next as int, self.heap_end - self.next)
    }
}

/// Law (bump reclaim): a deallocation that returns the live count to zero
/// resets the cursor to the start of the heap, leaving the allocator exactly
/// where `init` left it — so the next allocation returns the same address as
/// the very first allocation of the cycle did: the aligned start of the heap.
/// `deallocate`'s postcondition gives `after_reclaim.next == heap_start`, and
/// `allocate`'s postcondition then pins the returned address to
/// `align_up_spec(next, align)` for both states.
pub proof fn lemma_bump_reclaim(after_init: BumpAllocator, after_reclaim: BumpAllocator, align: int)
    requires
        after_init.heap_start == after_reclaim.heap_start,
        after_init.next == after_init.heap_start,
        after_reclaim.next == after_reclaim.heap_start,
    ensures
        align_up_spec(after_reclaim.next as int, align) == align_up_spec(
            after_init.next as int,
            align,
        ),
{
}

/// Law (bump non-overlap step): the run a successful `allocate` returns lies
/// inside the old free space, and the new free space lies inside the old one
/// minus the returned run. Together with the step lemmas on live allocation
/// sets this shows that no two simultaneously-live bump allocations overlap:
/// the facts required here are exactly what `allocate`'s postcondition gives
/// on success.
pub proof fn lemma_bump_alloc_free_space(
    pre: BumpAllocator,
    post: BumpAllocator,
    addr: int,
    size: int,
)
    requires
        pre.wf(),
        post.wf(),
        0 <= size,
        pre.next <= addr,
        addr + size == post.next,
        post.heap_end == pre.heap_end,
    ensures
        range_set(addr, size) <= pre.free_space(),
        post.free_space() <= pre.free_space().difference(range_set(addr, size)),
{
    assert forall|a: int| range_set(addr, size).contains(a) implies pre.free_space().contains(
        a,
    ) by {}
    assert forall|a: int| post.free_space().contains(a) implies pre.free_space().difference(
        range_set(addr, size),
    ).contains(a) by {}
}

} // verus!
