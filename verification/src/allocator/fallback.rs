//! The fallback allocator: a general-purpose first-fit allocator over a list
//! of free regions. The fixed-size-block allocator delegates to it whenever a
//! request misses every size class or the matching free list is empty.
use vstd::prelude::*;
use vstd::arithmetic::power2::is_pow2;
use crate::allocator::{
    align_up_spec, lemma_align_up_remainder, lemma_align_up_spec, lemma_pow2_positive,
};

verus! {

/// One contiguous run of free bytes `[start, start + size)` tracked by the
/// fallback allocator.
#[derive(Clone, Copy)]
pub struct Region {
    pub start: usize,
    pub size: usize,
}

/// The set of byte addresses in `[start, start + len)`.
pub open spec fn range_set(start: int, len: int) -> Set<int> {
    Set::new(|a: int| start <= a < start + len)
}

/// Whether address `a` lies in the free region `r`.
pub open spec fn region_contains(r: Region, a: int) -> bool {
    r.start <= a < r.start + r.size
}

/// Whether two regions cover no common byte.
pub open spec fn regions_separate(r1: Region, r2: Region) -> bool {
    r1.start + r1.size <= r2.start || r2.start + r2.size <= r1.start
}

/// Whether a request of `size` bytes aligned to `align` can be carved out of
/// region `r`.
pub open spec fn region_fits(r: Region, size: int, align: int) -> bool {
    align_up_spec(r.start as int, align) + size <= r.start + r.size
}

/// The address the first-fit rule picks from the regions `s`: the aligned
/// candidate of the first region that can hold the request, or none when no
/// region can.
pub open spec fn first_fit_from(s: Seq<Region>, size: int, align: int) -> Option<int>
    decreases s.len(),
{
    if s.len() == 0 {
        None
    } else if region_fits(s[0], size, align) {
        Some(align_up_spec(s[0].start as int, align))
    } else {
        first_fit_from(s.drop_first(), size, align)
    }
}

/// The first-fit rule picks the first fitting region's aligned candidate.
proof fn lemma_first_fit_from_index(s: Seq<Region>, size: int, align: int, i: int)
    requires
        0 <= i < s.len(),
        region_fits(s[i], size, align),
        forall|j: int| 0 <= j < i ==> !region_fits(#[trigger] s[j], size, align),
    ensures
        first_fit_from(s, size, align) == Some(align_up_spec(s[i].start as int, align)),
    decreases i,
{
    if i > 0 {
        lemma_first_fit_from_index(s.drop_first(), size, align, i - 1);
    }
}

/// With no fitting region the first-fit rule picks nothing.
proof fn lemma_first_fit_from_none(s: Seq<Region>, size: int, align: int)
    requires
        forall|j: int| 0 <= j < s.len() ==> !region_fits(#[trigger] s[j], size, align),
    ensures
        first_fit_from(s, size, align) is None,
    decreases s.len(),
{
    if s.len() > 0 {
        lemma_first_fit_from_none(s.drop_first(), size, align);
    }
}

/// A first-fit free-list allocator: it owns the heap region
/// `[heap_start, heap_end)` and hands out bytes from a list of disjoint free
/// regions, scanning the list in order and serving from the first region that
/// can hold the request.
pub struct FallbackAllocator {
    pub heap_start: usize,
    pub heap_end: usize,
    pub regions: Vec<Region>,
}

impl FallbackAllocator {
    /// Every tracked region is a non-empty slice of the heap.
    pub open spec fn region_ok(self, r: Region) -> bool {
        &&& r.size > 0
        &&& self.heap_start <= r.start
        &&& r.start + r.size <= self.heap_end
    }

    /// The free regions are non-empty, lie inside the heap, and are pairwise
    /// disjoint.
    pub open spec fn wf(self) -> bool {
        &&& self.heap_start <= self.heap_end
        &&& forall|i: int|
            0 <= i < self.regions@.len() ==> self.region_ok(#[trigger] self.regions@[i])
        &&& forall|i: int, j: int|
            0 <= i < j < self.regions@.len() ==> regions_separate(
                #[trigger] self.regions@[i],
                #[trigger] self.regions@[j],
            )
    }

    /// The set of free byte addresses: everything covered by some region.
    pub open spec fn available(self) -> Set<int> {
        Set::new(
            |a: int|
                exists|i: int|
                    0 <= i < self.regions@.len() && region_contains(#[trigger] self.regions@[i], a),
        )
    }

    /// Whether some free region can hold a request of `size` bytes aligned to
    /// `align`; allocation succeeds exactly in that case.
    pub open spec fn has_fit(self, size: int, align: int) -> bool {
        exists|i: int|
            0 <= i < self.regions@.len() && region_fits(#[trigger] self.regions@[i], size, align)
    }

    /// The address the first-fit rule picks from this allocator's regions.
    pub open spec fn first_fit_addr(self, size: int, align: int) -> Option<int> {
        first_fit_from(self.regions@, size, align)
    }

    /// Creates an empty fallback allocator that owns no memory yet.
    pub fn new() -> (r: Self)
        ensures
            r.heap_start == 0,
            r.heap_end == 0,
            r.regions@.len() == 0,
            r.wf(),
            r.available() == Set::<int>::empty(),
    {
        let r = FallbackAllocator { heap_start: 0, heap_end: 0, regions: Vec::new() };
        proof {
            assert(r.available() =~= Set::<int>::empty());
        }
        r
    }

    /// Hands the allocator the heap region `[heap_start, heap_start + heap_size)`,
    /// all of it initially free.
    ///
    /// May only be called once, on a freshly created allocator; the caller must
    /// own the whole region.
    pub fn init(&mut self, heap_start: usize, heap_size: usize)
        requires
            old(self).heap_start == 0,
            old(self).heap_end == 0,
            old(self).regions@.len() == 0,
            heap_start + heap_size <= usize::MAX,
        ensures
            final(self).wf(),
            final(self).heap_start == heap_start,
            final(self).heap_end == heap_start + heap_size,
            final(self).available() == range_set(heap_start as int, heap_size as int),
            final(self).regions@.len() == (if heap_size > 0 {
                1int
            } else {
                0int
            }),
            heap_size > 0 ==> final(self).regions@[0] == (Region {
                start: heap_start,
                size: heap_size,
            }),
    {
        self.heap_start = heap_start;
        self.heap_end = heap_start + heap_size;
        if heap_size > 0 {
            self.regions.push(Region { start: heap_start, size: heap_size });
        }
        proof {
            if heap_size > 0 {
                assert forall|a: int|
                    range_set(heap_start as int, heap_size as int).contains(a) implies #[trigger]
                self.available().contains(a) by {
                    assert(region_contains(self.regions@[0], a));
                }
            }
            assert(self.available() =~= range_set(heap_start as int, heap_size as int));
        }
    }

    /// Scans the free regions in list order for the first one that can hold
    /// the request, returning its index and the aligned candidate address.
    /// Address arithmetic that would overflow `usize` means the region cannot
    /// hold the request.
    fn find_fit(&self, size: usize, align: usize) -> (r: Option<(usize, usize)>)
        requires
            self.wf(),
            is_pow2(align as int),
        ensures
            match r {
                Some((i, addr)) => {
                    &&& i < self.regions@.len()
                    &&& region_fits(self.regions@[i as int], size as int, align as int)
                    &&& forall|j: int|
                        0 <= j < i ==> !region_fits(
                            #[trigger] self.regions@[j],
                            size as int,
                            align as int,
                        )
                    &&& addr == align_up_spec(self.regions@[i as int].start as int, align as int)
                    &&& self.regions@[i as int].start <= addr
                    &&& addr + size <= self.regions@[i as int].start + self.regions@[i as int].size
                    &&& addr % align == 0
                },
                None => !self.has_fit(size as int, align as int),
            },
    {
        proof {
            lemma_pow2_positive(align as int);
        }
        let mut i: usize = 0;
        while i < self.regions.len()
            invariant
                self.wf(),
                is_pow2(align as int),
                align >= 1,
                i <= self.regions@.len(),
                forall|j: int|
                    0 <= j < i ==> !region_fits(#[trigger] self.regions@[j], size as int, align as int),
            decreases self.regions@.len() - i,
        {
            let start = self.regions[i].start;
            let rsize = self.regions[i].size;
            proof {
                lemma_align_up_spec(start as int, align as int);
                lemma_align_up_remainder(start as int, align as int);
                vstd::arithmetic::div_mod::lemma_mod_decreases(start as nat, align as nat);
            }
            let remainder = start % align;
            let cand_opt = if remainder == 0 {
                Some(start)
            } else {
                start.checked_add(align - remainder)
            };
            match cand_opt {
                Some(cand) => {
                    match cand.checked_add(size) {
                        Some(end) => {
                            if end <= start + rsize {
                                return Some((i, cand));
                            }
                        },
                        None => {},
                    }
                },
                None => {},
            }
            proof {
                assert(!region_fits(self.regions@[i as int], size as int, align as int));
            }
            i = i + 1;
        }
        None
    }

    /// Serves one allocation first-fit: carves an aligned run of `size` bytes
    /// out of the first free region that can hold it, keeping whatever is left
    /// of that region before and after the carved run.
    pub fn allocate_first_fit(&mut self, size: usize, align: usize) -> (r: Option<usize>)
        requires
            old(self).wf(),
            is_pow2(align as int),
        ensures
            final(self).wf(),
            final(self).heap_start == old(self).heap_start,
            final(self).heap_end == old(self).heap_end,
            r is Some <==> old(self).has_fit(size as int, align as int),
            match r {
                Some(addr) => {
                    &&& addr % align == 0
                    &&& old(self).heap_start <= addr
                    &&& addr + size <= old(self).heap_end
                    &&& range_set(addr as int, size as int) <= old(self).available()
                    &&& final(self).available() == old(self).available().difference(
                        range_set(addr as int, size as int),
                    )
                    &&& Some(addr as int) == old(self).first_fit_addr(size as int, align as int)
                },
                None => *final(self) == *old(self),
            },
    {
        let found = self.find_fit(size, align);
        match found {
            None => {
                proof {
                    assert forall|j: int| 0 <= j < self.regions@.len() implies !region_fits(
                        #[trigger] self.regions@[j],
                        size as int,
                        align as int,
                    ) by {
                        if region_fits(self.regions@[j], size as int, align as int) {
                            assert(self.has_fit(size as int, align as int));
                        }
                    }
                    lemma_first_fit_from_none(self.regions@, size as int, align as int);
                }
                None
            },
            Some((idx, cand)) => {
                let reg = self.regions[idx];
                let reg_end = reg.start + reg.size;
                let alloc_end = cand + size;
                self.regions.remove(idx);
                let ghost smid = self.regions@;
                let ghost front = Region { start: reg.start, size: (cand - reg.start) as usize };
                let ghost back = Region {
                    start: alloc_end,
                    size: (reg_end - alloc_end) as usize,
                };
                let ghost pieces = if cand > reg.start {
                    if alloc_end < reg_end {
                        seq![front, back]
                    } else {
                        seq![front]
                    }
                } else {
                    if alloc_end < reg_end {
                        seq![back]
                    } else {
                        Seq::<Region>::empty()
                    }
                };
                if cand > reg.start {
                    self.regions.push(Region { start: reg.start, size: cand - reg.start });
                }
                if alloc_end < reg_end {
                    self.regions.push(Region { start: alloc_end, size: reg_end - alloc_end });
                }
                proof {
                    let reg0 = old(self).regions@[idx as int];
                    assert(self.regions@ =~= smid + pieces);
                    assert forall|a: int|
                        region_contains(reg0, a) && !(cand <= a < cand + size) implies exists|k: int|
                        0 <= k < pieces.len() && region_contains(#[trigger] pieces[k], a) by {
                        if a < cand {
                            assert(region_contains(pieces[0], a));
                        } else {
                            assert(region_contains(pieces[pieces.len() - 1], a));
                        }
                    }
                    lemma_carve(*old(self), *self, idx as int, cand as int, size as int, pieces);
                    lemma_first_fit_from_index(
                        old(self).regions@,
                        size as int,
                        align as int,
                        idx as int,
                    );
                    assert(region_fits(old(self).regions@[idx as int], size as int, align as int));
                }
                Some(cand)
            },
        }
    }

    /// Returns the run `[addr, addr + size)` to the free space; the freed run
    /// becomes available to future first-fit searches. The caller must pass
    /// back exactly a run it was handed and has not already freed, which is
    /// what the disjointness precondition captures.
    pub fn deallocate(&mut self, addr: usize, size: usize)
        requires
            old(self).wf(),
            old(self).heap_start <= addr,
            addr + size <= old(self).heap_end,
            range_set(addr as int, size as int).disjoint(old(self).available()),
        ensures
            final(self).wf(),
            final(self).heap_start == old(self).heap_start,
            final(self).heap_end == old(self).heap_end,
            final(self).available() == old(self).available().union(
                range_set(addr as int, size as int),
            ),
    {
        if size > 0 {
            let ghost s0 = self.regions@;
            let newr = Region { start: addr, size };
            self.regions.push(newr);
            proof {
                assert forall|i: int| 0 <= i < s0.len() implies regions_separate(
                    s0[i],
                    newr,
                ) by {
                    if !regions_separate(s0[i], newr) {
                        // Overlapping ranges share their larger start address.
                        let w = if s0[i].start as int >= addr as int {
                            s0[i].start as int
                        } else {
                            addr as int
                        };
                        assert(region_contains(s0[i], w));
                        assert(old(self).available().contains(w));
                        assert(range_set(addr as int, size as int).contains(w));
                    }
                }
                assert forall|i: int, j: int|
                    0 <= i < j < self.regions@.len() implies regions_separate(
                    #[trigger] self.regions@[i],
                    #[trigger] self.regions@[j],
                ) by {
                    if j == self.regions@.len() - 1 {
                        assert(self.regions@[i] == s0[i]);
                        assert(regions_separate(s0[i], newr));
                    }
                }
                assert(self.available() =~= old(self).available().union(
                    range_set(addr as int, size as int),
                )) by {
                    assert forall|a: int| #[trigger]
                        self.available().contains(a) implies old(self).available().contains(a)
                        || range_set(addr as int, size as int).contains(a) by {
                        let i = choose|i: int|
                            0 <= i < self.regions@.len() && region_contains(
                                #[trigger] self.regions@[i],
                                a,
                            );
                        if i < s0.len() {
                            assert(region_contains(s0[i], a));
                        }
                    }
                    assert forall|a: int|
                        old(self).available().contains(a) || range_set(
                            addr as int,
                            size as int,
                        ).contains(a) implies #[trigger] self.available().contains(a) by {
                        if old(self).available().contains(a) {
                            let i = choose|i: int|
                                0 <= i < s0.len() && region_contains(#[trigger] s0[i], a);
                            assert(region_contains(self.regions@[i], a));
                        } else {
                            assert(region_contains(self.regions@[s0.len() as int], a));
                        }
                    }
                }
            }
        } else {
            proof {
                assert(self.available() =~= old(self).available().union(
                    range_set(addr as int, size as int),
                ));
            }
        }
    }
}

/// After carving the run `[cand, cand + size)` out of region `idx` — removing
/// the region from the list and pushing the `pieces` that are left of it —
/// the free space is exactly the old free space minus the carved run, and the
/// region list is still well formed. The pieces must be non-empty parts of the
/// carved region that avoid the carved run, must not overlap one another, and
/// must cover everything the region held outside the run.
proof fn lemma_carve(
    pre: FallbackAllocator,
    post: FallbackAllocator,
    idx: int,
    cand: int,
    size: int,
    pieces: Seq<Region>,
)
    requires
        pre.wf(),
        0 <= idx < pre.regions@.len(),
        pre.regions@[idx].start <= cand,
        cand + size <= pre.regions@[idx].start + pre.regions@[idx].size,
        post.heap_start == pre.heap_start,
        post.heap_end == pre.heap_end,
        post.regions@ == pre.regions@.remove(idx) + pieces,
        forall|k: int|
            0 <= k < pieces.len() ==> {
                let p = #[trigger] pieces[k];
                &&& p.size > 0
                &&& pre.regions@[idx].start <= p.start
                &&& p.start + p.size <= pre.regions@[idx].start + pre.regions@[idx].size
                &&& (p.start + p.size <= cand || cand + size <= p.start)
            },
        forall|k1: int, k2: int|
            0 <= k1 < k2 < pieces.len() ==> regions_separate(
                #[trigger] pieces[k1],
                #[trigger] pieces[k2],
            ),
        forall|a: int|
            region_contains(pre.regions@[idx], a) && !(cand <= a < cand + size) ==> exists|k: int|
                0 <= k < pieces.len() && region_contains(#[trigger] pieces[k], a),
    ensures
        post.wf(),
        range_set(cand, size) <= pre.available(),
        post.available() == pre.available().difference(range_set(cand, size)),
{
    let reg = pre.regions@[idx];
    let smid = pre.regions@.remove(idx);
    let n = smid.len() as int;
    assert forall|k: int| 0 <= k < n implies #[trigger] smid[k] == pre.regions@[
        if k < idx {
            k
        } else {
            k + 1
        }
    ] by {}
    assert(post.wf()) by {
        assert forall|k: int| 0 <= k < post.regions@.len() implies post.region_ok(
            #[trigger] post.regions@[k],
        ) by {
            if k < n {
                let i = if k < idx {
                    k
                } else {
                    k + 1
                };
                assert(pre.region_ok(pre.regions@[i]));
            } else {
                assert(post.regions@[k] == pieces[k - n]);
                assert(pre.region_ok(reg));
            }
        }
        assert forall|k1: int, k2: int| 0 <= k1 < k2 < post.regions@.len() implies
            regions_separate(#[trigger] post.regions@[k1], #[trigger] post.regions@[k2]) by {
            if k1 < n && k2 < n {
                let i1 = if k1 < idx {
                    k1
                } else {
                    k1 + 1
                };
                let i2 = if k2 < idx {
                    k2
                } else {
                    k2 + 1
                };
                if i1 < i2 {
                    assert(regions_separate(pre.regions@[i1], pre.regions@[i2]));
                } else {
                    assert(regions_separate(pre.regions@[i2], pre.regions@[i1]));
                }
            } else if k1 < n {
                // post.regions@[k2] is a piece of reg; the old region behind k1
                // is separate from reg itself, so also from the piece.
                let i1 = if k1 < idx {
                    k1
                } else {
                    k1 + 1
                };
                assert(post.regions@[k2] == pieces[k2 - n]);
                if i1 < idx {
                    assert(regions_separate(pre.regions@[i1], pre.regions@[idx]));
                } else {
                    assert(regions_separate(pre.regions@[idx], pre.regions@[i1]));
                }
            } else {
                assert(post.regions@[k1] == pieces[k1 - n]);
                assert(post.regions@[k2] == pieces[k2 - n]);
                assert(regions_separate(pieces[k1 - n], pieces[k2 - n]));
            }
        }
    }
    assert(range_set(cand, size) <= pre.available()) by {
        assert forall|a: int| range_set(cand, size).contains(a) implies pre.available().contains(
            a,
        ) by {
            assert(region_contains(pre.regions@[idx], a));
        }
    }
    assert(post.available() =~= pre.available().difference(range_set(cand, size))) by {
        assert forall|a: int| #[trigger] post.available().contains(a) implies pre.available()
            .contains(a) && !range_set(cand, size).contains(a) by {
            let k = choose|k: int|
                0 <= k < post.regions@.len() && region_contains(#[trigger] post.regions@[k], a);
            if k < n {
                let i = if k < idx {
                    k
                } else {
                    k + 1
                };
                assert(region_contains(pre.regions@[i], a));
                // The carved run lies inside reg, which is separate from the
                // region behind k, so a is outside the run.
                if i < idx {
                    assert(regions_separate(pre.regions@[i], pre.regions@[idx]));
                } else {
                    assert(regions_separate(pre.regions@[idx], pre.regions@[i]));
                }
            } else {
                assert(post.regions@[k] == pieces[k - n]);
                assert(region_contains(pre.regions@[idx], a));
            }
        }
        assert forall|a: int|
            pre.available().contains(a) && !range_set(cand, size).contains(a) implies #[trigger]
        post.available().contains(a) by {
            let i = choose|i: int|
                0 <= i < pre.regions@.len() && region_contains(#[trigger] pre.regions@[i], a);
            if i != idx {
                let k = if i < idx {
                    i
                } else {
                    i - 1
                };
                assert(region_contains(post.regions@[k], a));
            } else {
                let k = choose|k: int|
                    0 <= k < pieces.len() && region_contains(#[trigger] pieces[k], a);
                assert(region_contains(post.regions@[n + k], a));
            }
        }
    }
}

} // verus!
