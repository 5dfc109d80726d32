//! The fixed-size-block allocator: segregated free lists over power-of-two
//! size classes, delegating to the embedded first-fit fallback allocator on a
//! size-class miss or when the matching list is empty.
//!
//! Free blocks are tracked by their starting addresses. In the target memory
//! layout each freed block stores the link to the next free block of its class
//! in its own first bytes, which is why no class may be smaller than one
//! free-list node; a runtime check of that structural invariant would be a
//! fatal error, so here it is proved at the point of deallocation instead.
use vstd::prelude::*;
use vstd::arithmetic::div_mod::{lemma_fundamental_div_mod, lemma_mod_multiples_basic};
use vstd::arithmetic::power::{lemma_pow_adds, lemma_pow_strictly_increases, pow};
use vstd::arithmetic::power2::{is_pow2, is_pow2_equiv};
use crate::allocator::fallback::{range_set, FallbackAllocator, Region};
use crate::allocator::lemma_pow2_positive;

verus! {

/// How many block size classes there are.
pub const BLOCK_SIZE_COUNT: usize = 9;

/// Size in bytes of one free-list node in the target layout: a single link to
/// the next free block (one 64-bit pointer).
pub const LIST_NODE_SIZE: usize = 8;

/// Alignment in bytes of one free-list node in the target layout.
pub const LIST_NODE_ALIGN: usize = 8;

/// The block size of class `i`. The sizes are powers of two because each
/// doubles as the block alignment, and none is smaller than a free-list node.
pub open spec fn block_size_spec(i: int) -> int {
    if i == 0 {
        8
    } else if i == 1 {
        16
    } else if i == 2 {
        32
    } else if i == 3 {
        64
    } else if i == 4 {
        128
    } else if i == 5 {
        256
    } else if i == 6 {
        512
    } else if i == 7 {
        1024
    } else {
        2048
    }
}

/// The block size of class `i`.
pub fn block_size(i: usize) -> (s: usize)
    requires
        i < BLOCK_SIZE_COUNT,
    ensures
        s == block_size_spec(i as int),
{
    if i == 0 {
        8
    } else if i == 1 {
        16
    } else if i == 2 {
        32
    } else if i == 3 {
        64
    } else if i == 4 {
        128
    } else if i == 5 {
        256
    } else if i == 6 {
        512
    } else if i == 7 {
        1024
    } else {
        2048
    }
}

/// Every block size is a power of two.
pub proof fn lemma_block_size_pow2(i: int)
    requires
        0 <= i < BLOCK_SIZE_COUNT,
    ensures
        is_pow2(block_size_spec(i)),
{
    reveal(is_pow2);
    assert(is_pow2(1));
    assert(is_pow2(2));
    assert(is_pow2(4));
    assert(is_pow2(8));
    assert(is_pow2(16));
    assert(is_pow2(32));
    assert(is_pow2(64));
    assert(is_pow2(128));
    assert(is_pow2(256));
    assert(is_pow2(512));
    assert(is_pow2(1024));
    assert(is_pow2(2048));
}

/// One power of two divides any larger one.
pub proof fn lemma_pow2_divides(a: int, b: int)
    requires
        is_pow2(a),
        is_pow2(b),
        a <= b,
    ensures
        b % a == 0,
{
    is_pow2_equiv(a);
    is_pow2_equiv(b);
    let i = choose|i: nat| pow(2, i) == a;
    let j = choose|j: nat| pow(2, j) == b;
    if j < i {
        lemma_pow_strictly_increases(2, j, i);
    }
    crate::allocator::lemma_pow2_positive(a);
    lemma_pow_adds(2, i, (j - i) as nat);
    assert(b == a * pow(2, (j - i) as nat));
    lemma_mod_multiples_basic(pow(2, (j - i) as nat) as int, a);
    assert(b == pow(2, (j - i) as nat) as int * a) by (nonlinear_arith)
        requires
            b == a * pow(2, (j - i) as nat),
    ;
}

/// An address aligned to `b` is aligned to any divisor `a` of `b`.
pub proof fn lemma_aligned_transfer(x: int, b: int, a: int)
    requires
        x >= 0,
        a > 0,
        b > 0,
        x % b == 0,
        b % a == 0,
    ensures
        x % a == 0,
{
    lemma_fundamental_div_mod(x, b);
    lemma_fundamental_div_mod(b, a);
    assert(x == a * ((b / a) * (x / b))) by (nonlinear_arith)
        requires
            x == b * (x / b) + x % b,
            x % b == 0,
            b == a * (b / a) + b % a,
            b % a == 0,
    ;
    lemma_mod_multiples_basic((b / a) * (x / b), a);
}

/// The block size a request must fit in: the larger of its size and its
/// alignment, since a block serves as both.
pub open spec fn required_block_size(size: int, align: int) -> int {
    if size >= align {
        size
    } else {
        align
    }
}

/// The class chosen for a request: the smallest class whose block size is at
/// least `required_block_size`, or none when the request exceeds the largest
/// class and must go to the fallback allocator.
pub open spec fn list_index_spec(size: int, align: int) -> Option<int> {
    let required = required_block_size(size, align);
    if required <= 8 {
        Some(0int)
    } else if required <= 16 {
        Some(1int)
    } else if required <= 32 {
        Some(2int)
    } else if required <= 64 {
        Some(3int)
    } else if required <= 128 {
        Some(4int)
    } else if required <= 256 {
        Some(5int)
    } else if required <= 512 {
        Some(6int)
    } else if required <= 1024 {
        Some(7int)
    } else if required <= 2048 {
        Some(8int)
    } else {
        None
    }
}

/// Law: class selection is monotone and minimal. The chosen class is the
/// smallest one whose block size holds `max(size, align)`, scanning classes in
/// ascending order, and a request is classless exactly when it exceeds the
/// largest class.
pub proof fn lemma_list_index_smallest(size: int, align: int)
    ensures
        match list_index_spec(size, align) {
            Some(i) => {
                &&& 0 <= i < BLOCK_SIZE_COUNT
                &&& block_size_spec(i) >= required_block_size(size, align)
                &&& forall|j: int|
                    0 <= j < i ==> block_size_spec(j) < required_block_size(size, align)
            },
            None => required_block_size(size, align) > block_size_spec(BLOCK_SIZE_COUNT - 1),
        },
{
}

/// Chooses the block size class for a request, scanning the classes in
/// ascending size order; a request larger than every class gets no class and
/// is served by the fallback allocator instead.
pub fn list_index(size: usize, align: usize) -> (r: Option<usize>)
    ensures
        r == match list_index_spec(size as int, align as int) {
            Some(i) => Some(i as usize),
            None => None::<usize>,
        },
{
    let required: usize = if size >= align {
        size
    } else {
        align
    };
    let mut i: usize = 0;
    while i < BLOCK_SIZE_COUNT
        invariant
            required == required_block_size(size as int, align as int),
            i <= BLOCK_SIZE_COUNT,
            forall|j: int|
                0 <= j < i ==> block_size_spec(j) < required_block_size(size as int, align as int),
        decreases BLOCK_SIZE_COUNT - i,
    {
        if block_size(i) >= required {
            proof {
                lemma_list_index_matches(size as int, align as int, i as int);
            }
            return Some(i);
        }
        i = i + 1;
    }
    proof {
        assert(block_size_spec(8) < required_block_size(size as int, align as int));
    }
    None
}

/// The first class that holds the required size is the one `list_index_spec`
/// names.
proof fn lemma_list_index_matches(size: int, align: int, i: int)
    requires
        0 <= i < BLOCK_SIZE_COUNT,
        block_size_spec(i) >= required_block_size(size, align),
        forall|j: int| 0 <= j < i ==> block_size_spec(j) < required_block_size(size, align),
    ensures
        list_index_spec(size, align) == Some(i),
{
    if i > 0 {
        assert(block_size_spec(i - 1) < required_block_size(size, align));
    }
}

/// How many bytes an allocation really takes out of the heap: a whole block of
/// the chosen class, or, for a classless request, exactly the requested size
/// carved from the fallback allocator.
pub open spec fn chunk_size_spec(size: int, align: int) -> int {
    match list_index_spec(size, align) {
        Some(i) => block_size_spec(i),
        None => size,
    }
}

/// The alignment an allocation is really served with: the block size of the
/// chosen class (block size doubles as block alignment), or the requested
/// alignment for a classless request.
pub open spec fn chunk_align_spec(size: int, align: int) -> int {
    match list_index_spec(size, align) {
        Some(i) => block_size_spec(i),
        None => align,
    }
}

/// Whether the free lists have a `j`-th block in class `i`.
pub open spec fn lists_valid_block(lists: Seq<Seq<usize>>, i: int, j: int) -> bool {
    0 <= i < BLOCK_SIZE_COUNT && 0 <= j < lists[i].len()
}

/// The address of the `j`-th free block of class `i`.
pub open spec fn lists_block(lists: Seq<Seq<usize>>, i: int, j: int) -> int {
    lists[i][j] as int
}

/// Whether address `a` lies in the `j`-th free block of class `i`.
pub open spec fn lists_in_block(lists: Seq<Seq<usize>>, i: int, j: int, a: int) -> bool {
    &&& lists_valid_block(lists, i, j)
    &&& lists_block(lists, i, j) <= a < lists_block(lists, i, j) + block_size_spec(i)
}

/// The bytes covered by the free lists.
pub open spec fn free_block_set(lists: Seq<Seq<usize>>) -> Set<int> {
    Set::new(|a: int| exists|i: int, j: int| lists_in_block(lists, i, j, a))
}

/// A segregated free-list allocator: one stack of free block addresses per
/// size class, plus an embedded fallback allocator over the same heap region
/// for classless requests and empty lists.
pub struct FixedSizeBlockAllocator {
    /// One free list per block size class; the head of a list is its last
    /// element, so a freed block is reused before older ones.
    pub list_heads: Vec<Vec<usize>>,
    pub fallback_allocator: FallbackAllocator,
}

impl FixedSizeBlockAllocator {
    /// Start of the owned heap region.
    pub open spec fn heap_start(self) -> int {
        self.fallback_allocator.heap_start as int
    }

    /// End of the owned heap region.
    pub open spec fn heap_end(self) -> int {
        self.fallback_allocator.heap_end as int
    }

    /// The free lists as sequences of block addresses.
    pub open spec fn free_lists(self) -> Seq<Seq<usize>> {
        self.list_heads@.map_values(|v: Vec<usize>| v@)
    }

    /// The free bytes of the whole allocator: the fallback allocator's free
    /// space together with every listed free block.
    pub open spec fn available(self) -> Set<int> {
        self.fallback_allocator.available().union(free_block_set(self.free_lists()))
    }

    /// Well-formedness: one list per class; every listed block is aligned to
    /// its class size and lies inside the heap; no two free blocks overlap;
    /// and no free block overlaps the fallback allocator's free space.
    pub open spec fn wf(self) -> bool {
        let lists = self.free_lists();
        &&& self.list_heads@.len() == BLOCK_SIZE_COUNT
        &&& self.fallback_allocator.wf()
        &&& forall|i: int, j: int|
            lists_valid_block(lists, i, j) ==> {
                &&& #[trigger] lists_block(lists, i, j) % block_size_spec(i) == 0
                &&& self.heap_start() <= lists_block(lists, i, j)
                &&& lists_block(lists, i, j) + block_size_spec(i) <= self.heap_end()
            }
        &&& forall|i1: int, j1: int, i2: int, j2: int|
            lists_valid_block(lists, i1, j1) && lists_valid_block(lists, i2, j2) && !(i1 == i2 && j1
                == j2) ==> (#[trigger] lists_block(lists, i1, j1) + block_size_spec(i1)
                <= #[trigger] lists_block(lists, i2, j2) || lists_block(lists, i2, j2)
                + block_size_spec(i2) <= lists_block(lists, i1, j1))
        &&& forall|i: int, j: int|
            lists_valid_block(lists, i, j) ==> range_set(
                #[trigger] lists_block(lists, i, j),
                block_size_spec(i),
            ).disjoint(self.fallback_allocator.available())
    }

    /// Creates an empty fixed-size-block allocator: every free list empty, the
    /// fallback allocator owning no memory yet.
    pub fn new() -> (r: Self)
        ensures
            r.wf(),
            r.free_lists().len() == BLOCK_SIZE_COUNT,
            forall|i: int| 0 <= i < BLOCK_SIZE_COUNT ==> #[trigger] r.free_lists()[i].len() == 0,
            r.fallback_allocator.heap_start == 0,
            r.fallback_allocator.heap_end == 0,
            r.fallback_allocator.regions@.len() == 0,
            r.available() == Set::<int>::empty(),
    {
        let mut list_heads: Vec<Vec<usize>> = Vec::new();
        let mut i: usize = 0;
        while i < BLOCK_SIZE_COUNT
            invariant
                i <= BLOCK_SIZE_COUNT,
                list_heads@.len() == i,
                forall|k: int| 0 <= k < i ==> #[trigger] list_heads@[k]@.len() == 0,
            decreases BLOCK_SIZE_COUNT - i,
        {
            list_heads.push(Vec::new());
            i = i + 1;
        }
        let r = FixedSizeBlockAllocator { list_heads, fallback_allocator: FallbackAllocator::new() };
        proof {
            lemma_no_blocks_when_empty(r.free_lists());
            assert(r.available() =~= Set::<int>::empty());
        }
        r
    }

    /// Hands the allocator the heap region `[heap_start, heap_start + heap_size)`
    /// by initializing the embedded fallback allocator over it; all free lists
    /// start empty, so every early allocation is carved from the fallback.
    ///
    /// May only be called once, on a freshly created allocator; the caller must
    /// own the whole region and must have mapped it read/write beforehand.
    pub fn init(&mut self, heap_start: usize, heap_size: usize)
        requires
            old(self).wf(),
            forall|i: int|
                0 <= i < BLOCK_SIZE_COUNT ==> #[trigger] old(self).free_lists()[i].len() == 0,
            old(self).fallback_allocator.heap_start == 0,
            old(self).fallback_allocator.heap_end == 0,
            old(self).fallback_allocator.regions@.len() == 0,
            heap_start + heap_size <= usize::MAX,
        ensures
            final(self).wf(),
            final(self).heap_start() == heap_start,
            final(self).heap_end() == heap_start + heap_size,
            final(self).free_lists() == old(self).free_lists(),
            final(self).available() == range_set(heap_start as int, heap_size as int),
            final(self).fallback_allocator.regions@.len() == (if heap_size > 0 {
                1int
            } else {
                0int
            }),
            heap_size > 0 ==> final(self).fallback_allocator.regions@[0] == (Region {
                start: heap_start,
                size: heap_size,
            }),
    {
        self.fallback_allocator.init(heap_start, heap_size);
        proof {
            assert(self.free_lists() == old(self).free_lists());
            assert forall|i: int| 0 <= i < self.free_lists().len() implies #[trigger] self.free_lists()[i].len()
                == 0 by {
                assert(old(self).free_lists()[i].len() == 0);
            }
            lemma_no_blocks_when_empty(self.free_lists());
            assert(self.available() =~= range_set(heap_start as int, heap_size as int));
        }
    }

    /// Allocates using the fallback allocator, leaving every free list as it
    /// is; fails exactly when no free region can hold the request.
    fn fallback_alloc(&mut self, size: usize, align: usize) -> (r: Option<usize>)
        requires
            old(self).wf(),
            is_pow2(align as int),
        ensures
            final(self).wf(),
            final(self).list_heads == old(self).list_heads,
            final(self).heap_start() == old(self).heap_start(),
            final(self).heap_end() == old(self).heap_end(),
            r is Some <==> old(self).fallback_allocator.has_fit(size as int, align as int),
            match r {
                Some(addr) => {
                    &&& addr % align == 0
                    &&& old(self).heap_start() <= addr
                    &&& addr + size <= old(self).heap_end()
                    &&& range_set(addr as int, size as int) <= old(
                        self,
                    ).fallback_allocator.available()
                    &&& final(self).available() == old(self).available().difference(
                        range_set(addr as int, size as int),
                    )
                    &&& Some(addr as int) == old(self).fallback_allocator.first_fit_addr(
                        size as int,
                        align as int,
                    )
                },
                None => *final(self) == *old(self),
            },
    {
        let r = self.fallback_allocator.allocate_first_fit(size, align);
        proof {
            assert(self.free_lists() == old(self).free_lists());
            if let Some(addr) = r {
                let lists = self.free_lists();
                let range = range_set(addr as int, size as int);
                // The free blocks are untouched and stay clear of the smaller
                // fallback free space.
                assert forall|i: int, j: int| lists_valid_block(lists, i, j) implies range_set(
                    #[trigger] lists_block(lists, i, j),
                    block_size_spec(i),
                ).disjoint(self.fallback_allocator.available()) by {
                    let b = range_set(lists_block(lists, i, j), block_size_spec(i));
                    assert(b.disjoint(old(self).fallback_allocator.available()));
                    assert forall|a: int| b.contains(a) implies !self.fallback_allocator.available(
                    ).contains(a) by {
                        assert(!old(self).fallback_allocator.available().contains(a));
                    }
                }
                // A carved run comes out of the fallback space, which no free
                // block overlaps, so at the whole-allocator level the free
                // space shrinks by exactly the carved run.
                assert forall|a: int| free_block_set(lists).contains(a) implies !range.contains(
                    a,
                ) by {
                    let (i, j) = choose|i: int, j: int| lists_in_block(lists, i, j, a);
                    assert(range_set(lists_block(lists, i, j), block_size_spec(i)).disjoint(
                        old(self).fallback_allocator.available(),
                    ));
                    assert(range_set(lists_block(lists, i, j), block_size_spec(i)).contains(a));
                    if range.contains(a) {
                        assert(old(self).fallback_allocator.available().contains(a));
                    }
                }
                assert(self.available() =~= old(self).available().difference(range));
            }
        }
        r
    }

    /// Serves one allocation. A request with a size class is served from that
    /// class's free list head when one is there, reusing freed memory
    /// directly; with the list empty, a whole fresh block of the class — size
    /// equal to alignment, since all classes are powers of two — is carved
    /// from the fallback allocator, so that the block can join the class's
    /// free list when it is freed. A classless (oversized) request is
    /// delegated unchanged to the fallback allocator and never touches a free
    /// list. A fallback failure propagates as an ordinary allocation failure.
    pub fn allocate(&mut self, size: usize, align: usize) -> (r: Option<usize>)
        requires
            old(self).wf(),
            is_pow2(align as int),
        ensures
            final(self).wf(),
            final(self).heap_start() == old(self).heap_start(),
            final(self).heap_end() == old(self).heap_end(),
            r is Some <==> (match list_index_spec(size as int, align as int) {
                Some(i) => old(self).free_lists()[i].len() > 0
                    || old(self).fallback_allocator.has_fit(
                    block_size_spec(i),
                    block_size_spec(i),
                ),
                None => old(self).fallback_allocator.has_fit(size as int, align as int),
            }),
            match r {
                Some(addr) => ({
                    let chunk = chunk_size_spec(size as int, align as int);
                    &&& addr % align == 0
                    &&& addr as int % chunk_align_spec(size as int, align as int) == 0
                    &&& old(self).heap_start() <= addr
                    &&& addr + chunk <= old(self).heap_end()
                    &&& size <= chunk
                    &&& range_set(addr as int, chunk) <= old(self).available()
                    &&& final(self).available() == old(self).available().difference(
                        range_set(addr as int, chunk),
                    )
                    &&& match list_index_spec(size as int, align as int) {
                        Some(i) => if old(self).free_lists()[i].len() > 0 {
                            &&& addr == old(self).free_lists()[i].last()
                            &&& final(self).free_lists() == old(self).free_lists().update(
                                i,
                                old(self).free_lists()[i].drop_last(),
                            )
                            &&& final(self).fallback_allocator == old(self).fallback_allocator
                        } else {
                            &&& final(self).free_lists() == old(self).free_lists()
                            &&& Some(addr as int) == old(self).fallback_allocator.first_fit_addr(
                                block_size_spec(i),
                                block_size_spec(i),
                            )
                        },
                        None => {
                            &&& final(self).free_lists() == old(self).free_lists()
                            &&& Some(addr as int) == old(self).fallback_allocator.first_fit_addr(
                                size as int,
                                align as int,
                            )
                        },
                    }
                }),
                None => *final(self) == *old(self),
            },
    {
        proof {
            lemma_pow2_positive(align as int);
            lemma_list_index_smallest(size as int, align as int);
        }
        match list_index(size, align) {
            Some(index) => {
                proof {
                    lemma_block_size_pow2(index as int);
                    lemma_pow2_divides(align as int, block_size_spec(index as int));
                }
                if self.list_heads[index].len() > 0 {
                    let mut list = self.list_heads.remove(index);
                    let node = list.pop();
                    self.list_heads.insert(index, list);
                    if let Some(addr) = node {
                        proof {
                            let lists0 = old(self).free_lists();
                            let lists1 = self.free_lists();
                            let i = index as int;
                            let bs = block_size_spec(i);
                            let jlast = lists0[i].len() - 1;
                            let range = range_set(addr as int, bs);
                            assert(lists1 =~~= lists0.update(i, lists0[i].drop_last()));
                            assert(addr as int == lists_block(lists0, i, jlast));
                            assert(lists_valid_block(lists0, i, jlast));
                            assert forall|x: int, y: int|
                                lists_valid_block(lists0, x, y) && !(x == i && y == jlast) implies (
                            #[trigger] lists_block(lists0, x, y) + block_size_spec(x)
                                <= addr as int || addr as int + bs <= lists_block(
                                lists0,
                                x,
                                y,
                            )) by {
                                assert(lists_block(lists0, x, y) + block_size_spec(x)
                                    <= lists_block(lists0, i, jlast) || lists_block(lists0, i, jlast)
                                    + bs <= lists_block(lists0, x, y));
                            }
                            lemma_block_pop(lists0, i, lists1);
                            // The popped block was free, so its bytes were
                            // available; and they never lay in the fallback
                            // space.
                            assert forall|a: int| range.contains(a) implies old(
                                self,
                            ).available().contains(a) && !old(
                                self,
                            ).fallback_allocator.available().contains(a) by {
                                assert(lists_in_block(lists0, i, jlast, a));
                                assert(free_block_set(lists0).contains(a));
                                assert(range_set(lists_block(lists0, i, jlast), bs).disjoint(
                                    old(self).fallback_allocator.available(),
                                ));
                                assert(range_set(lists_block(lists0, i, jlast), bs).contains(a));
                            }
                            assert(self.wf()) by {
                                assert forall|i2: int, j2: int|
                                    lists_valid_block(lists1, i2, j2) implies {
                                    &&& #[trigger] lists_block(lists1, i2, j2) % block_size_spec(
                                        i2,
                                    ) == 0
                                    &&& self.heap_start() <= lists_block(lists1, i2, j2)
                                    &&& lists_block(lists1, i2, j2) + block_size_spec(i2)
                                        <= self.heap_end()
                                } by {
                                    assert(lists_valid_block(lists0, i2, j2));
                                    assert(lists_block(lists1, i2, j2) == lists_block(
                                        lists0,
                                        i2,
                                        j2,
                                    ));
                                }
                                assert forall|i1: int, j1: int, i2: int, j2: int|
                                    lists_valid_block(lists1, i1, j1) && lists_valid_block(
                                        lists1,
                                        i2,
                                        j2,
                                    ) && !(i1 == i2 && j1 == j2) implies (#[trigger] lists_block(
                                    lists1,
                                    i1,
                                    j1,
                                ) + block_size_spec(i1) <= #[trigger] lists_block(lists1, i2, j2)
                                    || lists_block(lists1, i2, j2) + block_size_spec(i2)
                                    <= lists_block(lists1, i1, j1)) by {
                                    assert(lists_valid_block(lists0, i1, j1));
                                    assert(lists_valid_block(lists0, i2, j2));
                                    assert(lists_block(lists1, i1, j1) == lists_block(
                                        lists0,
                                        i1,
                                        j1,
                                    ));
                                    assert(lists_block(lists1, i2, j2) == lists_block(
                                        lists0,
                                        i2,
                                        j2,
                                    ));
                                }
                                assert forall|i2: int, j2: int|
                                    lists_valid_block(lists1, i2, j2) implies range_set(
                                    #[trigger] lists_block(lists1, i2, j2),
                                    block_size_spec(i2),
                                ).disjoint(self.fallback_allocator.available()) by {
                                    assert(lists_valid_block(lists0, i2, j2));
                                    assert(lists_block(lists1, i2, j2) == lists_block(
                                        lists0,
                                        i2,
                                        j2,
                                    ));
                                }
                            }
                            assert(self.available() =~= old(self).available().difference(range));
                            // A block of the chosen class is aligned for the
                            // request itself: the class size is a power of two
                            // at least as large as the requested alignment.
                            lemma_aligned_transfer(addr as int, bs, align as int);
                        }
                        Some(addr)
                    } else {
                        proof {
                            assert(false);
                        }
                        None
                    }
                } else {
                    let bs = block_size(index);
                    let r = self.fallback_alloc(bs, bs);
                    proof {
                        if let Some(addr) = r {
                            lemma_aligned_transfer(
                                addr as int,
                                block_size_spec(index as int),
                                align as int,
                            );
                            assert forall|a: int|
                                range_set(addr as int, block_size_spec(index as int)).contains(
                                a,
                            ) implies old(self).available().contains(a) by {
                                assert(old(self).fallback_allocator.available().contains(a));
                            }
                        }
                    }
                    r
                }
            },
            None => {
                let r = self.fallback_alloc(size, align);
                proof {
                    if let Some(addr) = r {
                        assert forall|a: int|
                            range_set(addr as int, size as int).contains(a) implies old(
                            self,
                        ).available().contains(a) by {
                            assert(old(self).fallback_allocator.available().contains(a));
                        }
                    }
                }
                r
            },
        }
    }

    /// Returns one allocation. A request with a size class gets its block
    /// pushed onto that class's free list — the same class the matching
    /// `allocate` used, recomputed from the same static class table — and a
    /// classless request goes back to the fallback allocator.
    ///
    /// The caller must pass the exact size and alignment of the matching
    /// `allocate` call, for a block that is still live: that is what the
    /// alignment, bounds and disjointness preconditions say, and `allocate`'s
    /// postconditions establish all of them for the block it hands out.
    pub fn deallocate(&mut self, addr: usize, size: usize, align: usize)
        requires
            old(self).wf(),
            is_pow2(align as int),
            addr as int % chunk_align_spec(size as int, align as int) == 0,
            old(self).heap_start() <= addr,
            addr + chunk_size_spec(size as int, align as int) <= old(self).heap_end(),
            range_set(addr as int, chunk_size_spec(size as int, align as int)).disjoint(
                old(self).available(),
            ),
        ensures
            final(self).wf(),
            final(self).heap_start() == old(self).heap_start(),
            final(self).heap_end() == old(self).heap_end(),
            final(self).available() == old(self).available().union(
                range_set(addr as int, chunk_size_spec(size as int, align as int)),
            ),
            match list_index_spec(size as int, align as int) {
                Some(i) => final(self).free_lists() == old(self).free_lists().update(
                    i,
                    old(self).free_lists()[i].push(addr),
                ) && final(self).fallback_allocator == old(self).fallback_allocator,
                None => final(self).free_lists() == old(self).free_lists(),
            },
    {
        let ghost chunk = chunk_size_spec(size as int, align as int);
        match list_index(size, align) {
            Some(index) => {
                proof {
                    // The freed block must be able to hold the free-list node
                    // that the target layout writes into its first bytes; with
                    // the smallest class at 8 bytes this always holds.
                    assert(LIST_NODE_SIZE as int <= block_size_spec(index as int));
                    assert(LIST_NODE_ALIGN as int <= block_size_spec(index as int));
                }
                let mut list = self.list_heads.remove(index);
                list.push(addr);
                self.list_heads.insert(index, list);
                proof {
                    let lists0 = old(self).free_lists();
                    let lists1 = self.free_lists();
                    let i = index as int;
                    let bs = block_size_spec(i);
                    assert(lists1 =~~= lists0.update(i, lists0[i].push(addr)));
                    lemma_block_push(lists0, i, addr, lists1);
                    // The freed block does not overlap any listed block: a
                    // common byte would lie both in the freed run and in the
                    // free space, which the precondition rules out.
                    assert forall|i2: int, j2: int|
                        lists_valid_block(lists0, i2, j2) implies (#[trigger] lists_block(
                        lists0,
                        i2,
                        j2,
                    ) + block_size_spec(i2) <= addr as int || addr as int + bs <= lists_block(
                        lists0,
                        i2,
                        j2,
                    )) by {
                        let b2 = lists_block(lists0, i2, j2);
                        if !(b2 + block_size_spec(i2) <= addr as int || addr as int + bs <= b2) {
                            let w = if b2 >= addr as int {
                                b2
                            } else {
                                addr as int
                            };
                            assert(lists_in_block(lists0, i2, j2, w));
                            assert(free_block_set(lists0).contains(w));
                            assert(old(self).available().contains(w));
                            assert(range_set(addr as int, chunk).contains(w));
                        }
                    }
                    // Nor does it overlap the fallback allocator's free space.
                    assert forall|a: int|
                        range_set(addr as int, bs).contains(a) implies !old(
                        self,
                    ).fallback_allocator.available().contains(a) by {
                        assert(!old(self).available().contains(a));
                    }
                    assert(self.wf()) by {
                        assert forall|i2: int, j2: int|
                            lists_valid_block(lists1, i2, j2) implies {
                            &&& #[trigger] lists_block(lists1, i2, j2) % block_size_spec(i2) == 0
                            &&& self.heap_start() <= lists_block(lists1, i2, j2)
                            &&& lists_block(lists1, i2, j2) + block_size_spec(i2)
                                <= self.heap_end()
                        } by {
                            if i2 == i && j2 == lists0[i].len() {
                                assert(lists_block(lists1, i2, j2) == addr as int);
                            } else {
                                assert(lists_block(lists1, i2, j2) == lists_block(
                                    lists0,
                                    i2,
                                    j2,
                                ));
                                assert(lists_valid_block(lists0, i2, j2));
                            }
                        }
                        assert forall|i1: int, j1: int, i2: int, j2: int|
                            lists_valid_block(lists1, i1, j1) && lists_valid_block(lists1, i2, j2)
                                && !(i1 == i2 && j1 == j2) implies (#[trigger] lists_block(
                            lists1,
                            i1,
                            j1,
                        ) + block_size_spec(i1) <= #[trigger] lists_block(lists1, i2, j2)
                            || lists_block(lists1, i2, j2) + block_size_spec(i2) <= lists_block(
                            lists1,
                            i1,
                            j1,
                        )) by {
                            lemma_push_separation(lists0, lists1, i, addr, i1, j1, i2, j2);
                        }
                        assert forall|i2: int, j2: int|
                            lists_valid_block(lists1, i2, j2) implies range_set(
                            #[trigger] lists_block(lists1, i2, j2),
                            block_size_spec(i2),
                        ).disjoint(self.fallback_allocator.available()) by {
                            if i2 == i && j2 == lists0[i].len() {
                                assert(lists_block(lists1, i2, j2) == addr as int);
                                assert forall|a: int|
                                    range_set(addr as int, bs).contains(a) implies !self
                                    .fallback_allocator.available().contains(a) by {
                                    assert(!old(self).fallback_allocator.available().contains(a));
                                }
                            } else {
                                assert(lists_block(lists1, i2, j2) == lists_block(
                                    lists0,
                                    i2,
                                    j2,
                                ));
                                assert(lists_valid_block(lists0, i2, j2));
                            }
                        }
                    }
                    assert(self.available() =~= old(self).available().union(
                        range_set(addr as int, chunk),
                    ));
                }
            },
            None => {
                proof {
                    assert forall|a: int|
                        range_set(addr as int, size as int).contains(a) implies !old(
                        self,
                    ).fallback_allocator.available().contains(a) by {
                        assert(!old(self).available().contains(a));
                    }
                }
                self.fallback_allocator.deallocate(addr, size);
                proof {
                    assert(self.free_lists() == old(self).free_lists());
                    let lists = self.free_lists();
                    // The free blocks stay clear of the grown fallback space:
                    // they avoided the old space, and they avoid the freed run.
                    assert forall|i2: int, j2: int|
                        lists_valid_block(lists, i2, j2) implies range_set(
                        #[trigger] lists_block(lists, i2, j2),
                        block_size_spec(i2),
                    ).disjoint(self.fallback_allocator.available()) by {
                        let b = range_set(lists_block(lists, i2, j2), block_size_spec(i2));
                        assert(b.disjoint(old(self).fallback_allocator.available()));
                        assert forall|a: int| b.contains(a) implies !self.fallback_allocator
                            .available().contains(a) by {
                            assert(lists_in_block(lists, i2, j2, a));
                            assert(free_block_set(lists).contains(a));
                            assert(old(self).available().contains(a));
                            assert(!old(self).fallback_allocator.available().contains(a));
                            assert(!range_set(addr as int, size as int).contains(a));
                        }
                    }
                    assert(self.available() =~= old(self).available().union(
                        range_set(addr as int, chunk),
                    ));
                }
            },
        }
    }
}

/// Popping the head block of class `index` shrinks the covered bytes by
/// exactly that block's range, given that the popped block overlaps no other
/// listed block.
proof fn lemma_block_pop(lists: Seq<Seq<usize>>, index: int, lists2: Seq<Seq<usize>>)
    requires
        lists.len() == BLOCK_SIZE_COUNT,
        0 <= index < BLOCK_SIZE_COUNT,
        lists[index].len() > 0,
        lists2 == lists.update(index, lists[index].drop_last()),
        forall|x: int, y: int|
            lists_valid_block(lists, x, y) && !(x == index && y == lists[index].len() - 1) ==> (
            #[trigger] lists_block(lists, x, y) + block_size_spec(x) <= lists_block(
                lists,
                index,
                lists[index].len() - 1,
            ) || lists_block(lists, index, lists[index].len() - 1) + block_size_spec(index)
                <= lists_block(lists, x, y)),
    ensures
        free_block_set(lists2) == free_block_set(lists).difference(
            range_set(lists_block(lists, index, lists[index].len() - 1), block_size_spec(index)),
        ),
{
    let jlast = lists[index].len() - 1;
    let range = range_set(lists_block(lists, index, jlast), block_size_spec(index));
    assert forall|a: int| #[trigger] free_block_set(lists2).contains(a) implies free_block_set(
        lists,
    ).contains(a) && !range.contains(a) by {
        let (i, j) = choose|i: int, j: int| lists_in_block(lists2, i, j, a);
        assert(lists_valid_block(lists, i, j));
        assert(lists_block(lists2, i, j) == lists_block(lists, i, j));
        assert(lists_in_block(lists, i, j, a));
        assert(!(i == index && j == jlast));
    }
    assert forall|a: int|
        free_block_set(lists).contains(a) && !range.contains(a) implies #[trigger] free_block_set(
        lists2,
    ).contains(a) by {
        let (i, j) = choose|i: int, j: int| lists_in_block(lists, i, j, a);
        assert(!(i == index && j == jlast));
        assert(lists_in_block(lists2, i, j, a));
    }
    assert(free_block_set(lists2) =~= free_block_set(lists).difference(range));
}

/// Pushing a block onto class `index` grows the covered bytes by exactly that
/// block's range.
proof fn lemma_block_push(lists: Seq<Seq<usize>>, index: int, addr: usize, lists2: Seq<Seq<usize>>)
    requires
        lists.len() == BLOCK_SIZE_COUNT,
        0 <= index < BLOCK_SIZE_COUNT,
        lists2 == lists.update(index, lists[index].push(addr)),
    ensures
        free_block_set(lists2) == free_block_set(lists).union(
            range_set(addr as int, block_size_spec(index)),
        ),
{
    let range = range_set(addr as int, block_size_spec(index));
    assert forall|a: int| #[trigger] free_block_set(lists2).contains(a) implies free_block_set(
        lists,
    ).contains(a) || range.contains(a) by {
        let (i, j) = choose|i: int, j: int| lists_in_block(lists2, i, j, a);
        if i == index && j == lists[index].len() {
            assert(lists_block(lists2, i, j) == addr as int);
        } else {
            assert(lists_in_block(lists, i, j, a));
        }
    }
    assert forall|a: int|
        free_block_set(lists).contains(a) || range.contains(a) implies #[trigger] free_block_set(
        lists2,
    ).contains(a) by {
        if free_block_set(lists).contains(a) {
            let (i, j) = choose|i: int, j: int| lists_in_block(lists, i, j, a);
            assert(lists_in_block(lists2, i, j, a));
        } else {
            assert(lists_in_block(lists2, index, lists[index].len() as int, a));
        }
    }
    assert(free_block_set(lists2) =~= free_block_set(lists).union(range));
}

/// Two distinct blocks of the grown lists are separate, given that the old
/// blocks were pairwise separate and the new block avoids all of them.
#[verifier::spinoff_prover]
proof fn lemma_push_separation(
    lists: Seq<Seq<usize>>,
    lists2: Seq<Seq<usize>>,
    index: int,
    addr: usize,
    i1: int,
    j1: int,
    i2: int,
    j2: int,
)
    requires
        lists.len() == BLOCK_SIZE_COUNT,
        0 <= index < BLOCK_SIZE_COUNT,
        lists2 == lists.update(index, lists[index].push(addr)),
        forall|x1: int, y1: int, x2: int, y2: int|
            lists_valid_block(lists, x1, y1) && lists_valid_block(lists, x2, y2) && !(x1 == x2 && y1
                == y2) ==> (#[trigger] lists_block(lists, x1, y1) + block_size_spec(x1)
                <= #[trigger] lists_block(lists, x2, y2) || lists_block(lists, x2, y2)
                + block_size_spec(x2) <= lists_block(lists, x1, y1)),
        forall|x: int, y: int|
            lists_valid_block(lists, x, y) ==> (#[trigger] lists_block(lists, x, y)
                + block_size_spec(x) <= addr as int || addr as int + block_size_spec(index)
                <= lists_block(lists, x, y)),
        lists_valid_block(lists2, i1, j1),
        lists_valid_block(lists2, i2, j2),
        !(i1 == i2 && j1 == j2),
    ensures
        lists_block(lists2, i1, j1) + block_size_spec(i1) <= lists_block(lists2, i2, j2)
            || lists_block(lists2, i2, j2) + block_size_spec(i2) <= lists_block(lists2, i1, j1),
{
    let new1 = i1 == index && j1 == lists[index].len();
    let new2 = i2 == index && j2 == lists[index].len();
    if new1 {
        assert(lists_block(lists2, i1, j1) == addr as int);
        assert(lists_valid_block(lists, i2, j2));
        assert(lists_block(lists2, i2, j2) == lists_block(lists, i2, j2));
    } else if new2 {
        assert(lists_block(lists2, i2, j2) == addr as int);
        assert(lists_valid_block(lists, i1, j1));
        assert(lists_block(lists2, i1, j1) == lists_block(lists, i1, j1));
    } else {
        assert(lists_valid_block(lists, i1, j1));
        assert(lists_valid_block(lists, i2, j2));
        assert(lists_block(lists2, i1, j1) == lists_block(lists, i1, j1));
        assert(lists_block(lists2, i2, j2) == lists_block(lists, i2, j2));
    }
}

/// Law (fixed-size-block reuse): freeing a block of class `i` and then
/// allocating any request that maps to the same class, with no other operation
/// on that class in between, returns the freed block's address. `deallocate`'s
/// postcondition pushes the freed address onto the class list, so the list is
/// non-empty with that address as its head; `allocate`'s postcondition then
/// pins its result to that head.
pub proof fn lemma_block_reuse(
    pre: FixedSizeBlockAllocator,
    post: FixedSizeBlockAllocator,
    addr: usize,
    i: int,
    size2: int,
    align2: int,
)
    requires
        0 <= i < BLOCK_SIZE_COUNT,
        pre.free_lists().len() == BLOCK_SIZE_COUNT,
        post.free_lists() == pre.free_lists().update(i, pre.free_lists()[i].push(addr)),
        list_index_spec(size2, align2) == Some(i),
    ensures
        post.free_lists()[i].len() > 0,
        post.free_lists()[i].last() == addr,
{
}

/// Empty free lists cover no bytes at all.
proof fn lemma_no_blocks_when_empty(lists: Seq<Seq<usize>>)
    requires
        lists.len() == BLOCK_SIZE_COUNT,
        forall|i: int| 0 <= i < lists.len() ==> #[trigger] lists[i].len() == 0,
    ensures
        free_block_set(lists) == Set::<int>::empty(),
{
    assert forall|a: int| !(#[trigger] free_block_set(lists).contains(a)) by {
        if free_block_set(lists).contains(a) {
            let (i, j) = choose|i: int, j: int| lists_in_block(lists, i, j, a);
            assert(lists[i].len() == 0);
        }
    }
    assert(free_block_set(lists) =~= Set::<int>::empty());
}

} // verus!
