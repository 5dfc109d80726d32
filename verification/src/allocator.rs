//! The allocator family's shared pieces: the heap-region configuration, the
//! alignment utility used by every allocator, and the do-nothing placeholder
//! allocator.
use vstd::prelude::*;
use vstd::arithmetic::div_mod::{
    lemma_breakdown, lemma_fundamental_div_mod, lemma_fundamental_div_mod_converse,
    lemma_mod_decreases, lemma_mod_division_less_than_divisor, lemma_mod_multiples_basic,
    lemma_small_mod,
};
use vstd::arithmetic::power2::is_pow2;

pub mod bump;
pub mod fallback;
pub mod fixed_size_block;
pub mod non_overlap;

verus! {

/// Virtual base address of the kernel heap; the paging layer must map
/// `[HEAP_START, HEAP_START + HEAP_SIZE)` read/write before any allocator is
/// initialized over it. Held as `u64` because the address names a location in
/// the 64-bit virtual address space of the target machine.
pub const HEAP_START: u64 = 0x4444_4444_0000;

/// Size of the kernel heap in bytes (100 KiB).
pub const HEAP_SIZE: usize = 100 * 1024;

/// The inclusive range of 4 KiB page indices covering the heap region. The
/// paging layer must obtain a physical frame for each of these pages and map
/// it read/write before the installed allocator's `init` runs: `init` is the
/// first point at which the allocator writes into the heap.
pub fn heap_page_range() -> (r: (u64, u64))
    ensures
        r.0 == HEAP_START as int / 4096,
        r.1 == (HEAP_START + HEAP_SIZE - 1) as int / 4096,
        r.0 <= r.1,
{
    let first = HEAP_START / 4096;
    let last = (HEAP_START + HEAP_SIZE as u64 - 1) / 4096;
    (first, last)
}

/// The smallest multiple of `align` that is at least `addr`.
pub open spec fn align_up_spec(addr: int, align: int) -> int
    recommends
        align > 0,
{
    ((addr + align - 1) / align) * align
}

/// The defining properties of `align_up_spec`: it is aligned, it does not move
/// the address down, it moves it up by less than one whole alignment unit, and
/// it is the smallest aligned address at or above `addr`.
pub proof fn lemma_align_up_spec(addr: int, align: int)
    requires
        align > 0,
        addr >= 0,
    ensures
        align_up_spec(addr, align) % align == 0,
        addr <= align_up_spec(addr, align) < addr + align,
        forall|x: int| x >= addr && #[trigger] (x % align) == 0 ==> x >= align_up_spec(addr, align),
{
    let t = addr + align - 1;
    let q = t / align;
    let r = t % align;
    lemma_fundamental_div_mod(t, align);
    lemma_mod_division_less_than_divisor(t, align);
    lemma_mod_multiples_basic(q, align);
    assert(align_up_spec(addr, align) == t - r);
    assert forall|x: int| x >= addr && #[trigger] (x % align) == 0 implies x >= align_up_spec(
        addr,
        align,
    ) by {
        let a = align_up_spec(addr, align);
        if x < a {
            // x and a are both multiples of align with a - align < addr <= x < a,
            // so their positive difference is a multiple of align below align.
            let d = a - x;
            lemma_fundamental_div_mod(x, align);
            assert(a == q * align);
            assert(x == (x / align) * align);
            assert(d == (q - x / align) * align) by (nonlinear_arith)
                requires
                    a == q * align,
                    x == (x / align) * align,
                    d == a - x,
            ;
            lemma_mod_multiples_basic(q - x / align, align);
            assert(d % align == 0);
            lemma_small_mod(d as nat, align as nat);
            assert(d == 0);
        }
    }
}

/// A power of two is positive.
pub proof fn lemma_pow2_positive(n: int)
    requires
        is_pow2(n),
    ensures
        n >= 1,
{
    reveal(is_pow2);
    if n <= 0 {
        assert(!is_pow2(n));
    }
}

/// Remainder-based rounding computes `align_up_spec`: an aligned address stays
/// put, any other moves up to the end of its alignment unit.
pub proof fn lemma_align_up_remainder(addr: int, align: int)
    requires
        align > 0,
        addr >= 0,
    ensures
        addr % align == 0 ==> align_up_spec(addr, align) == addr,
        addr % align != 0 ==> align_up_spec(addr, align) == addr - addr % align + align,
{
    let q = addr / align;
    let m = addr % align;
    lemma_fundamental_div_mod(addr, align);
    lemma_mod_division_less_than_divisor(addr, align);
    if m == 0 {
        assert(addr + align - 1 == q * align + (align - 1)) by (nonlinear_arith)
            requires
                addr == align * q + m,
                m == 0,
        ;
        lemma_fundamental_div_mod_converse(addr + align - 1, align, q, align - 1);
        assert(align_up_spec(addr, align) == q * align);
        assert(q * align == addr) by (nonlinear_arith)
            requires
                addr == align * q + m,
                m == 0,
        ;
    } else {
        assert(addr + align - 1 == (q + 1) * align + (m - 1)) by (nonlinear_arith)
            requires
                addr == align * q + m,
        ;
        lemma_fundamental_div_mod_converse(addr + align - 1, align, q + 1, m - 1);
        assert(align_up_spec(addr, align) == (q + 1) * align);
        assert((q + 1) * align == addr - m + align) by (nonlinear_arith)
            requires
                addr == align * q + m,
        ;
    }
}

/// Aligns `addr` upward to the next multiple of `align`.
///
/// `align` must be a power of two: both allocators use a block size as the
/// block alignment, and all block sizes are powers of two.
pub fn align_up(addr: usize, align: usize) -> (r: usize)
    requires
        is_pow2(align as int),
        addr + align - 1 <= usize::MAX,
    ensures
        r == align_up_spec(addr as int, align as int),
        r % align == 0,
        addr <= r < addr + align,
{
    proof {
        lemma_pow2_positive(align as int);
        lemma_align_up_spec(addr as int, align as int);
        lemma_align_up_remainder(addr as int, align as int);
        lemma_mod_decreases(addr as nat, align as nat);
    }
    let remainder = addr % align;
    if remainder == 0 {
        addr
    } else {
        addr - remainder + align
    }
}

/// Masking with a power of two's predecessor computes the remainder:
/// `x & (align - 1) == x % align` whenever `align` is a power of two.
pub proof fn lemma_pow2_mask_mod(x: usize, align: usize)
    requires
        is_pow2(align as int),
    ensures
        align >= 1,
        x & ((align - 1) as usize) == x % align,
    decreases align,
{
    reveal(is_pow2);
    lemma_pow2_positive(align as int);
    if align == 1 {
        assert(x & 0usize == 0) by (bit_vector);
    } else {
        let h = (align as int / 2) as usize;
        let x2 = (x as int / 2) as usize;
        lemma_pow2_mask_mod(x2, h);
        // Split both the mask and the remainder into the lowest bit and the rest.
        assert(x & ((align - 1) as usize) == 2 * (x2 & ((h - 1) as usize)) + (x % 2)) by (bit_vector)
            requires
                align == 2 * h,
                h >= 1,
                x2 == x / 2,
        ;
        lemma_breakdown(x as int, 2, h as int);
    }
}

/// Aligns `addr` upward to the next multiple of `align` with one bitmask
/// computation: clearing the bits of `addr + align - 1` below the alignment
/// aligns it downward. Agrees with `align_up` for every power-of-two
/// alignment: both return `align_up_spec(addr, align)`.
pub fn align_up_complicated(addr: usize, align: usize) -> (r: usize)
    requires
        is_pow2(align as int),
        addr + align <= usize::MAX,
    ensures
        r == align_up_spec(addr as int, align as int),
        r % align == 0,
        addr <= r < addr + align,
{
    proof {
        lemma_pow2_positive(align as int);
        lemma_align_up_spec(addr as int, align as int);
        let t = (addr + align - 1) as usize;
        let q = t as int / align as int;
        lemma_fundamental_div_mod(t as int, align as int);
        assert(q * align as int == t - t % align) by (nonlinear_arith)
            requires
                t as int == align as int * q + t as int % align as int,
        ;
        lemma_pow2_mask_mod(t, align);
        assert(t & !((align - 1) as usize) == t - (t & ((align - 1) as usize))) by (bit_vector);
    }
    (addr + align - 1) & !(align - 1)
}

/// A placeholder allocator: it satisfies the allocator boundary contract by
/// failing every request, and it never hands out memory, so nothing may ever
/// be returned to it.
pub struct Dummy;

impl Dummy {
    /// Always fails: the placeholder owns no heap region to serve from.
    pub fn allocate(&self, _size: usize, _align: usize) -> (r: Option<usize>)
        ensures
            r is None,
    {
        None
    }
}

} // verus!
