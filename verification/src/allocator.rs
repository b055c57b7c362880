use vstd::prelude::*;

pub mod bump;
pub mod linked_list;
pub mod fixed_size_block;

verus! {

use vstd::arithmetic::power2::{
    lemma_pow2_adds,
    pow2,
    lemma_pow2_unfold,
    lemma_pow2_strictly_increases,
    lemma2_to64,
};
use vstd::bits::{low_bits_mask, lemma_usize_low_bits_mask_is_mod};
use vstd::layout::unsigned_int_max_values;

/// Start of the heap's virtual address range in the reference configuration.
/// Held as a `u64` so that the address is meaningful on the 64-bit target
/// regardless of the host's pointer width.
pub const HEAP_START: u64 = 0x4eab_a2ea_0000;

/// Size of the heap in bytes in the reference configuration (128 KiB).
pub const HEAP_SIZE: usize = 0x2_0000;

/// Size in bytes of one page of the heap's virtual range.
pub const PAGE_SIZE: usize = 4096;

/// Placeholder allocator used before a real heap exists.
pub struct Dummy();

impl Dummy {
    /// Refuses every request. A deallocate is deliberately absent: nothing is
    /// ever handed out, so nothing can come back.
    pub fn allocate(&self, _size: usize, _align: usize) -> (r: Option<usize>)
        ensures
            r is None,
    {
        None
    }
}

/// The pages that back the heap region: the indices of the first and the last
/// page that `[heap_start, heap_start + heap_size)` touches. The bootstrap
/// code maps one frame for each page in this range, and only then hands the
/// region to the allocator.
pub fn heap_page_range(heap_start: usize, heap_size: usize) -> (r: (usize, usize))
    requires
        1 <= heap_size,
        heap_start + heap_size - 1 <= usize::MAX,
    ensures
        r.0 == heap_start as int / PAGE_SIZE as int,
        r.1 == (heap_start + heap_size - 1) / PAGE_SIZE as int,
        r.0 <= r.1,
        // Every address of the region lies on one of these pages.
        forall|a: int|
            heap_start <= a < heap_start + heap_size ==> r.0 <= #[trigger] (a / PAGE_SIZE as int)
                <= r.1,
{
    let first = heap_start / PAGE_SIZE;
    let last = (heap_start + (heap_size - 1)) / PAGE_SIZE;
    proof {
        assert forall|a: int| heap_start <= a < heap_start + heap_size implies first <= #[trigger] (
        a / PAGE_SIZE as int) <= last by {
            vstd::arithmetic::div_mod::lemma_div_is_ordered(heap_start as int, a, PAGE_SIZE as int);
            vstd::arithmetic::div_mod::lemma_div_is_ordered(
                a,
                heap_start + heap_size - 1,
                PAGE_SIZE as int,
            );
        }
    }
    (first, last)
}

/// Two byte ranges, each given as start address and length, do not overlap.
pub open spec fn ranges_disjoint(a1: int, s1: int, a2: int, s2: int) -> bool {
    a1 + s1 <= a2 || a2 + s2 <= a1
}

/// No two live blocks overlap.
pub open spec fn live_pairwise_disjoint(live: Seq<(int, int)>) -> bool {
    forall|k: int, m: int|
        0 <= k < live.len() && 0 <= m < live.len() && k != m ==> ranges_disjoint(
            (#[trigger] live[k]).0,
            live[k].1,
            (#[trigger] live[m]).0,
            live[m].1,
        )
}

/// Every live block lies inside the heap's configured bounds.
pub open spec fn live_within(live: Seq<(int, int)>, lo: int, hi: int) -> bool {
    forall|k: int| 0 <= k < live.len() ==> lo <= (#[trigger] live[k]).0 && live[k].0 + live[k].1 <= hi
}

/// An alignment is valid when it is a power of two.
pub open spec fn is_power_of_two(a: int) -> bool
    decreases a,
{
    if a <= 0 {
        false
    } else if a == 1 {
        true
    } else {
        a % 2 == 0 && is_power_of_two(a / 2)
    }
}

/// The smallest multiple of `a` that is at least `n`.
pub open spec fn align_up_spec(n: int, a: int) -> int
    recommends
        a >= 1,
{
    if n % a == 0 {
        n
    } else {
        n + a - n % a
    }
}

/// Two multiples of `a` inside one window of width `a` coincide.
proof fn lemma_multiple_in_window_unique(a: int, n: int, x: int, y: int)
    requires
        a >= 1,
        x % a == 0,
        y % a == 0,
        n <= x < n + a,
        n <= y < n + a,
    ensures
        x == y,
{
    assert(x == y) by (nonlinear_arith)
        requires
            a >= 1,
            x % a == 0,
            y % a == 0,
            n <= x < n + a,
            n <= y < n + a,
    ;
}

/// `align_up_spec` indeed returns the smallest multiple of `a` at or above `n`.
pub proof fn lemma_align_up_spec_props(n: int, a: int)
    requires
        a >= 1,
    ensures
        align_up_spec(n, a) % a == 0,
        n <= align_up_spec(n, a) < n + a,
{
    if n % a == 0 {
    } else {
        let s = n + a - n % a;
        assert(s % a == 0) by (nonlinear_arith)
            requires
                a >= 1,
                s == n + a - n % a,
        ;
    }
}

/// A power of two has the bit pattern `100...0`, so `a & (a - 1) == 0`.
proof fn lemma_power_of_two_bit_form(a: usize)
    requires
        is_power_of_two(a as int),
    ensures
        a >= 1,
        a & ((a - 1) as usize) == 0,
    decreases a,
{
    if a as int == 1 {
        assert(1usize & 0usize == 0) by (bit_vector);
    } else {
        lemma_power_of_two_bit_form(a / 2);
        assert(a & ((a - 1) as usize) == 0) by (bit_vector)
            requires
                2 <= a,
                a % 2 == 0,
                (a / 2) & ((a / 2 - 1) as usize) == 0,
        ;
    }
}

/// A power of two is `pow2` of some exponent below the pointer width.
proof fn lemma_power_of_two_exponent(a: usize) -> (k: nat)
    requires
        is_power_of_two(a as int),
    ensures
        k < usize::BITS,
        a == pow2(k),
    decreases a,
{
    unsigned_int_max_values();
    lemma2_to64();
    if a == 1 {
        assert(0 < usize::BITS);
        0
    } else {
        let k1 = lemma_power_of_two_exponent(a / 2);
        lemma_pow2_unfold(k1 + 1);
        if k1 + 1 > usize::BITS as nat {
            lemma_pow2_strictly_increases(usize::BITS as nat, k1 + 1);
        }
        assert(k1 + 1 < usize::BITS);
        k1 + 1
    }
}

/// The alignments and size classes this subsystem works with are all small
/// powers of two; this unfolds the predicate for them once and for all.
pub proof fn lemma_power_of_two_constants()
    ensures
        is_power_of_two(1),
        is_power_of_two(2),
        is_power_of_two(4),
        is_power_of_two(8),
        is_power_of_two(16),
        is_power_of_two(32),
        is_power_of_two(64),
        is_power_of_two(128),
        is_power_of_two(256),
        is_power_of_two(512),
        is_power_of_two(1024),
        is_power_of_two(2048),
        is_power_of_two(4096),
{
    assert(is_power_of_two(1));
    assert(is_power_of_two(2));
    assert(is_power_of_two(4));
    assert(is_power_of_two(8));
    assert(is_power_of_two(16));
    assert(is_power_of_two(32));
    assert(is_power_of_two(64));
    assert(is_power_of_two(128));
    assert(is_power_of_two(256));
    assert(is_power_of_two(512));
    assert(is_power_of_two(1024));
    assert(is_power_of_two(2048));
    assert(is_power_of_two(4096));
}

/// The smaller of two powers of two divides the larger.
pub proof fn lemma_power_of_two_divides(a: int, b: int)
    requires
        is_power_of_two(a),
        is_power_of_two(b),
        a <= b,
    ensures
        b % a == 0,
    decreases b,
{
    if a == b {
        vstd::arithmetic::div_mod::lemma_mod_self_0(a);
    } else if a == 1 {
        assert(b % 1 == 0) by (nonlinear_arith)
            requires
                b >= 1,
        ;
    } else {
        lemma_power_of_two_divides(a / 2, b / 2);
        let ha = a / 2;
        let hb = b / 2;
        vstd::arithmetic::div_mod::lemma_fundamental_div_mod(hb, ha);
        assert(b == (hb / ha) * a) by (nonlinear_arith)
            requires
                hb == ha * (hb / ha) + 0,
                b == 2 * hb,
                a == 2 * ha,
        ;
        vstd::arithmetic::div_mod::lemma_mod_multiples_basic(hb / ha, a);
    }
}

/// Divisibility is transitive: a multiple of `b` is a multiple of every
/// divisor of `b`.
pub proof fn lemma_mod_trans(x: int, a: int, b: int)
    requires
        1 <= a,
        1 <= b,
        x % b == 0,
        b % a == 0,
    ensures
        x % a == 0,
{
    vstd::arithmetic::div_mod::lemma_fundamental_div_mod(x, b);
    vstd::arithmetic::div_mod::lemma_fundamental_div_mod(b, a);
    assert(x == a * ((b / a) * (x / b))) by (nonlinear_arith)
        requires
            x == b * (x / b),
            b == a * (b / a),
    ;
    vstd::arithmetic::div_mod::lemma_mod_multiples_basic((b / a) * (x / b), a);
}

/// The sum of two multiples of `a` is a multiple of `a`.
pub proof fn lemma_mod_sum_zero(x: int, y: int, a: int)
    requires
        1 <= a,
        x % a == 0,
        y % a == 0,
    ensures
        (x + y) % a == 0,
{
    vstd::arithmetic::div_mod::lemma_add_mod_noop(x, y, a);
    vstd::arithmetic::div_mod::lemma_mod_self_0(a);
    assert(0int % a == 0);
}

/// An address that sits at a power-of-two alignment has the whole next
/// alignment-sized stride inside the address space: the address space itself
/// is a multiple of every smaller power of two.
pub proof fn lemma_aligned_stride_fits(ptr: usize, a: usize)
    requires
        is_power_of_two(a as int),
        ptr as int % a as int == 0,
    ensures
        ptr + a <= usize::MAX + 1,
{
    let w = usize::MAX as int + 1;
    unsigned_int_max_values();
    let k = lemma_power_of_two_exponent(a);
    lemma_pow2_adds((usize::BITS - k) as nat, k);
    assert(w == pow2((usize::BITS - k) as nat) as int * pow2(k) as int);
    vstd::arithmetic::div_mod::lemma_mod_multiples_basic(
        pow2((usize::BITS - k) as nat) as int,
        a as int,
    );
    assert(w % a as int == 0);
    if ptr + a > w {
        let d = w - ptr;
        vstd::arithmetic::div_mod::lemma_fundamental_div_mod(w, a as int);
        vstd::arithmetic::div_mod::lemma_fundamental_div_mod(ptr as int, a as int);
        assert(d == a as int * (w / a as int - ptr as int / a as int)) by (nonlinear_arith)
            requires
                w == a as int * (w / a as int) + 0,
                ptr as int == a as int * (ptr as int / a as int) + 0,
                d == w - ptr,
        ;
        vstd::arithmetic::div_mod::lemma_mod_multiples_basic(
            w / a as int - ptr as int / a as int,
            a as int,
        );
        assert(d % a as int == 0);
        vstd::arithmetic::div_mod::lemma_small_mod(d as nat, a as nat);
        assert(false);
    }
}

/// Rounds `n` up to the next multiple of `alignment`.
///
/// `alignment` must be a power of two; the rounded value must fit in the
/// address space, which the precondition on `n + alignment` guarantees.
pub fn align_up(n: usize, alignment: usize) -> (r: usize)
    requires
        is_power_of_two(alignment as int),
        1 <= n,
        n + alignment - 1 <= usize::MAX,
    ensures
        r == align_up_spec(n as int, alignment as int),
        r % alignment == 0,
        n <= r < n + alignment,
{
    proof {
        lemma_power_of_two_bit_form(alignment);
    }
    let low = n - 1;
    let mask = alignment - 1;
    let merged = low | mask;
    proof {
        assert(merged <= low + mask) by (bit_vector)
            requires
                merged == low | mask,
        ;
    }
    let r = merged + 1;
    proof {
        let k = lemma_power_of_two_exponent(alignment);
        assert(r & mask == 0 && merged >= low) by (bit_vector)
            requires
                1 <= alignment,
                alignment & ((alignment - 1) as usize) == 0,
                mask == (alignment - 1) as usize,
                merged == low | mask,
                r == (merged + 1) as usize,
        ;
        lemma_usize_low_bits_mask_is_mod(r, k);
        assert(low_bits_mask(k) == mask as nat);
        assert(r % alignment == 0);
        lemma_align_up_spec_props(n as int, alignment as int);
        lemma_multiple_in_window_unique(
            alignment as int,
            n as int,
            align_up_spec(n as int, alignment as int),
            r as int,
        );
    }
    r
}

} // verus!
