use vstd::arithmetic::power::pow;
use vstd::arithmetic::power2::{is_pow2, is_pow2_equiv, lemma2_to64, lemma2_to64_rest, lemma_pow2};
use vstd::prelude::*;

verus! {

/// How far `p` lies below `size`; zero once it has reached it.
pub open spec fn distance_below(p: int, size: int) -> nat {
    if p < size {
        (size - p) as nat
    } else {
        0
    }
}

/// Doubles `p` until it reaches `size`.
pub open spec fn doubled_up_to(p: int, size: int) -> int
    decreases distance_below(p, size),
{
    if p <= 0 || p >= size {
        p
    } else {
        doubled_up_to(2 * p, size)
    }
}

/// The smallest power of two that is at least `size` (1 for `size <= 1`).
pub open spec fn optimal_fft_size(size: int) -> int {
    doubled_up_to(1, size)
}

proof fn lemma_doubled_up_to(p: int, size: int)
    requires
        is_pow2(p),
        p == 1 || p / 2 < size,
    ensures
        is_pow2(doubled_up_to(p, size)),
        doubled_up_to(p, size) >= size,
        doubled_up_to(p, size) >= p,
        doubled_up_to(p, size) == 1 || doubled_up_to(p, size) / 2 < size,
    decreases distance_below(p, size),
{
    reveal(is_pow2);
    if p < size {
        assert(is_pow2(2 * p));
        lemma_doubled_up_to(2 * p, size);
    }
}

/// Between a power of two and its double there is no other power of two.
proof fn lemma_pow2_gap(p: int, q: int)
    requires
        is_pow2(p),
        is_pow2(q),
        p <= q < 2 * p,
    ensures
        p == q,
    decreases p,
{
    reveal(is_pow2);
    if p > 1 && q > 1 {
        lemma_pow2_gap(p / 2, q / 2);
    }
}

/// `optimal_fft_size(size)` is a power of two, is at least `size`, and no
/// smaller power of two is at least `size`.
pub proof fn lemma_optimal_fft_size(size: int)
    ensures
        is_pow2(optimal_fft_size(size)),
        optimal_fft_size(size) >= size,
        optimal_fft_size(size) >= 1,
        size >= 1 ==> optimal_fft_size(size) < 2 * size,
        forall|p: int| is_pow2(p) && p >= size ==> optimal_fft_size(size) <= p,
{
    reveal(is_pow2);
    assert(is_pow2(1));
    lemma_doubled_up_to(1, size);
    let r = optimal_fft_size(size);
    assert forall|p: int| is_pow2(p) && p >= size implies r <= p by {
        if p < r {
            // r / 2 < size <= p < r, and r / 2 is a power of two
            assert(r > 1);
            assert(is_pow2(r / 2));
            lemma_pow2_gap(r / 2, p);
        }
    }
}

/// A size of at most half the address range, rounded up, has an optimal
/// transform size that a `usize` can hold.
pub proof fn lemma_optimal_fft_size_fits(size: int)
    requires
        size <= usize::MAX / 2 + 1,
    ensures
        optimal_fft_size(size) <= usize::MAX,
{
    lemma_optimal_fft_size(size);
    let top: int = usize::MAX / 2 + 1;
    assert(is_pow2(top)) by {
        lemma2_to64();
        lemma2_to64_rest();
        lemma_pow2(31);
        lemma_pow2(63);
        assert(pow(2, 31) == 0x8000_0000 && pow(2, 63) == 0x8000_0000_0000_0000);
        is_pow2_equiv(0x8000_0000);
        is_pow2_equiv(0x8000_0000_0000_0000);
        assert(usize::MAX == 0xffff_ffff || usize::MAX == 0xffff_ffff_ffff_ffff);
    }
}

proof fn lemma_single_bit(n: u64)
    ensures
        is_pow2(n as int) <==> (n != 0 && n & ((n - 1) as u64) == 0),
    decreases n,
{
    reveal(is_pow2);
    if n > 1 {
        let h: u64 = n / 2;
        lemma_single_bit(h);
        assert(n >= 2 ==> ((n & ((n - 1) as u64) == 0) <==> (n % 2 == 0 && (n / 2) & ((n / 2 - 1) as u64)
            == 0))) by (bit_vector);
    } else if n == 1 {
        assert(1u64 & 0u64 == 0) by (bit_vector);
    }
}

/// Tells whether `n` is a power of two.
pub fn is_power_of_two(n: usize) -> (r: bool)
    ensures
        r == is_pow2(n as int),
{
    proof {
        lemma_single_bit(n as u64);
        if n != 0 {
            let a: u64 = n as u64;
            let b: u64 = (n - 1) as u64;
            assert((n & ((n - 1) as usize)) as u64 == a & b);
        }
    }
    n != 0 && (n & (n - 1)) == 0
}

/// Returns the next power of two greater than or equal to `size`.
pub fn get_optimal_fft_size(size: usize) -> (r: usize)
    requires
        optimal_fft_size(size as int) <= usize::MAX,
    ensures
        r == optimal_fft_size(size as int),
        is_pow2(r as int),
        r >= size,
        forall|p: int| is_pow2(p) && p >= size ==> r <= p,
{
    proof {
        lemma_optimal_fft_size(size as int);
    }
    let mut optimal_size: usize = size;
    while !is_power_of_two(optimal_size)
        invariant
            size <= optimal_size <= optimal_fft_size(size as int) <= usize::MAX,
            is_pow2(optimal_fft_size(size as int)),
            forall|p: int| is_pow2(p) && p >= size ==> optimal_fft_size(size as int) <= p,
        decreases optimal_fft_size(size as int) - optimal_size,
    {
        optimal_size += 1;
    }
    optimal_size
}

} // verus!
