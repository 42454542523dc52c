//! Powers of two and base-2 logarithms, and how `leading_zeros` computes them.
use vstd::arithmetic::power2::{
    lemma2_to64, lemma_pow2_pos, lemma_pow2_strictly_increases,
    lemma_pow2_unfold, pow2,
};
use vstd::prelude::*;
use vstd::std_specs::bits::u64_leading_zeros;

verus! {

/// The base-2 logarithm of `x`, rounded down (0 for 0 and 1).
pub open spec fn log2(x: nat) -> nat
    decreases x,
{
    if x < 2 {
        0
    } else {
        1 + log2(x / 2)
    }
}

/// `x` lies between the power of two of its logarithm and the next one.
pub proof fn lemma_log2_bounds(x: nat)
    requires
        x >= 1,
    ensures
        pow2(log2(x)) <= x < pow2(log2(x) + 1),
    decreases x,
{
    lemma2_to64();
    if x >= 2 {
        lemma_log2_bounds(x / 2);
        lemma_pow2_unfold(log2(x));
        lemma_pow2_unfold(log2(x) + 1);
    }
}

/// The number of leading zeros of a nonzero `u64` is 63 minus its logarithm.
pub proof fn lemma_leading_zeros_log2(x: u64)
    requires
        x > 0,
    ensures
        u64_leading_zeros(x) == 63 - log2(x as nat),
    decreases x,
{
    reveal(u64_leading_zeros);
    if x >= 2 {
        lemma_leading_zeros_log2(x / 2);
        lemma_log2_bounds(x as nat);
        assert(log2(x as nat) == 1 + log2((x / 2) as nat));
    } else {
        assert(x == 1);
        assert(u64_leading_zeros(0) == 64);
    }
}

/// Powers of two grow with their exponent.
pub proof fn lemma_pow2_le(a: nat, b: nat)
    requires
        a <= b,
    ensures
        pow2(a) <= pow2(b),
{
    if a < b {
        lemma_pow2_strictly_increases(a, b);
    }
}

/// `2^(k+1)` is twice `2^k`.
pub proof fn lemma_pow2_succ(k: nat)
    ensures
        pow2(k + 1) == 2 * pow2(k),
{
    lemma_pow2_unfold(k + 1);
}

} // verus!
