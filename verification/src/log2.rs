//! The integer base-two logarithm.

use vstd::prelude::*;
use vstd::arithmetic::power2::pow2;

verus! {

/// The largest `k` with `2^k <= v`, for `v >= 1`.
pub open spec fn floor_log2(v: nat) -> nat
    decreases v,
{
    if v <= 1 { 0 } else { 1 + floor_log2(v / 2) }
}

/// `floor_log2(v)` is the exponent of the largest power of two not above `v`.
pub proof fn lemma_floor_log2_bounds(v: nat)
    requires
        v >= 1,
    ensures
        pow2(floor_log2(v)) <= v < pow2(floor_log2(v) + 1),
    decreases v,
{
    vstd::arithmetic::power2::lemma_pow2_unfold(floor_log2(v) + 1);
    if v > 1 {
        lemma_floor_log2_bounds(v / 2);
        vstd::arithmetic::power2::lemma_pow2_unfold(floor_log2(v / 2) + 1);
        if floor_log2(v / 2) > 0 {
            vstd::arithmetic::power2::lemma_pow2_unfold(floor_log2(v / 2));
        } else {
            vstd::arithmetic::power2::lemma2_to64();
        }
    } else {
        vstd::arithmetic::power2::lemma2_to64();
    }
}

/// The base-two logarithm of `v` rounded down, or `None` for zero.
pub fn log2(v: usize) -> (r: Option<usize>)
    ensures
        v == 0 ==> r is None,
        v > 0 ==> r == Some(floor_log2(v as nat) as usize),
{
    if v == 0 {
        return None;
    }
    let mut x = v;
    let mut k: usize = 0;
    proof {
        vstd::arithmetic::power2::lemma2_to64();
    }
    while x > 1
        invariant
            1 <= x <= v,
            k + floor_log2(x as nat) == floor_log2(v as nat),
            k <= 64,
            x * pow2(k as nat) <= v,
        decreases x,
    {
        proof {
            vstd::arithmetic::power2::lemma_pow2_unfold((k + 1) as nat);
            let p = pow2(k as nat);
            assert((x / 2) * (2 * p) <= x * p) by (nonlinear_arith)
                requires
                    x >= 1,
                    p >= 0,
            ;
            if k >= 63 {
                vstd::arithmetic::power2::lemma2_to64();
                if k > 63 {
                    vstd::arithmetic::power2::lemma_pow2_strictly_increases(63, k as nat);
                }
                assert(x * p >= 2 * p) by (nonlinear_arith)
                    requires
                        x >= 2,
                        p >= 0,
                ;
            }
        }
        x = x / 2;
        k = k + 1;
    }
    Some(k)
}

} // verus!
