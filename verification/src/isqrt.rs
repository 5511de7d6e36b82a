//! Integer square root by Newton's method.

use vstd::prelude::*;

verus! {

/// `r` is the integer square root of `n`: the largest integer whose square is at most `n`.
pub open spec fn is_isqrt(r: int, n: int) -> bool {
    r * r <= n && n < (r + 1) * (r + 1)
}

/// The integer square root of `n`.
pub open spec fn isqrt_spec(n: nat) -> nat {
    choose|r: nat| is_isqrt(r as int, n as int)
}

/// The integer square root is unique, so any root is `isqrt_spec`.
pub proof fn lemma_isqrt_unique(r: nat, n: nat)
    requires
        is_isqrt(r as int, n as int),
    ensures
        isqrt_spec(n) == r,
{
    let s = isqrt_spec(n);
    assert(is_isqrt(s as int, n as int));
    let (ri, si) = (r as int, s as int);
    if ri < si {
        assert((ri + 1) * (ri + 1) <= si * si) by (nonlinear_arith)
            requires
                0 <= ri + 1 <= si,
        ;
    }
    if si < ri {
        assert((si + 1) * (si + 1) <= ri * ri) by (nonlinear_arith)
            requires
                0 <= si + 1 <= ri,
        ;
    }
}

/// One Newton step never goes below a number whose square is at most `n`.
proof fn lemma_newton_step_lower(n: int, x: int, s: int)
    requires
        x >= 1,
        s >= 0,
        s * s <= n,
    ensures
        (x + n / x) / 2 >= s,
{
    let q = n / x;
    let r = n % x;
    vstd::arithmetic::div_mod::lemma_fundamental_div_mod(n, x);
    assert(n == x * q + r && 0 <= r < x);
    if x + q < 2 * s {
        assert(q + 1 <= 2 * s - x);
        assert(2 * s - x > 0);
        assert(x * (q + 1) <= x * (2 * s - x)) by (nonlinear_arith)
            requires
                x >= 1,
                q + 1 <= 2 * s - x,
        ;
        assert(x * (2 * s - x) == s * s - (s - x) * (s - x)) by (nonlinear_arith);
        assert((s - x) * (s - x) >= 0) by (nonlinear_arith);
        assert(x * (q + 1) == x * q + x) by (nonlinear_arith);
        assert(false);
    }
}

/// A Newton step keeps the square of its successor above `n`.
proof fn lemma_newton_step_upper(n: int, x: int)
    requires
        x >= 1,
        n >= 0,
    ensures
        n < ((x + n / x) / 2 + 1) * ((x + n / x) / 2 + 1),
{
    let y = (x + n / x) / 2;
    if (y + 1) * (y + 1) <= n {
        assert(y + 1 >= 0);
        lemma_newton_step_lower(n, x, y + 1);
    }
}

/// Above the square root, a Newton step strictly decreases.
proof fn lemma_newton_step_decreases(n: int, x: int)
    requires
        x >= 1,
        n >= 0,
        n < x * x,
    ensures
        n / x < x,
        (x + n / x) / 2 < x,
{
    let q = n / x;
    vstd::arithmetic::div_mod::lemma_fundamental_div_mod(n, x);
    assert(x * q <= n);
    if q >= x {
        assert(x * q >= x * x) by (nonlinear_arith)
            requires
                q >= x,
                x >= 1,
        ;
    }
}

/// The sum computed by a Newton step stays below `max`.
proof fn lemma_newton_step_no_overflow(n: int, x: int, max: int)
    requires
        x >= 1,
        0 <= n <= max,
        max >= 16,
        2 * x <= max,
        n < (x + 1) * (x + 1),
    ensures
        x + n / x <= max,
{
    if n < x * x {
        lemma_newton_step_decreases(n, x);
    } else {
        let q = n / x;
        vstd::arithmetic::div_mod::lemma_fundamental_div_mod(n, x);
        assert(x * q <= n);
        assert((x + 1) * (x + 1) == x * (x + 2) + 1) by (nonlinear_arith);
        if q >= x + 3 {
            assert(x * q >= x * (x + 3)) by (nonlinear_arith)
                requires
                    q >= x + 3,
                    x >= 1,
            ;
            assert(x * (x + 3) == x * (x + 2) + x) by (nonlinear_arith);
        }
        assert(q <= x + 2);
        if x >= 3 {
            assert(x * x >= 3 * x) by (nonlinear_arith)
                requires
                    x >= 3,
            ;
        }
    }
}

/// The integer square root of `n`.
pub fn integer_squareroot(n: u64) -> (r: u64)
    requires
        n < u64::MAX,
    ensures
        is_isqrt(r as int, n as int),
{
    let mut x: u64 = n;
    let mut y: u64 = (x + 1) / 2;
    proof {
        if n >= 1 {
            vstd::arithmetic::div_mod::lemma_div_basics(n as int);
        }
        assert((n + 1) * (n + 1) > n) by (nonlinear_arith);
    }
    while y < x
        invariant
            n < u64::MAX,
            n >= 1 ==> x >= 1 && y as int == (x + n / x) / 2,
            n < (x + 1) * (x + 1),
            2 * y <= u64::MAX,
            y <= n,
            x <= n,
        decreases x,
    {
        proof {
            lemma_newton_step_lower(n as int, x as int, 1);
            lemma_newton_step_upper(n as int, x as int);
        }
        x = y;
        proof {
            lemma_newton_step_no_overflow(n as int, x as int, u64::MAX as int);
            lemma_newton_step_upper(n as int, x as int);
            if n < x * x {
                lemma_newton_step_decreases(n as int, x as int);
            } else {
                lemma_newton_step_lower(n as int, x as int, x as int);
            }
        }
        y = (x + n / x) / 2;
    }
    proof {
        if n >= 1 {
            vstd::arithmetic::div_mod::lemma_fundamental_div_mod(n as int, x as int);
            let q = n / x;
            assert(x * q <= n);
            assert(x * q >= x * x) by (nonlinear_arith)
                requires
                    q >= x,
                    x >= 1,
            ;
        }
    }
    x
}

/// The integer square root of a balance `n`.
pub fn integer_sqrt(n: u128) -> (r: u128)
    requires
        n < u128::MAX,
    ensures
        is_isqrt(r as int, n as int),
        r as nat == isqrt_spec(n as nat),
{
    let mut x: u128 = n;
    let mut y: u128 = (x + 1) / 2;
    proof {
        if n >= 1 {
            vstd::arithmetic::div_mod::lemma_div_basics(n as int);
        }
        assert((n + 1) * (n + 1) > n) by (nonlinear_arith);
    }
    while y < x
        invariant
            n < u128::MAX,
            n >= 1 ==> x >= 1 && y as int == (x + n / x) / 2,
            n < (x + 1) * (x + 1),
            2 * y <= u128::MAX,
            y <= n,
            x <= n,
        decreases x,
    {
        proof {
            lemma_newton_step_lower(n as int, x as int, 1);
            lemma_newton_step_upper(n as int, x as int);
        }
        x = y;
        proof {
            lemma_newton_step_no_overflow(n as int, x as int, u128::MAX as int);
            lemma_newton_step_upper(n as int, x as int);
            if n < x * x {
                lemma_newton_step_decreases(n as int, x as int);
            } else {
                lemma_newton_step_lower(n as int, x as int, x as int);
            }
        }
        y = (x + n / x) / 2;
    }
    proof {
        if n >= 1 {
            vstd::arithmetic::div_mod::lemma_fundamental_div_mod(n as int, x as int);
            let q = n / x;
            assert(x * q <= n);
            assert(x * q >= x * x) by (nonlinear_arith)
                requires
                    q >= x,
                    x >= 1,
            ;
        }
        lemma_isqrt_unique(x as nat, n as nat);
    }
    x
}

} // verus!
