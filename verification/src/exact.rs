//! Exact arithmetic on products that do not fit a machine word.

use vstd::arithmetic::div_mod::lemma_fundamental_div_mod;
use vstd::arithmetic::div_mod::lemma_fundamental_div_mod_converse;
use vstd::prelude::*;

verus! {

/// `n / d` rounded to the nearest integer, halves upwards.
pub open spec fn rounded(n: int, d: int) -> int {
    (2 * n + d) / (2 * d)
}

/// `a * b` divided by `d`, for `a` below `d`: quotient and remainder.
fn mul_div_below(a: u128, b: u128, d: u128) -> (r: (u128, u128))
    requires
        a < d,
    ensures
        a * b == r.0 * d + r.1,
        r.1 < d,
        r.0 <= b,
    decreases b,
{
    if b == 0 {
        assert(a * b == 0 && 0 * d == 0) by (nonlinear_arith)
            requires
                b == 0,
        ;
        return (0, 0);
    }
    let half: u128 = b / 2;
    let odd: u128 = b % 2;
    let (q, r) = mul_div_below(a, half, d);
    let (q2, r2): (u128, u128) = if r >= d - r {
        (2 * q + 1, r - (d - r))
    } else {
        (2 * q, r + r)
    };
    assert(2 * (a * half) == q2 * d + r2) by (nonlinear_arith)
        requires
            a * half == q * d + r,
            q2 == 2 * q + 1 && r2 == r - (d - r) || q2 == 2 * q && r2 == r + r,
    ;
    assert(q2 <= 2 * half) by {
        assert(a * (2 * half) == 2 * (a * half)) by (nonlinear_arith);
        lemma_quotient_bound(a as int, 2 * half, d as int, q2 as int, r2 as int);
    }
    if odd == 0 {
        assert(a * b == 2 * (a * half)) by (nonlinear_arith)
            requires
                b == 2 * half,
        ;
        (q2, r2)
    } else {
        let (q3, r3): (u128, u128) = if r2 >= d - a {
            (q2 + 1, r2 - (d - a))
        } else {
            (q2, r2 + a)
        };
        assert(a * b == q3 * d + r3) by (nonlinear_arith)
            requires
                b == 2 * half + 1,
                2 * (a * half) == q2 * d + r2,
                q3 == q2 + 1 && r3 == r2 - (d - a) || q3 == q2 && r3 == r2 + a,
        ;
        (q3, r3)
    }
}

proof fn lemma_quotient_bound(a: int, b: int, d: int, q: int, r: int)
    requires
        0 <= a < d,
        0 <= b,
        0 <= r < d,
        a * b == q * d + r,
    ensures
        q <= b,
{
    assert(q <= b) by (nonlinear_arith)
        requires
            0 <= a < d,
            0 <= b,
            0 <= r < d,
            a * b == q * d + r,
    ;
}

/// `a * b` divided by `d`: the remainder, and the quotient where it fits.
pub fn mul_div(a: u128, b: u128, d: u128) -> (r: (Option<u128>, u128))
    requires
        d > 0,
    ensures
        r.1 == (a * b) % (d as int),
        match r.0 {
            Some(q) => q == (a * b) / (d as int),
            None => (a * b) / (d as int) > u128::MAX,
        },
{
    let whole: u128 = a / d;
    let rest: u128 = a % d;
    let (q, r) = mul_div_below(rest, b, d);
    proof {
        lemma_fundamental_div_mod(a as int, d as int);
        assert(a * b == (whole * b + q) * d + r) by (nonlinear_arith)
            requires
                a == d * whole + rest,
                rest * b == q * d + r,
        ;
        lemma_fundamental_div_mod_converse(a * b, d as int, whole * b + q, r as int);
        assert(whole * b >= 0) by (nonlinear_arith)
            requires
                whole >= 0,
                b >= 0,
        ;
    }
    match whole.checked_mul(b) {
        None => (None, r),
        Some(most) => (most.checked_add(q), r),
    }
}

/// `a * b / d` rounded to the nearest integer, halves upwards, or `limit`
/// where that is less.
pub fn mul_div_rounded(a: u128, b: u128, d: u128, limit: u64) -> (r: u64)
    requires
        d > 0,
    ensures
        r == if rounded(a * b, d as int) <= limit {
            rounded(a * b, d as int)
        } else {
            limit as int
        },
{
    let (quotient, rest) = mul_div(a, b, d);
    proof {
        let n = a * b;
        assert(n >= 0) by (nonlinear_arith)
            requires
                n == a * b,
                a >= 0,
                b >= 0,
        ;
        lemma_rounded(n, d as int);
    }
    match quotient {
        None => limit,
        Some(q) => {
            if q >= limit as u128 {
                limit
            } else if rest >= d - rest {
                (q + 1) as u64
            } else {
                q as u64
            }
        },
    }
}

/// Rounding adds one to the quotient where the remainder is at least half of
/// the divisor.
proof fn lemma_rounded(n: int, d: int)
    requires
        n >= 0,
        d > 0,
    ensures
        rounded(n, d) == n / d + if 2 * (n % d) >= d {
            1int
        } else {
            0
        },
{
    lemma_fundamental_div_mod(n, d);
    let q = n / d;
    let r = n % d;
    let up: int = if 2 * r >= d {
        1
    } else {
        0
    };
    let rem = 2 * r + d - 2 * d * up;
    assert(2 * n + d == (q + up) * (2 * d) + rem) by (nonlinear_arith)
        requires
            n == d * q + r,
            rem == 2 * r + d - 2 * d * up,
    ;
    assert(0 <= rem < 2 * d) by (nonlinear_arith)
        requires
            0 <= r < d,
            up == 1 && 2 * r >= d || up == 0 && 2 * r < d,
            rem == 2 * r + d - 2 * d * up,
    ;
    lemma_fundamental_div_mod_converse(2 * n + d, 2 * d, q + up, rem);
}

} // verus!
