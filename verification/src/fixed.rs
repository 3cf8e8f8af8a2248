//! Fixed-point scalars and the small arithmetic helpers the solver needs.
//!
//! A real quantity x is represented by the integer round(x * SCALE), so one
//! unit is 1e-10.  All executable arithmetic is on `i128`; the helpers here
//! mirror Rust's truncating division and give the solver an exact integer
//! square root.

use vstd::prelude::*;
use vstd::arithmetic::div_mod::{
    lemma_div_is_ordered, lemma_div_nonincreasing, lemma_div_multiples_vanish,
    lemma_div_pos_is_pos,
};

verus! {

/// Fixed-point scale: the integer representing the real number 1.
pub const SCALE: i128 = 10_000_000_000;

/// Magnitude of an integer.
pub open spec fn iabs(a: int) -> int {
    if a >= 0 {
        a
    } else {
        -a
    }
}

/// Sign of an integer: 1, -1 or 0.
pub open spec fn sgn(a: int) -> int {
    if a > 0 {
        1
    } else if a < 0 {
        -1
    } else {
        0
    }
}

/// Division truncated toward zero, as Rust's `/` computes it on signed
/// integers (the `/` of specification arithmetic is Euclidean instead).
pub open spec fn tdiv(a: int, b: int) -> int {
    if (a >= 0) == (b >= 0) {
        iabs(a) / iabs(b)
    } else {
        -(iabs(a) / iabs(b))
    }
}

/// |a| (total but for the one value whose magnitude the machine cannot hold).
pub fn abs(a: i128) -> (r: i128)
    requires
        a != i128::MIN,
    ensures
        r == iabs(a as int),
{
    if a < 0 {
        -a
    } else {
        a
    }
}

/// +1 for a positive argument, -1 for a negative one, 0 for zero.
pub fn sign(a: i128) -> (s: i128)
    ensures
        s == sgn(a as int),
{
    if a > 0 {
        1
    } else if a < 0 {
        -1
    } else {
        0
    }
}

/// Truncating signed division, computed on magnitudes.
pub fn div_trunc(a: i128, b: i128) -> (q: i128)
    requires
        b != 0,
        a != i128::MIN,
        b != i128::MIN,
    ensures
        q == tdiv(a as int, b as int),
{
    let ua: u128 = if a >= 0 {
        a as u128
    } else {
        (-a) as u128
    };
    let ub: u128 = if b >= 0 {
        b as u128
    } else {
        (-b) as u128
    };
    assert(ua == iabs(a as int));
    assert(ub == iabs(b as int));
    let uq: u128 = ua / ub;
    proof {
        lemma_div_nonincreasing(ua as int, ub as int);
        lemma_div_pos_is_pos(ua as int, ub as int);
    }
    if (a >= 0) == (b >= 0) {
        uq as i128
    } else {
        -(uq as i128)
    }
}

/// The divided magnitude never exceeds the dividend's magnitude.
pub proof fn lemma_tdiv_le(a: int, b: int)
    requires
        b != 0,
    ensures
        iabs(tdiv(a, b)) <= iabs(a),
{
    lemma_div_nonincreasing(iabs(a), iabs(b));
    lemma_div_pos_is_pos(iabs(a), iabs(b));
}

/// Bound a truncated quotient by dividing a bound on the dividend.
pub proof fn lemma_tdiv_mag(a: int, b: int, m: int)
    requires
        b > 0,
        iabs(a) <= m,
    ensures
        iabs(tdiv(a, b)) <= m / b,
{
    lemma_div_is_ordered(iabs(a), m, b);
    lemma_div_pos_is_pos(iabs(a), b);
}

/// A quotient whose dividend is at most k times the divisor is at most k.
pub proof fn lemma_tdiv_le_factor(a: int, b: int, k: int)
    requires
        b > 0,
        0 <= k,
        iabs(a) <= k * b,
    ensures
        iabs(tdiv(a, b)) <= k,
{
    lemma_div_is_ordered(iabs(a), k * b, b);
    lemma_div_multiples_vanish(k, b);
    assert(k * b == b * k) by (nonlinear_arith);
    lemma_div_pos_is_pos(iabs(a), b);
}

/// r is the integer square root of q, rounded down.
pub open spec fn is_sqrt_floor(q: int, r: int) -> bool {
    0 <= r && r * r <= q && q < (r + 1) * (r + 1)
}

/// The integer square root, as a specification-level function.
pub open spec fn sqrt_floor(q: int) -> int {
    choose|r: int| is_sqrt_floor(q, r)
}

/// Two integer square roots of the same number are equal.
pub proof fn lemma_sqrt_floor_unique(q: int, r1: int, r2: int)
    requires
        is_sqrt_floor(q, r1),
        is_sqrt_floor(q, r2),
    ensures
        r1 == r2,
{
    if r1 < r2 {
        assert((r1 + 1) * (r1 + 1) <= r2 * r2) by (nonlinear_arith)
            requires
                0 <= r1,
                0 <= r2,
                r1 < r2,
        ;
    }
    if r2 < r1 {
        assert((r2 + 1) * (r2 + 1) <= r1 * r1) by (nonlinear_arith)
            requires
                0 <= r1,
                0 <= r2,
                r2 < r1,
        ;
    }
}

/// A witness pins `sqrt_floor` down.
pub proof fn lemma_sqrt_floor_of_witness(q: int, r: int)
    requires
        is_sqrt_floor(q, r),
    ensures
        sqrt_floor(q) == r,
{
    assert(is_sqrt_floor(q, sqrt_floor(q))) by {
        assert(exists|x: int| is_sqrt_floor(q, x));
    }
    lemma_sqrt_floor_unique(q, sqrt_floor(q), r);
}

/// Every nonnegative number has an integer square root.
pub proof fn lemma_sqrt_floor_exists(q: int)
    requires
        q >= 0,
    ensures
        is_sqrt_floor(q, sqrt_floor(q)),
    decreases q,
{
    if q == 0 {
        assert(is_sqrt_floor(0, 0));
        lemma_sqrt_floor_of_witness(0, 0);
    } else {
        lemma_sqrt_floor_exists(q - 1);
        let r: int = sqrt_floor(q - 1);
        if (r + 1) * (r + 1) <= q {
            assert((r + 2) * (r + 2) > q) by (nonlinear_arith)
                requires
                    0 <= r,
                    q - 1 < (r + 1) * (r + 1),
            ;
            assert(is_sqrt_floor(q, r + 1));
            lemma_sqrt_floor_of_witness(q, r + 1);
        } else {
            assert(is_sqrt_floor(q, r));
            lemma_sqrt_floor_of_witness(q, r);
        }
    }
}

/// The integer square root does not fall below any square root bound.
pub proof fn lemma_sqrt_floor_ge(q: int, f: int)
    requires
        0 <= f,
        f * f <= q,
    ensures
        sqrt_floor(q) >= f,
{
    lemma_sqrt_floor_exists(q);
    let s: int = sqrt_floor(q);
    if s < f {
        assert((s + 1) * (s + 1) <= f * f) by (nonlinear_arith)
            requires
                0 <= s,
                0 <= f,
                s < f,
        ;
    }
}

/// Executable integer square root, by bisection.
pub fn isqrt(q: u128) -> (r: u128)
    ensures
        is_sqrt_floor(q as int, r as int),
{
    let mut lo: u128 = 0;
    let mut hi: u128 = 18_446_744_073_709_551_616;  // 2^64
    assert((hi as int) * (hi as int) > q as int) by (nonlinear_arith)
        requires
            hi == 18_446_744_073_709_551_616u128,
            q <= u128::MAX,
    ;
    while lo + 1 < hi
        invariant
            lo < hi,
            hi <= 18_446_744_073_709_551_616,
            (lo as int) * (lo as int) <= q as int,
            (hi as int) * (hi as int) > q as int,
        decreases hi - lo,
    {
        let mid: u128 = lo + (hi - lo) / 2;
        assert(lo < mid < hi);
        assert((mid as int) * (mid as int) <= u128::MAX) by (nonlinear_arith)
            requires
                mid < 18_446_744_073_709_551_616u128,
        ;
        if mid * mid <= q {
            lo = mid;
        } else {
            hi = mid;
        }
    }
    assert((lo as int + 1) * (lo as int + 1) > q as int) by (nonlinear_arith)
        requires
            lo as int + 1 >= hi as int,
            (hi as int) * (hi as int) > q as int,
            0 <= hi as int,
    ;
    lo
}

} // verus!
