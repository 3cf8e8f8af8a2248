//! The two right-hand sides of the velocity equation, in fixed point.
//!
//! With the fixed constants P = 1000, m = 10, k = 100, u = 0.2, g = 9.81 the
//! rate of change of the velocity is 100/v - 10*v^2 - 1.962.  The exact form
//! has a pole at v = 0; the regularized form shifts the pole to v = -1e-3 by
//! adding that offset to the denominator, so it is safe to evaluate at rest.

use vstd::prelude::*;
use crate::SolveError;
use crate::fixed::{SCALE, iabs, tdiv, div_trunc, lemma_tdiv_le, lemma_tdiv_mag};

verus! {

/// Numerator of the thrust term: (P/m) * SCALE^2, so that dividing it by a
/// fixed-point velocity yields the fixed-point value of 100/v.
pub const THRUST_NUM: i128 = 10_000_000_000_000_000_000_000;

/// Drag coefficient k/m.
pub const DRAG_COEF: i128 = 10;

/// Fixed-point value of u * g = 0.2 * 9.81 = 1.962.
pub const GRAVITY_TERM: i128 = 19_620_000_000;

/// Fixed-point value of the regularizing offset 1e-3.
pub const REG_EPS: i128 = 10_000_000;

/// Largest velocity magnitude the dynamics accept (1000 in real units);
/// a machine limit that keeps every intermediate product inside `i128`.
pub const V_LIMIT: i128 = 10_000_000_000_000;

/// Magnitude bound on both right-hand sides over their whole domain
/// (twice the thrust numerator).
pub const RHS_BOUND: i128 = 20_000_000_000_000_000_000_000;

/// The exact rate of change 100/v - 10*v^2 - 1.962, in fixed point.
/// Meaningful only away from the pole at v = 0.
pub open spec fn spec_rhs(v: int) -> int {
    tdiv(THRUST_NUM as int, v) - tdiv(DRAG_COEF * v * v, SCALE as int) - GRAVITY_TERM
}

/// The regularized rate of change 100/(v + 1e-3) - 10*v^2 - 1.962.
/// Meaningful only away from the shifted pole at v = -1e-3.
pub open spec fn spec_rhs2(v: int) -> int {
    tdiv(THRUST_NUM as int, v + REG_EPS) - tdiv(DRAG_COEF * v * v, SCALE as int) - GRAVITY_TERM
}

/// Both right-hand sides stay within RHS_BOUND on the accepted domain.
pub proof fn lemma_rhs_bound(v: int)
    requires
        -V_LIMIT <= v <= V_LIMIT,
    ensures
        v != 0 ==> iabs(spec_rhs(v)) <= RHS_BOUND,
        v != -REG_EPS ==> iabs(spec_rhs2(v)) <= RHS_BOUND,
{
    assert(DRAG_COEF * v * v <= DRAG_COEF * V_LIMIT * V_LIMIT && 0 <= DRAG_COEF * v * v)
        by (nonlinear_arith)
        requires
            -V_LIMIT <= v <= V_LIMIT,
    ;
    lemma_tdiv_mag(DRAG_COEF * v * v, SCALE as int, DRAG_COEF * V_LIMIT * V_LIMIT);
    assert(DRAG_COEF * V_LIMIT * V_LIMIT == 1_000_000_000_000_000_000_000_000_000int)
        by (nonlinear_arith)
        requires
            DRAG_COEF == 10,
            V_LIMIT == 10_000_000_000_000i128,
    ;
    assert(1_000_000_000_000_000_000_000_000_000int / (SCALE as int)
        == 100_000_000_000_000_000int);
    assert(iabs(tdiv(DRAG_COEF * v * v, SCALE as int)) <= 100_000_000_000_000_000int);
    if v != 0 {
        lemma_tdiv_le(THRUST_NUM as int, v);
        assert(iabs(tdiv(THRUST_NUM as int, v)) <= THRUST_NUM);
    }
    if v != -REG_EPS {
        lemma_tdiv_le(THRUST_NUM as int, v + REG_EPS);
        assert(iabs(tdiv(THRUST_NUM as int, v + REG_EPS)) <= THRUST_NUM);
    }
}

/// The exact right-hand side; fails at the singularity v = 0 instead of
/// producing an infinite value.
pub fn rhs(v: i128) -> (r: Result<i128, SolveError>)
    requires
        -V_LIMIT <= v <= V_LIMIT,
    ensures
        v == 0 ==> r == Err::<i128, SolveError>(SolveError::Domain),
        v != 0 ==> r == Ok::<i128, SolveError>(spec_rhs(v as int) as i128),
        v != 0 ==> iabs(spec_rhs(v as int)) <= RHS_BOUND,
{
    if v == 0 {
        return Err(SolveError::Domain);
    }
    proof {
        lemma_rhs_bound(v as int);
    }
    let thrust = div_trunc(THRUST_NUM, v);
    assert(DRAG_COEF * v * v <= DRAG_COEF * V_LIMIT * V_LIMIT && 0 <= DRAG_COEF * v * v)
        by (nonlinear_arith)
        requires
            -V_LIMIT <= v <= V_LIMIT,
    ;
    let drag = div_trunc(DRAG_COEF * v * v, SCALE);
    proof {
        lemma_tdiv_le(THRUST_NUM as int, v as int);
        lemma_tdiv_mag(DRAG_COEF * (v as int) * (v as int), SCALE as int,
            DRAG_COEF * V_LIMIT * V_LIMIT);
    }
    Ok(thrust - drag - GRAVITY_TERM)
}

/// The regularized right-hand side; its pole sits at v = -1e-3, so v = 0 is
/// accepted.
pub fn rhs2(v: i128) -> (r: Result<i128, SolveError>)
    requires
        -V_LIMIT <= v <= V_LIMIT,
    ensures
        v == -REG_EPS ==> r == Err::<i128, SolveError>(SolveError::Domain),
        v != -REG_EPS ==> r == Ok::<i128, SolveError>(spec_rhs2(v as int) as i128),
        v != -REG_EPS ==> iabs(spec_rhs2(v as int)) <= RHS_BOUND,
{
    if v == -REG_EPS {
        return Err(SolveError::Domain);
    }
    proof {
        lemma_rhs_bound(v as int);
    }
    let thrust = div_trunc(THRUST_NUM, v + REG_EPS);
    assert(DRAG_COEF * v * v <= DRAG_COEF * V_LIMIT * V_LIMIT && 0 <= DRAG_COEF * v * v)
        by (nonlinear_arith)
        requires
            -V_LIMIT <= v <= V_LIMIT,
    ;
    let drag = div_trunc(DRAG_COEF * v * v, SCALE);
    proof {
        lemma_tdiv_le(THRUST_NUM as int, v as int + REG_EPS);
        lemma_tdiv_mag(DRAG_COEF * (v as int) * (v as int), SCALE as int,
            DRAG_COEF * V_LIMIT * V_LIMIT);
    }
    Ok(thrust - drag - GRAVITY_TERM)
}

/// Regularization only lowers the thrust term for physical (nonnegative)
/// velocities, so the regularized rate never exceeds the exact one there:
/// the bias introduced by the offset in the denominator is one-sided.
pub proof fn lemma_regularization_bias(v: int)
    requires
        0 < v,
    ensures
        spec_rhs2(v) <= spec_rhs(v),
{
    vstd::arithmetic::div_mod::lemma_div_is_ordered_by_denominator(
        THRUST_NUM as int, v, v + REG_EPS);
}

} // verus!
