//! Bracketing root-finder for the implicit first step.
//!
//! Given a previous velocity v_prev and a step dt, the solver locates a root
//! of g(x) = x - dt*rhs(x) - v_prev inside the fixed bracket
//! [1e-10, 100] (in fixed point, [1, 1e12]): the velocity consistent with one
//! implicit Euler step from v_prev.  Each iteration bisects the bracket and
//! then extrapolates a second point in the style of Ridder's method; the
//! bracket afterwards still straddles a sign change and is strictly
//! narrower, so termination is proved outright and no iteration cap is
//! needed.  A bracket whose end values share a sign is rejected up front
//! instead of letting the extrapolation take the square root of a negative
//! number.

use vstd::prelude::*;
use vstd::arithmetic::div_mod::{lemma_fundamental_div_mod, lemma_mod_division_less_than_divisor};
use crate::SolveError;
use crate::fixed::{
    SCALE, iabs, sgn, tdiv, is_sqrt_floor, sqrt_floor, abs, sign, div_trunc,
    lemma_tdiv_mag, lemma_tdiv_le_factor, lemma_sqrt_floor_ge, lemma_sqrt_floor_of_witness,
    lemma_sqrt_floor_exists, isqrt,
};
use crate::dynamics::{V_LIMIT, RHS_BOUND, spec_rhs, rhs, lemma_rhs_bound};

verus! {

/// Lower end of the initial bracket: 1e-10, just off the singularity.
pub const BRACKET_LO: i128 = 1;

/// Upper end of the initial bracket: 100, the largest physically
/// meaningful velocity.
pub const BRACKET_HI: i128 = 1_000_000_000_000;

/// The root-finder stops once the bracket is at most this wide (1e-10).
pub const WIDTH_TOL: i128 = 1;

/// Residual threshold of the early acceptance test (1e-10).
pub const ACCEPT_TOL: i128 = 1;

/// Largest step size the solver accepts (1e-4); a machine limit that keeps
/// dt * rhs(x) inside `i128`.
pub const DT_LIMIT: i128 = 1_000_000;

/// Magnitude bound on g over the bracket, for all accepted parameters.
pub const G_BOUND: i128 = 3_000_000_000_000_000_000;

/// The previous velocity and step size the solver accepts.
pub open spec fn params_ok(vp: int, dt: int) -> bool {
    0 <= vp <= V_LIMIT && 1 <= dt <= DT_LIMIT
}

/// The map whose root is sought: g(x) = x - dt*rhs(x) - v_prev.
pub open spec fn spec_g(vp: int, dt: int, x: int) -> int {
    x - tdiv(dt * spec_rhs(x), SCALE as int) - vp
}

pub open spec fn in_bracket_domain(x: int) -> bool {
    BRACKET_LO <= x <= BRACKET_HI
}

pub open spec fn opposite_signs(fa: int, fb: int) -> bool {
    (fa < 0 && fb > 0) || (fa > 0 && fb < 0)
}

/// Well-formed solver state: both ends lie in the domain, carry the exact
/// values of g there, and straddle a sign change.
pub open spec fn bracket_ok(vp: int, dt: int, a: int, fa: int, b: int, fb: int) -> bool {
    &&& params_ok(vp, dt)
    &&& in_bracket_domain(a)
    &&& in_bracket_domain(b)
    &&& fa == spec_g(vp, dt, a)
    &&& fb == spec_g(vp, dt, b)
    &&& opposite_signs(fa, fb)
}

/// Midpoint as the solver computes it.
pub open spec fn midpoint(a: int, b: int) -> int {
    tdiv(a + b, 2)
}

/// g stays within G_BOUND everywhere on the bracket.
pub proof fn lemma_g_bound(vp: int, dt: int, x: int)
    requires
        params_ok(vp, dt),
        in_bracket_domain(x),
    ensures
        iabs(spec_g(vp, dt, x)) <= G_BOUND,
{
    lemma_rhs_bound(x);
    let rr: int = spec_rhs(x);
    assert(-20_000_000_000_000_000_000_000_000_000 <= dt * rr
        <= 20_000_000_000_000_000_000_000_000_000) by (nonlinear_arith)
        requires
            1 <= dt <= 1_000_000,
            -20_000_000_000_000_000_000_000 <= rr <= 20_000_000_000_000_000_000_000,
    ;
    lemma_tdiv_mag(dt * rr, SCALE as int, 20_000_000_000_000_000_000_000_000_000);
    assert(20_000_000_000_000_000_000_000_000_000int / (SCALE as int)
        == 2_000_000_000_000_000_000int);
}

/// Which residuals the early acceptance test takes as good enough.  The
/// signed test compares the raw residual against the threshold (so any
/// negative value passes); the magnitude test bounds |residual| and is the
/// one under which the returned root carries a small residual.  Which of
/// the two a solve uses is a named parameter of the solver rather than a
/// fixed choice.
#[derive(Clone, Copy, Debug, PartialEq, Eq, Structural)]
pub enum Acceptance {
    /// Accept when the raw residual is below the threshold.
    Signed,
    /// Accept when the residual's magnitude is below the threshold.
    Magnitude,
}

pub open spec fn spec_accepts(mode: Acceptance, f: int) -> bool {
    match mode {
        Acceptance::Signed => f < ACCEPT_TOL,
        Acceptance::Magnitude => iabs(f) < ACCEPT_TOL,
    }
}

/// The named acceptance predicate of the root-finder.
pub fn accepts(mode: Acceptance, f: i128) -> (r: bool)
    ensures
        r == spec_accepts(mode, f as int),
{
    match mode {
        Acceptance::Signed => f < ACCEPT_TOL,
        Acceptance::Magnitude => -ACCEPT_TOL < f && f < ACCEPT_TOL,
    }
}

/// A bracket around the root, with the values of g at its ends.
#[derive(Clone, Copy, Debug, PartialEq, Eq, Structural)]
pub struct Bracket {
    pub a: i128,
    pub fa: i128,
    pub b: i128,
    pub fb: i128,
}

impl Bracket {
    pub open spec fn ok(self, vp: int, dt: int) -> bool {
        bracket_ok(vp, dt, self.a as int, self.fa as int, self.b as int, self.fb as int)
    }

    pub open spec fn width(self) -> int {
        iabs(self.a as int - self.b as int)
    }
}

/// What one solver iteration yields: an accepted root (the midpoint it
/// examined), a narrowed bracket together with that midpoint, or a halt
/// because the extrapolated point landed exactly on the singularity.
#[derive(Clone, Copy, Debug, PartialEq, Eq, Structural)]
pub enum IterStep {
    Root(i128),
    Narrowed(i128, Bracket),
    Singular,
}

/// One iteration, as a function of the state: bisect, extrapolate in
/// Ridder's manner, test acceptance on the extrapolated residual, then
/// narrow the bracket around the sign change, preferring the
/// (midpoint, extrapolated) pair, then (a, midpoint), then (midpoint, b).
pub open spec fn spec_iteration(
    vp: int,
    dt: int,
    mode: Acceptance,
    a: int,
    fa: int,
    b: int,
    fb: int,
) -> IterStep {
    let c = midpoint(a, b);
    let fc = spec_g(vp, dt, c);
    if fc == 0 {
        IterStep::Root(c as i128)
    } else {
        let disc = fc * fc - fa * fb;
        let d = c + tdiv((c - a) * sgn(fa) * fc, sqrt_floor(disc));
        if d == 0 {
            IterStep::Singular
        } else {
            let fd = spec_g(vp, dt, d);
            if spec_accepts(mode, fd) {
                IterStep::Root(c as i128)
            } else if fc * fd < 0 {
                IterStep::Narrowed(
                    c as i128,
                    Bracket { a: c as i128, fa: fc as i128, b: d as i128, fb: fd as i128 },
                )
            } else if fc * fa < 0 {
                IterStep::Narrowed(
                    c as i128,
                    Bracket { a: a as i128, fa: fa as i128, b: c as i128, fb: fc as i128 },
                )
            } else {
                IterStep::Narrowed(
                    c as i128,
                    Bracket { a: c as i128, fa: fc as i128, b: b as i128, fb: fb as i128 },
                )
            }
        }
    }
}

/// Bisection geometry: the midpoint lies strictly inside the bracket, at
/// least one unit away from either end.
pub proof fn lemma_midpoint(a: int, b: int)
    requires
        in_bracket_domain(a),
        in_bracket_domain(b),
        iabs(a - b) >= 2,
    ensures
        in_bracket_domain(midpoint(a, b)),
        1 <= iabs(midpoint(a, b) - a) <= iabs(a - b) - 1,
        1 <= iabs(midpoint(a, b) - b) <= iabs(a - b) - 1,
        midpoint(a, b) >= a || midpoint(a, b) >= b,
        midpoint(a, b) <= a || midpoint(a, b) <= b,
        a + b - 1 <= 2 * midpoint(a, b) <= a + b,
{
    lemma_fundamental_div_mod(a + b, 2);
    lemma_mod_division_less_than_divisor(a + b, 2);
    assert(midpoint(a, b) == (a + b) / 2);
}

/// Extrapolation geometry: with a sign change across the bracket the
/// discriminant is a positive number at least fc^2, so the Ridder step
/// moves at most |c - a| away from the midpoint and stays inside the
/// bracket's hull.
pub proof fn lemma_ridder_step(a: int, fa: int, b: int, fb: int, c: int, fc: int)
    requires
        in_bracket_domain(a),
        in_bracket_domain(b),
        opposite_signs(fa, fb),
        iabs(a - b) >= 2,
        c == midpoint(a, b),
        fc != 0,
        iabs(fa) <= G_BOUND,
        iabs(fb) <= G_BOUND,
        iabs(fc) <= G_BOUND,
    ensures
        1 <= fc * fc - fa * fb <= 18_000_000_000_000_000_000_000_000_000_000_000_000,
        is_sqrt_floor(fc * fc - fa * fb, sqrt_floor(fc * fc - fa * fb)),
        1 <= sqrt_floor(fc * fc - fa * fb),
        iabs(fc) <= sqrt_floor(fc * fc - fa * fb),
        iabs((c - a) * sgn(fa) * fc) <= iabs(c - a) * sqrt_floor(fc * fc - fa * fb),
        iabs(tdiv((c - a) * sgn(fa) * fc, sqrt_floor(fc * fc - fa * fb))) <= iabs(c - a),
        ({
            let d = c + tdiv((c - a) * sgn(fa) * fc, sqrt_floor(fc * fc - fa * fb));
            0 <= d <= BRACKET_HI && iabs(c - d) <= iabs(c - a) && (d != 0
                ==> in_bracket_domain(d))
        }),
{
    lemma_midpoint(a, b);
    let disc: int = fc * fc - fa * fb;
    assert(fa * fb <= -1 && 1 <= fc * fc) by (nonlinear_arith)
        requires
            (fa < 0 && fb > 0) || (fa > 0 && fb < 0),
            fc != 0,
    ;
    assert(fc * fc <= 9_000_000_000_000_000_000_000_000_000_000_000_000
        && -9_000_000_000_000_000_000_000_000_000_000_000_000 <= fa * fb) by (nonlinear_arith)
        requires
            -3_000_000_000_000_000_000 <= fa <= 3_000_000_000_000_000_000,
            -3_000_000_000_000_000_000 <= fb <= 3_000_000_000_000_000_000,
            -3_000_000_000_000_000_000 <= fc <= 3_000_000_000_000_000_000,
    ;
    lemma_sqrt_floor_exists(disc);
    let s: int = sqrt_floor(disc);
    assert(iabs(fc) * iabs(fc) <= disc) by (nonlinear_arith)
        requires
            fc * fc <= disc,
    ;
    lemma_sqrt_floor_ge(disc, iabs(fc));
    assert(s >= 1);
    let m1: int = (c - a) * sgn(fa);
    assert(sgn(fa) == 1 || sgn(fa) == -1);
    assert(m1 == c - a || m1 == -(c - a)) by (nonlinear_arith)
        requires
            m1 == (c - a) * sgn(fa),
            sgn(fa) == 1 || sgn(fa) == -1,
    ;
    let k: int = iabs(c - a);
    assert(-(k * s) <= m1 * fc && m1 * fc <= k * s) by (nonlinear_arith)
        requires
            -k <= m1 <= k,
            0 <= k,
            iabs(fc) <= s,
            -iabs(fc) <= fc <= iabs(fc),
            0 <= iabs(fc),
    ;
    assert(iabs(m1 * fc) <= k * s);
    lemma_tdiv_le_factor(m1 * fc, s, k);
    assert((c - a) * sgn(fa) * fc == m1 * fc);
}

/// What one iteration guarantees: an accepted root lies in the domain, and
/// a narrowed bracket is again well formed and strictly narrower than the
/// one it came from (in particular the width never grows: the bracket
/// shrinks in every case except the accepted early return, which yields a
/// root instead of a bracket).
pub proof fn lemma_iteration_invariant(
    vp: int,
    dt: int,
    mode: Acceptance,
    a: int,
    fa: int,
    b: int,
    fb: int,
)
    requires
        bracket_ok(vp, dt, a, fa, b, fb),
        iabs(a - b) > WIDTH_TOL,
    ensures
        in_bracket_domain(midpoint(a, b)),
        match spec_iteration(vp, dt, mode, a, fa, b, fb) {
            IterStep::Root(c) => c as int == midpoint(a, b) && in_bracket_domain(c as int),
            IterStep::Narrowed(c, nb) => c as int == midpoint(a, b) && bracket_ok(
                vp,
                dt,
                nb.a as int,
                nb.fa as int,
                nb.b as int,
                nb.fb as int,
            ) && iabs(nb.a as int - nb.b as int) < iabs(a - b),
            IterStep::Singular => true,
        },
{
    lemma_midpoint(a, b);
    let c: int = midpoint(a, b);
    let fc: int = spec_g(vp, dt, c);
    lemma_g_bound(vp, dt, a);
    lemma_g_bound(vp, dt, b);
    lemma_g_bound(vp, dt, c);
    if fc != 0 {
        lemma_ridder_step(a, fa, b, fb, c, fc);
        let disc: int = fc * fc - fa * fb;
        let d: int = c + tdiv((c - a) * sgn(fa) * fc, sqrt_floor(disc));
        if d != 0 {
            let fd: int = spec_g(vp, dt, d);
            lemma_g_bound(vp, dt, d);
            if !spec_accepts(mode, fd) {
                if fc * fd < 0 {
                    assert(opposite_signs(fc, fd)) by (nonlinear_arith)
                        requires
                            fc * fd < 0,
                    ;
                    assert(iabs(c - d) <= iabs(c - a) < iabs(a - b));
                } else if fc * fa < 0 {
                    assert(opposite_signs(fa, fc)) by (nonlinear_arith)
                        requires
                            fc * fa < 0,
                    ;
                } else {
                    assert((fa < 0 && fc < 0) || (fa > 0 && fc > 0)) by (nonlinear_arith)
                        requires
                            0 <= fc * fa,
                            fc != 0,
                            fa != 0,
                    ;
                    assert(opposite_signs(fc, fb));
                }
            }
        }
    }
}

/// The whole solve, as a function of the state: narrow the bracket until it
/// is at most WIDTH_TOL wide and yield the last midpoint, unless an
/// iteration accepted a root or halted first.
pub open spec fn spec_solve(
    vp: int,
    dt: int,
    mode: Acceptance,
    a: int,
    fa: int,
    b: int,
    fb: int,
    last: int,
) -> Result<int, SolveError>
    decreases iabs(a - b),
        when bracket_ok(vp, dt, a, fa, b, fb)
        via spec_solve_decreases
{
    if iabs(a - b) <= WIDTH_TOL {
        Ok(last)
    } else {
        match spec_iteration(vp, dt, mode, a, fa, b, fb) {
            IterStep::Root(c) => Ok(c as int),
            IterStep::Singular => Err(SolveError::Domain),
            IterStep::Narrowed(c, nb) => spec_solve(
                vp,
                dt,
                mode,
                nb.a as int,
                nb.fa as int,
                nb.b as int,
                nb.fb as int,
                c as int,
            ),
        }
    }
}

#[via_fn]
proof fn spec_solve_decreases(
    vp: int,
    dt: int,
    mode: Acceptance,
    a: int,
    fa: int,
    b: int,
    fb: int,
    last: int,
) {
    if bracket_ok(vp, dt, a, fa, b, fb) && iabs(a - b) > WIDTH_TOL {
        lemma_iteration_invariant(vp, dt, mode, a, fa, b, fb);
    }
}

/// The root-finder's whole behaviour: an exact root at either end of the
/// initial bracket is returned at once; end values that fail to straddle a
/// sign change are rejected; otherwise the iteration runs.
pub open spec fn spec_find_root(vp: int, dt: int, mode: Acceptance) -> Result<int, SolveError> {
    let fa = spec_g(vp, dt, BRACKET_LO as int);
    let fb = spec_g(vp, dt, BRACKET_HI as int);
    if fa == 0 {
        Ok(BRACKET_LO as int)
    } else if fb == 0 {
        Ok(BRACKET_HI as int)
    } else if !opposite_signs(fa, fb) {
        Err(SolveError::RootNotBracketed)
    } else {
        spec_solve(
            vp,
            dt,
            mode,
            BRACKET_LO as int,
            fa,
            BRACKET_HI as int,
            fb,
            BRACKET_LO as int,
        )
    }
}

/// A result on machine integers, read as a result on the integers.
pub open spec fn result_as_int(r: Result<i128, SolveError>) -> Result<int, SolveError> {
    match r {
        Ok(c) => Ok(c as int),
        Err(e) => Err(e),
    }
}

/// Evaluate g(x) = x - dt*rhs(x) - v_prev on the bracket's domain.
pub fn eval_g(vp: i128, dt: i128, x: i128) -> (r: i128)
    requires
        params_ok(vp as int, dt as int),
        in_bracket_domain(x as int),
    ensures
        r == spec_g(vp as int, dt as int, x as int),
        iabs(r as int) <= G_BOUND,
{
    let f: i128 = match rhs(x) {
        Ok(f) => f,
        Err(_) => {
            proof {
                assert(false);
            }
            0
        },
    };
    proof {
        lemma_rhs_bound(x as int);
        assert(f as int == spec_rhs(x as int));
        assert(-20_000_000_000_000_000_000_000_000_000 <= (dt as int) * (f as int)
            <= 20_000_000_000_000_000_000_000_000_000) by (nonlinear_arith)
            requires
                1 <= dt as int <= 1_000_000,
                -20_000_000_000_000_000_000_000 <= f as int <= 20_000_000_000_000_000_000_000,
        ;
        lemma_tdiv_mag(
            (dt as int) * (f as int),
            SCALE as int,
            20_000_000_000_000_000_000_000_000_000,
        );
        assert(20_000_000_000_000_000_000_000_000_000int / (SCALE as int)
            == 2_000_000_000_000_000_000int);
    }
    let prod: i128 = dt * f;
    let step: i128 = div_trunc(prod, SCALE);
    x - step - vp
}

/// One executable iteration of the root-finder; returns exactly what the
/// iteration map of the specification yields on this state.
pub fn ridder_iteration(vp: i128, dt: i128, mode: Acceptance, br: &Bracket) -> (r: IterStep)
    requires
        br.ok(vp as int, dt as int),
        br.width() > WIDTH_TOL,
    ensures
        r == spec_iteration(
            vp as int,
            dt as int,
            mode,
            br.a as int,
            br.fa as int,
            br.b as int,
            br.fb as int,
        ),
{
    proof {
        lemma_midpoint(br.a as int, br.b as int);
        lemma_g_bound(vp as int, dt as int, br.a as int);
        lemma_g_bound(vp as int, dt as int, br.b as int);
    }
    let c: i128 = div_trunc(br.a + br.b, 2);
    let fc: i128 = eval_g(vp, dt, c);
    if fc == 0 {
        return IterStep::Root(c);
    }
    proof {
        lemma_ridder_step(
            br.a as int,
            br.fa as int,
            br.b as int,
            br.fb as int,
            c as int,
            fc as int,
        );
        assert((fc as int) * (fc as int) <= 9_000_000_000_000_000_000_000_000_000_000_000_000
            && -9_000_000_000_000_000_000_000_000_000_000_000_000 <= (br.fa as int) * (br.fb
            as int)) by (nonlinear_arith)
            requires
                -3_000_000_000_000_000_000 <= fc as int <= 3_000_000_000_000_000_000,
                -3_000_000_000_000_000_000 <= br.fa as int <= 3_000_000_000_000_000_000,
                -3_000_000_000_000_000_000 <= br.fb as int <= 3_000_000_000_000_000_000,
        ;
    }
    let disc: i128 = fc * fc - br.fa * br.fb;
    let sq_u: u128 = isqrt(disc as u128);
    proof {
        lemma_sqrt_floor_of_witness(disc as int, sq_u as int);
        assert((sq_u as int) * (sq_u as int) <= disc as int);
        assert(sq_u as int <= 5_000_000_000_000_000_000) by (nonlinear_arith)
            requires
                0 <= sq_u as int,
                (sq_u as int) * (sq_u as int) <= 18_000_000_000_000_000_000_000_000_000_000_000_000int,
        ;
    }
    let sq: i128 = sq_u as i128;
    let sgn_fa: i128 = sign(br.fa);
    proof {
        assert(-1_000_000_000_000 <= (c as int - br.a as int) * (sgn_fa as int)
            <= 1_000_000_000_000) by (nonlinear_arith)
            requires
                -1_000_000_000_000 <= c as int - br.a as int <= 1_000_000_000_000,
                -1 <= sgn_fa as int <= 1,
        ;
        assert(-3_000_000_000_000_000_000_000_000_000_000 <= ((c as int - br.a as int) * (
        sgn_fa as int)) * (fc as int) <= 3_000_000_000_000_000_000_000_000_000_000)
            by (nonlinear_arith)
            requires
                -1_000_000_000_000 <= (c as int - br.a as int) * (sgn_fa as int)
                    <= 1_000_000_000_000,
                -3_000_000_000_000_000_000 <= fc as int <= 3_000_000_000_000_000_000,
        ;
    }
    let num: i128 = (c - br.a) * sgn_fa * fc;
    let d: i128 = c + div_trunc(num, sq);
    if d == 0 {
        return IterStep::Singular;
    }
    let fd: i128 = eval_g(vp, dt, d);
    if accepts(mode, fd) {
        return IterStep::Root(c);
    }
    proof {
        assert(-9_000_000_000_000_000_000_000_000_000_000_000_000 <= (fc as int) * (fd as int)
            <= 9_000_000_000_000_000_000_000_000_000_000_000_000
            && -9_000_000_000_000_000_000_000_000_000_000_000_000 <= (fc as int) * (br.fa
            as int) <= 9_000_000_000_000_000_000_000_000_000_000_000_000) by (nonlinear_arith)
            requires
                -3_000_000_000_000_000_000 <= fc as int <= 3_000_000_000_000_000_000,
                -3_000_000_000_000_000_000 <= fd as int <= 3_000_000_000_000_000_000,
                -3_000_000_000_000_000_000 <= br.fa as int <= 3_000_000_000_000_000_000,
        ;
    }
    if fc * fd < 0 {
        IterStep::Narrowed(c, Bracket { a: c, fa: fc, b: d, fb: fd })
    } else if fc * br.fa < 0 {
        IterStep::Narrowed(c, Bracket { a: br.a, fa: br.fa, b: c, fb: fc })
    } else {
        IterStep::Narrowed(c, Bracket { a: c, fa: fc, b: br.b, fb: br.fb })
    }
}

/// Locate the root of g(x) = x - dt*rhs(x) - v_prev inside the fixed
/// bracket, under the given acceptance test.  The result is exactly the
/// value of the specification-level solve, so callers can reason about
/// every outcome; in particular a bracket whose end values share a sign is
/// reported as RootNotBracketed rather than yielding an undefined
/// extrapolation.
pub fn find_root(vp: i128, dt: i128, mode: Acceptance) -> (r: Result<i128, SolveError>)
    requires
        params_ok(vp as int, dt as int),
    ensures
        result_as_int(r) == spec_find_root(vp as int, dt as int, mode),
        r matches Ok(c) ==> in_bracket_domain(c as int),
{
    let fa0: i128 = eval_g(vp, dt, BRACKET_LO);
    let fb0: i128 = eval_g(vp, dt, BRACKET_HI);
    if fa0 == 0 {
        return Ok(BRACKET_LO);
    }
    if fb0 == 0 {
        return Ok(BRACKET_HI);
    }
    if (fa0 < 0) == (fb0 < 0) {
        return Err(SolveError::RootNotBracketed);
    }
    let mut br: Bracket = Bracket { a: BRACKET_LO, fa: fa0, b: BRACKET_HI, fb: fb0 };
    let mut last: i128 = BRACKET_LO;
    while abs(br.a - br.b) > WIDTH_TOL
        invariant
            params_ok(vp as int, dt as int),
            br.ok(vp as int, dt as int),
            in_bracket_domain(last as int),
            spec_solve(
                vp as int,
                dt as int,
                mode,
                br.a as int,
                br.fa as int,
                br.b as int,
                br.fb as int,
                last as int,
            ) == spec_find_root(vp as int, dt as int, mode),
        decreases br.width(),
    {
        proof {
            lemma_iteration_invariant(
                vp as int,
                dt as int,
                mode,
                br.a as int,
                br.fa as int,
                br.b as int,
                br.fb as int,
            );
        }
        let step = ridder_iteration(vp, dt, mode, &br);
        match step {
            IterStep::Root(c) => {
                return Ok(c);
            },
            IterStep::Singular => {
                return Err(SolveError::Domain);
            },
            IterStep::Narrowed(c, nb) => {
                last = c;
                br = nb;
            },
        }
    }
    Ok(last)
}

/// The implicit first step: the velocity x with x - dt*rhs(x) = v_prev,
/// located under the magnitude acceptance test (the variant under which the
/// returned root's residual is small).
pub fn first_step(v_prev: i128, dt: i128) -> (r: Result<i128, SolveError>)
    requires
        params_ok(v_prev as int, dt as int),
    ensures
        result_as_int(r) == spec_first_step(v_prev as int, dt as int),
        r matches Ok(c) ==> in_bracket_domain(c as int),
{
    find_root(v_prev, dt, Acceptance::Magnitude)
}

/// The first step's whole behaviour.
pub open spec fn spec_first_step(vp: int, dt: int) -> Result<int, SolveError> {
    spec_find_root(vp, dt, Acceptance::Magnitude)
}

} // verus!
