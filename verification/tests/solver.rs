// The bracketing root-finder: the bootstrap solve, its residual, the two
// acceptance tests, the bracket-not-straddling error, and the shrinkage of
// the bracket from iteration to iteration.

use ridder_ode::SolveError;
use ridder_ode::dynamics::V_LIMIT;
use ridder_ode::fixed::abs;
use ridder_ode::sim::DT;
use ridder_ode::solver::{
    Acceptance, BRACKET_HI, BRACKET_LO, Bracket, IterStep, WIDTH_TOL, accepts, eval_g,
    find_root, first_step, ridder_iteration,
};

#[test]
fn bootstrap_root_value() {
    // The implicit first step from rest: the root of x - dt*rhs(x) with
    // dt = 1e-5 is 0.0316129181 in fixed point.
    assert_eq!(first_step(0, DT), Ok(316_129_181));
}

#[test]
fn bootstrap_root_is_positive() {
    // Thrust exceeds drag plus gravity at rest, so the first step
    // accelerates.
    let c = first_step(0, DT).unwrap();
    assert!(c > 0);
}

#[test]
fn bootstrap_residual_is_small() {
    // |c - dt*rhs(c)| < 1e-8, i.e. under 100 units.
    let c = first_step(0, DT).unwrap();
    let residual = eval_g(0, DT, c);
    assert!(abs(residual) < 100);
}

#[test]
fn unbracketed_solve_is_rejected() {
    // With v_prev = 1000 the map g is negative at both bracket ends, so no
    // root is known to lie inside and the solver must say so.
    assert_eq!(first_step(V_LIMIT, DT), Err(SolveError::RootNotBracketed));
}

#[test]
fn signed_acceptance_is_one_sided() {
    // The signed test passes any residual below the threshold, however
    // negative; the magnitude test does not.
    assert!(accepts(Acceptance::Signed, -1_000_000));
    assert!(accepts(Acceptance::Signed, 0));
    assert!(!accepts(Acceptance::Signed, 1));
    assert!(!accepts(Acceptance::Magnitude, -1_000_000));
    assert!(accepts(Acceptance::Magnitude, 0));
    assert!(!accepts(Acceptance::Magnitude, 1));
}

#[test]
fn signed_acceptance_returns_early() {
    // Under the one-sided test the solver accepts the first midpoint whose
    // extrapolated residual goes negative: the plain bisection value
    // 100/2^12 = 0.0244140625, whose own residual is far from zero.
    assert_eq!(find_root(0, DT, Acceptance::Signed), Ok(244_140_625));
    let c = find_root(0, DT, Acceptance::Signed).unwrap();
    assert!(abs(eval_g(0, DT, c)) > 100_000_000);
}

#[test]
fn bracket_width_never_grows() {
    // Drive the iteration by hand from the initial bracket and watch the
    // width: in every narrowing step it shrinks, and the run ends in an
    // accepted root or a bracket at most one unit wide.
    let fa = eval_g(0, DT, BRACKET_LO);
    let fb = eval_g(0, DT, BRACKET_HI);
    assert!(fa < 0 && fb > 0);
    let mut br = Bracket { a: BRACKET_LO, fa, b: BRACKET_HI, fb };
    let mut width = abs(br.a - br.b);
    let mut steps = 0;
    while width > WIDTH_TOL {
        match ridder_iteration(0, DT, Acceptance::Magnitude, &br) {
            IterStep::Root(c) => {
                assert!(c > 0);
                return;
            },
            IterStep::Singular => {
                panic!("the extrapolation left the domain");
            },
            IterStep::Narrowed(_, nb) => {
                let nw = abs(nb.a - nb.b);
                assert!(nw <= width, "width grew from {} to {}", width, nw);
                br = nb;
                width = nw;
            },
        }
        steps += 1;
        assert!(steps <= 100, "the bracket failed to shrink");
    }
}
