//! Numerical core for integrating the velocity equation
//! dv/dt = P/(m*v) - k*v^2/m - u*g, whose right-hand side is singular at
//! v = 0.  The library works on a fixed-point representation of the real
//! quantities (one unit is 1e-10), so every value is an exact integer and
//! every step of the computation is verified: a bracketing root-finder in
//! the style of Ridder's method synthesizes an implicitly consistent first
//! step, and two explicit Euler traces (one bootstrapped by the root-finder,
//! one using a regularized right-hand side) are advanced to a fixed stop
//! time.

use vstd::prelude::*;

pub mod fixed;
pub mod dynamics;
pub mod solver;
pub mod sim;

verus! {

/// Failures that the numerical routines surface instead of propagating
/// infinities or not-a-number values.
#[derive(Clone, Copy, Debug, PartialEq, Eq, Structural)]
pub enum SolveError {
    /// A right-hand side was asked for at its pole (v = 0 for the exact
    /// dynamics, v = -1e-3 for the regularized one), or the extrapolation
    /// landed exactly on the singularity.
    Domain,
    /// The values at the ends of the initial bracket do not have opposite
    /// signs, so no root is known to lie inside it.
    RootNotBracketed,
}

} // verus!
