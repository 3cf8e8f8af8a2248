// Fixed-point scalar helpers.  One unit is 1e-10, so the real value 5.0 is
// 50_000_000_000 units.

use ridder_ode::fixed::{abs, div_trunc, isqrt, sign};

#[test]
fn sign_of_positive() {
    // sign(5.0) = 1
    assert_eq!(sign(50_000_000_000), 1);
}

#[test]
fn sign_of_negative() {
    // sign(-3.2) = -1
    assert_eq!(sign(-32_000_000_000), -1);
}

#[test]
fn sign_of_zero() {
    assert_eq!(sign(0), 0);
}

#[test]
fn abs_of_negative() {
    // abs(-7.5) = 7.5
    assert_eq!(abs(-75_000_000_000), 75_000_000_000);
}

#[test]
fn abs_of_zero() {
    assert_eq!(abs(0), 0);
}

#[test]
fn abs_of_positive() {
    // abs(4.0) = 4.0
    assert_eq!(abs(40_000_000_000), 40_000_000_000);
}

#[test]
fn division_truncates_toward_zero() {
    assert_eq!(div_trunc(7, 2), 3);
    assert_eq!(div_trunc(-7, 2), -3);
    assert_eq!(div_trunc(7, -2), -3);
    assert_eq!(div_trunc(-7, -2), 3);
}

#[test]
fn integer_square_roots() {
    assert_eq!(isqrt(0), 0);
    assert_eq!(isqrt(1), 1);
    assert_eq!(isqrt(15), 3);
    assert_eq!(isqrt(16), 4);
    assert_eq!(isqrt(1_000_000_000_000_000_000_000_000), 1_000_000_000_000);
}
