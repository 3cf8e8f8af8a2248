// The two right-hand sides: exact values, the poles, and the closeness of
// the regularized form to the exact one away from the singularity.

use ridder_ode::SolveError;
use ridder_ode::dynamics::{rhs, rhs2, REG_EPS};
use ridder_ode::fixed::SCALE;

#[test]
fn rhs_at_unit_velocity() {
    // rhs(1.0) = 100/1 - 10*1 - 1.962 = 88.038
    assert_eq!(rhs(SCALE), Ok(880_380_000_000));
}

#[test]
fn rhs_fails_at_the_pole() {
    assert_eq!(rhs(0), Err(SolveError::Domain));
}

#[test]
fn rhs2_at_rest() {
    // rhs2(0) = 100/0.001 - 1.962 = 99998.038
    assert_eq!(rhs2(0), Ok(999_980_380_000_000));
}

#[test]
fn rhs2_fails_at_its_shifted_pole() {
    assert_eq!(rhs2(-REG_EPS), Err(SolveError::Domain));
}

#[test]
fn regularized_rhs_tracks_exact_rhs_away_from_pole() {
    // Away from v = 0 the regularized rate differs from the exact one by
    // about 100*eps/v^2 with eps = 1e-3, which vanishes as eps does; check
    // that the difference is one-sided and within that bound on a sample
    // of velocities from 0.1 to 100.
    let samples: [i128; 6] = [
        1_000_000_000,         // 0.1
        5_000_000_000,         // 0.5
        10_000_000_000,        // 1.0
        50_000_000_000,        // 5.0
        100_000_000_000,       // 10.0
        1_000_000_000_000,     // 100.0
    ];
    for &v in samples.iter() {
        let exact = rhs(v).unwrap();
        let reg = rhs2(v).unwrap();
        let diff = exact - reg;
        assert!(diff >= 0, "regularization must not raise the rate at v={}", v);
        let vr = v as f64 / SCALE as f64;
        let bound_real = 100.0 * 1.0e-3 / (vr * vr);
        let bound_units = (bound_real * SCALE as f64) as i128 + 2;
        assert!(
            diff <= bound_units,
            "difference {} above bound {} at v={}",
            diff,
            bound_units,
            v
        );
    }
}
