// The driver: the emitted time series, its first rows, the advance of the
// state by exactly one step, and termination at the stop time.

use ridder_ode::SolveError;
use ridder_ode::sim::{CONV_TOL, DT, Row, SimState, T_END, advance, simulate};

#[test]
fn end_to_end_first_rows() {
    // The series opens with the rest row, then the bootstrap row at
    // t = 1e-5: trace 1 holds the implicit first step, trace 2 holds
    // dt * rhs2(0) = 1e-5 * 99998.038 = 0.99998038.
    let rows = simulate().unwrap();
    assert_eq!(rows[0], Row { t: 0, v1: 0, v2: 0 });
    assert_eq!(rows[1], Row { t: 100_000, v1: 316_129_181, v2: 9_999_803_800 });
    // To six decimals the first data row reads t=0.000010, v2=0.999980.
    let v2_real = rows[1].v2 as f64 / 1.0e10;
    assert_eq!(format!("{:.6}", v2_real), "0.999980");
    assert_eq!(format!("{:.6}", rows[1].t as f64 / 1.0e10), "0.000010");
}

#[test]
fn time_rises_by_exactly_dt() {
    let rows = simulate().unwrap();
    for i in 1..rows.len() {
        assert_eq!(rows[i].t, rows[i - 1].t + DT);
    }
}

#[test]
fn run_stops_at_the_stop_time() {
    // 10001 rows: the rest row, the bootstrap row, and 9999 further steps
    // up to t = 0.10 exactly; convergence never fires first here.
    let rows = simulate().unwrap();
    assert_eq!(rows.len(), 10_001);
    for row in rows.iter() {
        assert!(row.t <= T_END);
    }
    assert_eq!(rows[rows.len() - 1].t, T_END);
}

#[test]
fn traces_approach_terminal_velocity() {
    // Both traces settle near the terminal velocity, where thrust balances
    // drag and gravity: about 2.12 at t = 0.10.
    let rows = simulate().unwrap();
    let last = rows[rows.len() - 1];
    let v1 = last.v1 as f64 / 1.0e10;
    let v2 = last.v2 as f64 / 1.0e10;
    assert!((v1 - 2.12).abs() < 0.01, "v1 = {}", v1);
    assert!((v2 - 2.12).abs() < 0.01, "v2 = {}", v2);
}

#[test]
fn advance_takes_one_euler_step() {
    // From the bootstrap state, one step lands exactly on the third row of
    // the series.
    let s = SimState { t: 100_000, v1: 316_129_181, v2: 9_999_803_800, v1_prev: 0 };
    let n = advance(&s).unwrap();
    assert_eq!(
        n,
        SimState {
            t: 200_000,
            v1: 632_258_363,
            v2: 10_008_597_845,
            v1_prev: 316_129_181,
        }
    );
}

#[test]
fn advance_rejects_the_pole() {
    let s = SimState { t: 100_000, v1: 0, v2: 0, v1_prev: 0 };
    assert_eq!(advance(&s), Err(SolveError::Domain));
}

#[test]
fn convergence_tolerance_is_tight() {
    // A state whose trace 1 moved by more than the tolerance keeps going;
    // the bound itself is 1e-10, one fixed-point unit.
    assert_eq!(CONV_TOL, 1);
    let s = SimState { t: 100_000, v1: 316_129_181, v2: 9_999_803_800, v1_prev: 316_129_180 };
    // |v1_prev - v1| = 1 <= CONV_TOL: were the driver at this state, it
    // would stop; advance itself still works on any in-domain state.
    assert!(advance(&s).is_ok());
}
