//! The two integration traces and the driver that advances them.
//!
//! Trace 1 starts from the implicitly consistent first step found by the
//! root-finder and then advances with explicit Euler steps on the exact
//! right-hand side; trace 2 advances with explicit Euler steps on the
//! regularized right-hand side from the very first step.  Both share one
//! fixed step of 1e-5 and stop at t = 0.10, or earlier once trace 1 has
//! converged.  The driver's state is an explicit value threaded through
//! each step, and the emitted rows are exactly the rows of the
//! specification-level recurrence.

use vstd::prelude::*;
use crate::SolveError;
use crate::fixed::{SCALE, iabs, tdiv, abs, div_trunc, lemma_tdiv_mag};
use crate::dynamics::{V_LIMIT, REG_EPS, spec_rhs, spec_rhs2, rhs, rhs2, lemma_rhs_bound};
use crate::solver::{first_step, spec_first_step, result_as_int};

verus! {

/// The fixed time step, 1e-5.
pub const DT: i128 = 100_000;

/// The stop time, 0.10.
pub const T_END: i128 = 1_000_000_000;

/// Trace 1 counts as converged once successive values differ by at most
/// this much (1e-10).
pub const CONV_TOL: i128 = 1;

/// Magnitude bound on every velocity a trace can reach in one step from the
/// accepted domain; a machine limit that keeps the state inside `i128`.
pub const V_STEP_BOUND: i128 = 3_000_000_000_000_000_000;

/// The driver's state: the current time, both trace velocities, and trace
/// 1's previous velocity (for the convergence test).
#[derive(Clone, Copy, Debug, PartialEq, Eq, Structural)]
pub struct SimState {
    pub t: i128,
    pub v1: i128,
    pub v2: i128,
    pub v1_prev: i128,
}

/// One emitted row of the time series.
#[derive(Clone, Copy, Debug, PartialEq, Eq, Structural)]
pub struct Row {
    pub t: i128,
    pub v1: i128,
    pub v2: i128,
}

/// One explicit Euler step on the exact right-hand side.
pub open spec fn euler_step(v: int, dt: int) -> int {
    v + tdiv(dt * spec_rhs(v), SCALE as int)
}

/// One explicit Euler step on the regularized right-hand side.
pub open spec fn euler_step_reg(v: int, dt: int) -> int {
    v + tdiv(dt * spec_rhs2(v), SCALE as int)
}

/// Velocities at which the exact right-hand side may be evaluated.
pub open spec fn trace1_ok(v: int) -> bool {
    v != 0 && -V_LIMIT <= v <= V_LIMIT
}

/// Velocities at which the regularized right-hand side may be evaluated.
pub open spec fn trace2_ok(v: int) -> bool {
    v != -REG_EPS && -V_LIMIT <= v <= V_LIMIT
}

/// The loop stops at the stop time or once trace 1 has converged.
pub open spec fn sim_done(t: int, v1: int, v1_prev: int) -> bool {
    t >= T_END || iabs(v1_prev - v1) <= CONV_TOL
}

/// The rows the loop emits from a given state onward: empty once the state
/// is final, a domain failure if either trace sits on a pole or outside the
/// accepted range, and otherwise one row per step.
pub open spec fn spec_sim_from(t: int, v1: int, v2: int, v1_prev: int) -> Result<
    Seq<Row>,
    SolveError,
>
    decreases T_END + DT - t,
        when 0 <= t <= T_END
{
    if sim_done(t, v1, v1_prev) {
        Ok(Seq::empty())
    } else if !trace1_ok(v1) || !trace2_ok(v2) {
        Err(SolveError::Domain)
    } else {
        let nv1 = euler_step(v1, DT as int);
        let nv2 = euler_step_reg(v2, DT as int);
        let nt = t + DT;
        match spec_sim_from(nt, nv1, nv2, v1) {
            Ok(rest) => Ok(
                seq![Row { t: nt as i128, v1: nv1 as i128, v2: nv2 as i128 }] + rest,
            ),
            Err(e) => Err(e),
        }
    }
}

/// The whole run: the initial row, the bootstrap row, then the loop's rows;
/// any failure of the bootstrap or of a step is the run's failure.
pub open spec fn spec_simulate() -> Result<Seq<Row>, SolveError> {
    match spec_first_step(0, DT as int) {
        Err(e) => Err(e),
        Ok(c) => {
            let v2 = euler_step_reg(0, DT as int);
            match spec_sim_from(DT as int, c, v2, 0) {
                Ok(rest) => Ok(
                    seq![
                        Row { t: 0, v1: 0, v2: 0 },
                        Row { t: DT, v1: c as i128, v2: v2 as i128 },
                    ] + rest,
                ),
                Err(e) => Err(e),
            }
        },
    }
}

/// A step keeps both velocities within V_STEP_BOUND.
pub proof fn lemma_step_bound(v: int)
    requires
        -V_LIMIT <= v <= V_LIMIT,
    ensures
        v != 0 ==> iabs(euler_step(v, DT as int)) <= V_STEP_BOUND,
        v != -REG_EPS ==> iabs(euler_step_reg(v, DT as int)) <= V_STEP_BOUND,
{
    lemma_rhs_bound(v);
    if v != 0 {
        let rr: int = spec_rhs(v);
        assert(-2_000_000_000_000_000_000_000_000_000 <= (DT as int) * rr
            <= 2_000_000_000_000_000_000_000_000_000) by (nonlinear_arith)
            requires
                -20_000_000_000_000_000_000_000 <= rr <= 20_000_000_000_000_000_000_000,
        ;
        lemma_tdiv_mag((DT as int) * rr, SCALE as int, 2_000_000_000_000_000_000_000_000_000);
        assert(2_000_000_000_000_000_000_000_000_000int / (SCALE as int)
            == 200_000_000_000_000_000int);
    }
    if v != -REG_EPS {
        let rr: int = spec_rhs2(v);
        assert(-2_000_000_000_000_000_000_000_000_000 <= (DT as int) * rr
            <= 2_000_000_000_000_000_000_000_000_000) by (nonlinear_arith)
            requires
                -20_000_000_000_000_000_000_000 <= rr <= 20_000_000_000_000_000_000_000,
        ;
        lemma_tdiv_mag((DT as int) * rr, SCALE as int, 2_000_000_000_000_000_000_000_000_000);
        assert(2_000_000_000_000_000_000_000_000_000int / (SCALE as int)
            == 200_000_000_000_000_000int);
    }
}

/// Advance both traces by one step.  Time always advances by exactly DT; a
/// pole or an out-of-range velocity is reported as a domain failure, and
/// otherwise the new state is exactly one Euler step of each trace.
pub fn advance(s: &SimState) -> (r: Result<SimState, SolveError>)
    requires
        0 <= s.t as int <= T_END,
        iabs(s.v1 as int) <= V_STEP_BOUND,
        iabs(s.v2 as int) <= V_STEP_BOUND,
    ensures
        match r {
            Ok(n) => trace1_ok(s.v1 as int) && trace2_ok(s.v2 as int) && n.t == s.t + DT
                && n.v1 as int == euler_step(s.v1 as int, DT as int) && n.v2 as int
                == euler_step_reg(s.v2 as int, DT as int) && n.v1_prev == s.v1,
            Err(e) => e == SolveError::Domain && (!trace1_ok(s.v1 as int) || !trace2_ok(
                s.v2 as int,
            )),
        },
{
    if s.v1 == 0 || s.v1 < -V_LIMIT || s.v1 > V_LIMIT {
        return Err(SolveError::Domain);
    }
    if s.v2 == -REG_EPS || s.v2 < -V_LIMIT || s.v2 > V_LIMIT {
        return Err(SolveError::Domain);
    }
    let f1: i128 = match rhs(s.v1) {
        Ok(f) => f,
        Err(_) => {
            proof {
                assert(false);
            }
            0
        },
    };
    let f2: i128 = match rhs2(s.v2) {
        Ok(f) => f,
        Err(_) => {
            proof {
                assert(false);
            }
            0
        },
    };
    proof {
        lemma_rhs_bound(s.v1 as int);
        lemma_rhs_bound(s.v2 as int);
        assert(-2_000_000_000_000_000_000_000_000_000 <= (DT as int) * (f1 as int)
            <= 2_000_000_000_000_000_000_000_000_000
            && -2_000_000_000_000_000_000_000_000_000 <= (DT as int) * (f2 as int)
            <= 2_000_000_000_000_000_000_000_000_000) by (nonlinear_arith)
            requires
                -20_000_000_000_000_000_000_000 <= f1 as int <= 20_000_000_000_000_000_000_000,
                -20_000_000_000_000_000_000_000 <= f2 as int <= 20_000_000_000_000_000_000_000,
        ;
        lemma_tdiv_mag(
            (DT as int) * (f1 as int),
            SCALE as int,
            2_000_000_000_000_000_000_000_000_000,
        );
        lemma_tdiv_mag(
            (DT as int) * (f2 as int),
            SCALE as int,
            2_000_000_000_000_000_000_000_000_000,
        );
        assert(2_000_000_000_000_000_000_000_000_000int / (SCALE as int)
            == 200_000_000_000_000_000int);
    }
    let d1: i128 = div_trunc(DT * f1, SCALE);
    let d2: i128 = div_trunc(DT * f2, SCALE);
    Ok(
        SimState {
            t: s.t + DT,
            v1: s.v1 + d1,
            v2: s.v2 + d2,
            v1_prev: s.v1,
        },
    )
}

/// Compose an already-emitted prefix with the rows still to come.
pub open spec fn with_prefix(prefix: Seq<Row>, rest: Result<Seq<Row>, SolveError>) -> Result<
    Seq<Row>,
    SolveError,
> {
    match rest {
        Ok(s) => Ok(prefix + s),
        Err(e) => Err(e),
    }
}

/// Run the whole integration: bootstrap trace 1 with the implicit first
/// step, take the regularized first step for trace 2, then advance both
/// traces until the stop time or trace 1's convergence.  The returned rows
/// are exactly the rows of the specification-level run; in particular the
/// times rise by exactly DT from row to row and never pass T_END, so the
/// loop takes at most T_END/DT steps.
pub fn simulate() -> (r: Result<Vec<Row>, SolveError>)
    ensures
        match r {
            Ok(rows) => Ok::<Seq<Row>, SolveError>(rows@) == spec_simulate(),
            Err(e) => Err::<Seq<Row>, SolveError>(e) == spec_simulate(),
        },
        match r {
            Ok(rows) => rows@.len() <= 2 + 10_000 && (forall|i: int|
                0 <= i < rows@.len() ==> #[trigger] rows@[i].t <= T_END) && (forall|i: int|
                1 <= i < rows@.len() ==> #[trigger] rows@[i].t as int == rows@[i - 1].t + DT),
            Err(_) => true,
        },
{
    let c: i128 = match first_step(0, DT) {
        Ok(c) => c,
        Err(e) => {
            return Err(e);
        },
    };
    let f2: i128 = match rhs2(0) {
        Ok(f) => f,
        Err(_) => {
            proof {
                assert(false);
            }
            0
        },
    };
    proof {
        lemma_rhs_bound(0);
        assert(-2_000_000_000_000_000_000_000_000_000 <= (DT as int) * (f2 as int)
            <= 2_000_000_000_000_000_000_000_000_000) by (nonlinear_arith)
            requires
                -20_000_000_000_000_000_000_000 <= f2 as int <= 20_000_000_000_000_000_000_000,
        ;
        lemma_tdiv_mag(
            (DT as int) * (f2 as int),
            SCALE as int,
            2_000_000_000_000_000_000_000_000_000,
        );
        assert(2_000_000_000_000_000_000_000_000_000int / (SCALE as int)
            == 200_000_000_000_000_000int);
        lemma_step_bound(0);
    }
    let v2: i128 = div_trunc(DT * f2, SCALE);
    let mut rows: Vec<Row> = Vec::new();
    rows.push(Row { t: 0, v1: 0, v2: 0 });
    rows.push(Row { t: DT, v1: c, v2 });
    let mut st: SimState = SimState { t: DT, v1: c, v2, v1_prev: 0 };
    proof {
        assert(iabs(c as int) <= V_STEP_BOUND);
        assert(rows@ =~= seq![Row { t: 0, v1: 0, v2: 0 }, Row { t: DT, v1: c, v2 }]);
    }
    loop
        invariant
            0 <= st.t as int <= T_END,
            st.t as int % (DT as int) == 0,
            iabs(st.v1 as int) <= V_STEP_BOUND,
            iabs(st.v2 as int) <= V_STEP_BOUND,
            iabs(st.v1_prev as int) <= V_STEP_BOUND,
            rows@.len() >= 1,
            with_prefix(
                rows@,
                spec_sim_from(st.t as int, st.v1 as int, st.v2 as int, st.v1_prev as int),
            ) == spec_simulate(),
            rows@[rows@.len() - 1].t == st.t,
            forall|i: int| 0 <= i < rows@.len() ==> #[trigger] rows@[i].t <= T_END,
            forall|i: int|
                1 <= i < rows@.len() ==> #[trigger] rows@[i].t as int == rows@[i - 1].t + DT,
            (DT as int) * (rows@.len() - 2) <= st.t as int,
        decreases T_END - st.t,
    {
        if st.t >= T_END || abs(st.v1_prev - st.v1) <= CONV_TOL {
            proof {
                assert(sim_done(st.t as int, st.v1 as int, st.v1_prev as int));
                assert(spec_sim_from(st.t as int, st.v1 as int, st.v2 as int, st.v1_prev as int)
                    == Ok::<Seq<Row>, SolveError>(Seq::empty()));
                assert(rows@ + Seq::<Row>::empty() =~= rows@);
                assert((DT as int) * (rows@.len() - 2) <= T_END);
                assert(rows@.len() - 2 <= 10_000) by (nonlinear_arith)
                    requires
                        (100_000int) * (rows@.len() - 2) <= 1_000_000_000,
                ;
            }
            return Ok(rows);
        }
        let n: SimState = match advance(&st) {
            Ok(n) => n,
            Err(e) => {
                proof {
                    assert(spec_sim_from(
                        st.t as int,
                        st.v1 as int,
                        st.v2 as int,
                        st.v1_prev as int,
                    ) == Err::<Seq<Row>, SolveError>(SolveError::Domain));
                }
                return Err(e);
            },
        };
        proof {
            lemma_step_bound(st.v1 as int);
            lemma_step_bound(st.v2 as int);
            assert(n.t as int <= T_END) by {
                vstd::arithmetic::div_mod::lemma_fundamental_div_mod(st.t as int, DT as int);
                let q: int = st.t as int / (DT as int);
                assert(st.t as int == (DT as int) * q);
                assert(T_END as int == (DT as int) * 10_000);
                assert(q < 10_000) by (nonlinear_arith)
                    requires
                        (100_000int) * q < (100_000int) * 10_000,
                ;
                assert((DT as int) * (q + 1) <= (DT as int) * 10_000) by (nonlinear_arith)
                    requires
                        q + 1 <= 10_000,
                ;
                assert((DT as int) * (q + 1) == st.t as int + DT) by (nonlinear_arith)
                    requires
                        st.t as int == (100_000int) * q,
                ;
            }
            assert(n.t as int % (DT as int) == 0) by {
                vstd::arithmetic::div_mod::lemma_mod_add_multiples_vanish(st.t as int, DT as int);
            }
        }
        let row = Row { t: n.t, v1: n.v1, v2: n.v2 };
        proof {
            let old_rows = rows@;
            let nrow = Row { t: n.t, v1: n.v1, v2: n.v2 };
            let rest = spec_sim_from(n.t as int, n.v1 as int, n.v2 as int, n.v1_prev as int);
            assert(spec_sim_from(st.t as int, st.v1 as int, st.v2 as int, st.v1_prev as int)
                == with_prefix(seq![nrow], rest));
            match rest {
                Ok(s) => {
                    assert(old_rows + (seq![nrow] + s) =~= (old_rows + seq![nrow]) + s);
                    assert(old_rows.push(nrow) =~= old_rows + seq![nrow]);
                },
                Err(_) => {},
            }
            assert((DT as int) * ((rows@.len() + 1) - 2) <= n.t as int) by (nonlinear_arith)
                requires
                    (100_000int) * (rows@.len() - 2) <= st.t as int,
                    n.t as int == st.t as int + 100_000,
            ;
        }
        rows.push(row);
        st = n;
    }
}

} // verus!
