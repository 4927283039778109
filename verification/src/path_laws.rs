//! What holds of simulated paths: how the drift moves them, how rate and yield enter, what a
//! path keeps on the way, and what its antithetic sibling is.
use crate::characteristic::JumpParams;
use crate::exact::{
    count_exact, exact, faithful, lemma_half, lemma_literal, lemma_multiple, lemma_sign_of_factor,
    lemma_times_add, lemma_times_assoc, lemma_times_cancel, lemma_times_comm, lemma_times_sub,
    lemma_times_unit, same_value, sqrt_exact, times,
};
use crate::mc::{
    chunk_boundary, draw_path_spec, first_breach, law_every_path_counts, mc_chunk_spec,
    mc_price_spec, mc_total, path_after, path_setup_spec, path_tops, paths_per_pair, run_path_spec,
    summary_spec, McConfig, PathSetup, Payoff, StepDraw, Tally, VarianceScheme,
};
use crate::number::{count_of, exp_of, frac, larger, num, Elementary, Number};
use crate::random::{chunk_seed_spec, made_by, RandomSource};
use crate::simulation_laws::lemma_no_barrier;
use crate::types::{HestonParams, OptionType};
use vstd::prelude::*;
use vstd::std_specs::cmp::PartialOrdIs;
use vstd::std_specs::ops::{AddSpec, DivSpec, MulSpec, NegSpec, SubSpec};

verus! {

/// Two setups that differ at most in their drift.
pub open spec fn same_but_drift<T>(a: PathSetup<T>, b: PathSetup<T>) -> bool {
    b == (PathSetup { drift: b.drift, ..a })
}

/// After `n` steps two paths through the same draws have the same variance, and the logarithms of
/// their prices differ by what their drifts differ by, times the time that has passed.
proof fn lemma_drift_moves<T: Number, M: Elementary<T>>(
    m: M,
    v: spec_fn(T) -> real,
    a: PathSetup<T>,
    b: PathSetup<T>,
    steps: Seq<StepDraw<T>>,
    antithetic: bool,
    n: int,
)
    requires
        exact(v),
        same_but_drift(a, b),
        0 <= n <= steps.len(),
    ensures
        ({
            let (x, y) = (
                path_after(m, a, steps, antithetic, n),
                path_after(m, b, steps, antithetic, n),
            );
            &&& x.v == y.v
            &&& v(x.ln_s) - v(y.ln_s) == times(
                v(a.drift) - v(b.drift),
                times(n as real, v(a.dt)),
            )
        }),
    decreases n,
{
    let d = v(a.drift) - v(b.drift);
    let t = v(a.dt);
    lemma_times_unit(t);
    lemma_times_unit(d);
    if n > 0 {
        lemma_drift_moves(m, v, a, b, steps, antithetic, n - 1);
        let k = (n - 1) as real;
        lemma_times_add(t, k, 1real);
        lemma_times_comm(d, times(k, t) + t);
        lemma_times_comm(d, times(k, t));
        lemma_times_comm(d, t);
        lemma_times_add(d, times(k, t), t);
        let x = path_after(m, a, steps, antithetic, n - 1);
        let v_pos = larger(x.v, num::<T>(0));
        let half = v(frac::<T>(1, 2).mul_spec(v_pos));
        // The drift enters each step by its product with the length of the step.
        lemma_times_sub(t, v(a.drift), v(b.drift));
        lemma_times_sub(t, v(a.drift) - half, v(b.drift) - half);
    }
}

/// The drift of the logarithm of the price is the rate less the dividend yield, and enters over
/// the whole life of a path: where two simulations differ only in rate and yield, paths through
/// the same draws keep the same variance, and after `n` of `n_steps` steps the logarithms of their
/// prices differ by what rate less yield differs by, times that share of the time to expiry.
pub proof fn law_price_drifts_at_rate_less_yield<T: Number, M: Elementary<T>>(
    m: M,
    v: spec_fn(T) -> real,
    spot: T,
    expiry: T,
    rate: T,
    yield_: T,
    rate2: T,
    yield2: T,
    hp: HestonParams<T>,
    jumps: Option<JumpParams<T>>,
    n_steps: usize,
    scheme: VarianceScheme,
    steps: Seq<StepDraw<T>>,
    antithetic: bool,
    n: int,
)
    requires
        exact(v),
        count_exact(m, v),
        n_steps > 0,
        0 <= n <= steps.len(),
    ensures
        ({
            let a = path_setup_spec(m, spot, expiry, rate, yield_, hp, jumps, n_steps, scheme);
            let b = path_setup_spec(m, spot, expiry, rate2, yield2, hp, jumps, n_steps, scheme);
            let (x, y) = (
                path_after(m, a, steps, antithetic, n),
                path_after(m, b, steps, antithetic, n),
            );
            let gap = (v(rate) - v(yield_)) - (v(rate2) - v(yield2));
            &&& x.v == y.v
            &&& times(v(x.ln_s) - v(y.ln_s), n_steps as real) == times(
                gap,
                times(n as real, v(expiry)),
            )
        }),
{
    let a = path_setup_spec(m, spot, expiry, rate, yield_, hp, jumps, n_steps, scheme);
    let b = path_setup_spec(m, spot, expiry, rate2, yield2, hp, jumps, n_steps, scheme);
    lemma_drift_moves(m, v, a, b, steps, antithetic, n);
    let gap = (v(rate) - v(yield_)) - (v(rate2) - v(yield2));
    let big = n_steps as real;
    assert(v(count_of::<T, M>(m, n_steps)) == big);
    assert(times(v(a.dt), big) == v(expiry));
    lemma_times_assoc(gap, times(n as real, v(a.dt)), big);
    lemma_times_assoc(n as real, v(a.dt), big);
}

/// The jumps are compensated: with the drift of the logarithm of the price, what the jumps add on
/// average, as many a year as their intensity says, comes to the rate less the dividend yield. The
/// steps have equal length and fill the time to expiry.
pub proof fn law_jumps_are_compensated<T: Number, M: Elementary<T>>(
    m: M,
    v: spec_fn(T) -> real,
    spot: T,
    expiry: T,
    rate: T,
    div_yield: T,
    hp: HestonParams<T>,
    j: JumpParams<T>,
    n_steps: usize,
    scheme: VarianceScheme,
    mean: T,
)
    requires
        exact(v),
        faithful(v),
        sqrt_exact(m, v),
        count_exact(m, v),
        n_steps > 0,
        v(expiry) >= 0real,
        2real * v(mean) == 2real * v(j.mu_j) + times(v(j.sigma_j), v(j.sigma_j)),
    ensures
        ({
            let a = path_setup_spec(
                m,
                spot,
                expiry,
                rate,
                div_yield,
                hp,
                Some(j),
                n_steps,
                scheme,
            );
            let b = path_setup_spec(m, spot, expiry, rate, div_yield, hp, None, n_steps, scheme);
            let growth = v(exp_of(m, mean)) - 1real;
            &&& v(a.drift) + times(v(j.lambda), growth) == v(rate) - v(div_yield)
            &&& v(b.drift) == v(rate) - v(div_yield)
            &&& times(n_steps as real, v(a.dt)) == v(expiry)
            &&& times(v(a.sqdt), v(a.sqdt)) == v(a.dt)
            &&& a.spot == spot && a.hp == hp && a.scheme == scheme
            &&& b == (PathSetup { drift: b.drift, ..a })
        }),
{
    let a = path_setup_spec(m, spot, expiry, rate, div_yield, hp, Some(j), n_steps, scheme);
    let s = v(j.sigma_j);
    let arg = j.mu_j.add_spec(frac::<T>(1, 2).mul_spec(j.sigma_j).mul_spec(j.sigma_j));
    lemma_half::<T>(v);
    lemma_literal(1real / 2real, s);
    lemma_multiple(1real / 2real, s, s);
    assert(same_value(v, arg, mean));
    let big = n_steps as real;
    assert(v(count_of::<T, M>(m, n_steps)) == big);
    assert(times(v(a.dt), big) == v(expiry));
    lemma_times_comm(v(a.dt), big);
    lemma_sign_of_factor(big, v(a.dt));
}

/// What a path keeps on the way: each step adds its price to the sum, and the largest price is at
/// least its own and the one before, and one of them. At the start the sum is empty and the
/// largest price is the spot.
pub proof fn law_path_keeps_sum_and_maximum<T: Number, M: Elementary<T>>(
    m: M,
    v: spec_fn(T) -> real,
    setup: PathSetup<T>,
    steps: Seq<StepDraw<T>>,
    antithetic: bool,
    n: int,
)
    requires
        exact(v),
        0 <= n < steps.len(),
    ensures
        ({
            let start = path_after(m, setup, steps, antithetic, 0);
            let (x, y) = (
                path_after(m, setup, steps, antithetic, n),
                path_after(m, setup, steps, antithetic, n + 1),
            );
            let price = v(exp_of(m, y.ln_s));
            &&& v(start.running_sum) == 0real && start.running_max == setup.spot
            &&& v(y.running_sum) == v(x.running_sum) + price
            &&& v(y.running_max) >= v(x.running_max) && v(y.running_max) >= price
            &&& v(y.running_max) == v(x.running_max) || v(y.running_max) == price
        }),
{
}

/// The draws of the antithetic sibling: the normals with the other sign, the jumps as they are.
pub open spec fn mirrored<T: Number>(steps: Seq<StepDraw<T>>) -> Seq<StepDraw<T>> {
    Seq::new(
        steps.len(),
        |i: int|
            StepDraw {
                za: steps[i].za.neg_spec(),
                zb: steps[i].zb.neg_spec(),
                jump_sum: steps[i].jump_sum,
            },
    )
}

/// After `n` steps the sibling is where the path through the mirrored draws is.
proof fn lemma_mirrored<T: Number, M: Elementary<T>>(
    m: M,
    setup: PathSetup<T>,
    steps: Seq<StepDraw<T>>,
    n: int,
)
    requires
        0 <= n <= steps.len(),
    ensures
        path_after(m, setup, steps, true, n) == path_after(m, setup, mirrored(steps), false, n),
    decreases n,
{
    if n > 0 {
        lemma_mirrored(m, setup, steps, n - 1);
    }
}

/// The first breach depends on the largest prices alone.
proof fn lemma_same_breach<T: Number>(
    payoff: Payoff<T>,
    f: spec_fn(int) -> T,
    g: spec_fn(int) -> T,
    n: int,
)
    requires
        forall|k: int| 0 <= k <= n ==> #[trigger] f(k) == g(k),
    ensures
        first_breach(payoff, f, n) == first_breach(payoff, g, n),
    decreases n + 1,
{
    if n >= 0 {
        lemma_same_breach(payoff, f, g, n - 1);
    }
}

/// The antithetic sibling of a path is the path through the draws with the other sign, to the last
/// rounding.
pub proof fn law_sibling_mirrors_draws<T: Number, M: Elementary<T>>(
    m: M,
    setup: PathSetup<T>,
    steps: Seq<StepDraw<T>>,
    payoff: Payoff<T>,
    rate: T,
    expiry: T,
)
    ensures
        run_path_spec(m, setup, steps, true, payoff, rate, expiry) == run_path_spec(
            m,
            setup,
            mirrored(steps),
            false,
            payoff,
            rate,
            expiry,
        ),
{
    let n = steps.len() as int;
    lemma_mirrored(m, setup, steps, n);
    let (f, g) = (
        path_tops(m, setup, steps, true),
        path_tops(m, setup, mirrored(steps), false),
    );
    assert forall|k: int| 0 <= k <= n implies #[trigger] f(k) == g(k) by {
        lemma_mirrored(m, setup, steps, k);
    }
    lemma_same_breach(payoff, f, g, n);
}

/// What the payoffs pay against each other: on the average price an Asian option pays what a
/// European one pays on the last; below its barrier an option that can be knocked out pays what
/// the European one pays, and at it or beyond its rebate.
pub proof fn law_payoffs_compare<T: Number, M: Elementary<T>>(
    m: M,
    v: spec_fn(T) -> real,
    strike: T,
    barrier: T,
    rebate: T,
    opt_type: OptionType,
    terminal: T,
    sum: T,
    average: T,
    top: T,
    n: usize,
)
    requires
        exact(v),
        faithful(v),
        count_exact(m, v),
        n > 0,
        times(v(average), n as real) == v(sum),
    ensures
        ({
            let european = Payoff::European { strike, opt_type };
            let asian = Payoff::AsianArithmetic { strike, opt_type };
            let out = Payoff::UpAndOut { strike, barrier, rebate, opt_type };
            &&& asian.eval_spec(m, terminal, sum, top, n) == european.eval_spec(
                m,
                average,
                sum,
                top,
                n,
            )
            &&& v(top) < v(barrier) ==> out.eval_spec(m, terminal, sum, top, n)
                == european.eval_spec(m, terminal, sum, top, n)
            &&& v(top) >= v(barrier) ==> out.eval_spec(m, terminal, sum, top, n) == rebate
        }),
{
    let c = count_of::<T, M>(m, n);
    assert(v(c) == n as real);
    let q = sum.div_spec(c);
    lemma_times_cancel(v(q), v(average), v(c));
    assert(same_value(v, q, average));
    assert(top.is_ge(&barrier) == (v(top) >= v(barrier)));
}

/// An estimate is the mean of what its paths are worth, and its standard error is the root of
/// their variance over their number.
pub proof fn law_estimate_is_mean<T: Number, M: Elementary<T>>(
    m: M,
    v: spec_fn(T) -> real,
    t: Tally<T>,
    variance: real,
)
    requires
        exact(v),
        sqrt_exact(m, v),
        count_exact(m, v),
        t.count > 0,
        variance >= 0real,
        ({
            let mean = v(summary_spec(m, t).price);
            times(t.count as real, variance) == v(t.sum_sq) - times(
                t.count as real,
                times(mean, mean),
            )
        }),
    ensures
        times(v(summary_spec(m, t).price), t.count as real) == v(t.sum),
        times(
            times(v(summary_spec(m, t).std_error), v(summary_spec(m, t).std_error)),
            t.count as real,
        ) == variance,
{
    let c = count_of::<T, M>(m, t.count);
    let n = t.count as real;
    assert(v(c) == n);
    let mean = t.sum.div_spec(c);
    let raw = t.sum_sq.div_spec(c);
    let gap = raw.sub_spec(mean.mul_spec(mean));
    let mm = times(v(mean), v(mean));
    lemma_times_comm(n, variance);
    lemma_times_comm(n, mm);
    lemma_times_sub(n, v(raw), mm);
    lemma_times_cancel(v(gap), variance, n);
    let var = larger(gap, num::<T>(0));
    assert(v(var) == variance);
    let q = var.div_spec(c);
    lemma_times_comm(v(q), n);
    lemma_sign_of_factor(n, v(q));
}

/// The payoff of a path without a barrier, undiscounted.
proof fn lemma_discounted_path<T: Number, M: Elementary<T>>(
    m: M,
    v: spec_fn(T) -> real,
    setup: PathSetup<T>,
    steps: Seq<StepDraw<T>>,
    antithetic: bool,
    payoff: Payoff<T>,
    rate: T,
    rate2: T,
    expiry: T,
)
    requires
        exact(v),
        !(payoff is UpAndOut),
    ensures
        times(
            v(run_path_spec(m, setup, steps, antithetic, payoff, rate, expiry)),
            v(exp_of(m, rate2.neg_spec().mul_spec(expiry))),
        ) == times(
            v(run_path_spec(m, setup, steps, antithetic, payoff, rate2, expiry)),
            v(exp_of(m, rate.neg_spec().mul_spec(expiry))),
        ),
{
    let n = steps.len() as int;
    lemma_no_barrier(payoff, path_tops(m, setup, steps, antithetic), n);
    let st = path_after(m, setup, steps, antithetic, n);
    let paid = v(
        payoff.eval_spec(
            m,
            exp_of(m, st.ln_s),
            st.running_sum,
            st.running_max,
            steps.len() as usize,
        ),
    );
    let (a, b) = (
        v(exp_of(m, rate.neg_spec().mul_spec(expiry))),
        v(exp_of(m, rate2.neg_spec().mul_spec(expiry))),
    );
    lemma_times_assoc(a, paid, b);
    lemma_times_assoc(b, paid, a);
    lemma_times_comm(paid, b);
    lemma_times_comm(paid, a);
    lemma_times_assoc(a, b, paid);
    lemma_times_assoc(b, a, paid);
    lemma_times_comm(a, b);
}

/// The tallies of two chunks that differ in the discount alone.
proof fn lemma_discounted_chunk<T: Number, M: Elementary<T>, S: RandomSource<T>>(
    m: M,
    v: spec_fn(T) -> real,
    src: S,
    setup: PathSetup<T>,
    jumps: Option<JumpParams<T>>,
    payoff: Payoff<T>,
    rate: T,
    rate2: T,
    expiry: T,
    n: int,
    n_steps: int,
    antithetic: bool,
)
    requires
        exact(v),
        !(payoff is UpAndOut),
    ensures
        ({
            let x = mc_chunk_spec(
                m,
                src,
                setup,
                jumps,
                payoff,
                rate,
                expiry,
                n,
                n_steps,
                antithetic,
            );
            let y = mc_chunk_spec(
                m,
                src,
                setup,
                jumps,
                payoff,
                rate2,
                expiry,
                n,
                n_steps,
                antithetic,
            );
            &&& x.1 == y.1
            &&& x.0.count == y.0.count
            &&& times(v(x.0.sum), v(exp_of(m, rate2.neg_spec().mul_spec(expiry)))) == times(
                v(y.0.sum),
                v(exp_of(m, rate.neg_spec().mul_spec(expiry))),
            )
        }),
    decreases n,
{
    let (a, b) = (
        v(exp_of(m, rate.neg_spec().mul_spec(expiry))),
        v(exp_of(m, rate2.neg_spec().mul_spec(expiry))),
    );
    lemma_times_unit(a);
    lemma_times_unit(b);
    if n > 0 {
        lemma_discounted_chunk(
            m,
            v,
            src,
            setup,
            jumps,
            payoff,
            rate,
            rate2,
            expiry,
            n - 1,
            n_steps,
            antithetic,
        );
        let (x, s1) = mc_chunk_spec(
            m,
            src,
            setup,
            jumps,
            payoff,
            rate,
            expiry,
            n - 1,
            n_steps,
            antithetic,
        );
        let (y, _) = mc_chunk_spec(
            m,
            src,
            setup,
            jumps,
            payoff,
            rate2,
            expiry,
            n - 1,
            n_steps,
            antithetic,
        );
        let (steps, _) = draw_path_spec(m, s1, jumps, setup.dt, n_steps);
        lemma_discounted_path(m, v, setup, steps, false, payoff, rate, rate2, expiry);
        lemma_discounted_path(m, v, setup, steps, true, payoff, rate, rate2, expiry);
        let (p, q) = (
            v(run_path_spec(m, setup, steps, false, payoff, rate, expiry)),
            v(run_path_spec(m, setup, steps, true, payoff, rate, expiry)),
        );
        let (r, s) = (
            v(run_path_spec(m, setup, steps, false, payoff, rate2, expiry)),
            v(run_path_spec(m, setup, steps, true, payoff, rate2, expiry)),
        );
        lemma_times_add(b, v(x.sum), p);
        lemma_times_add(b, v(x.sum) + p, q);
        lemma_times_add(a, v(y.sum), r);
        lemma_times_add(a, v(y.sum) + r, s);
    }
}

/// The tallies of the first chunks of two simulations that differ in the discount alone.
proof fn lemma_discounted_total<
    T: Number,
    M: Elementary<T>,
    S: RandomSource<T>,
    F: Fn(u64) -> S,
>(
    m: M,
    v: spec_fn(T) -> real,
    make: F,
    setup: PathSetup<T>,
    jumps: Option<JumpParams<T>>,
    payoff: Payoff<T>,
    rate: T,
    rate2: T,
    expiry: T,
    cfg: McConfig,
    n_chunks: int,
    n: int,
)
    requires
        exact(v),
        !(payoff is UpAndOut),
    ensures
        ({
            let x = mc_total(m, make, setup, jumps, payoff, rate, expiry, cfg, n_chunks, n);
            let y = mc_total(m, make, setup, jumps, payoff, rate2, expiry, cfg, n_chunks, n);
            &&& x.count == y.count
            &&& times(v(x.sum), v(exp_of(m, rate2.neg_spec().mul_spec(expiry)))) == times(
                v(y.sum),
                v(exp_of(m, rate.neg_spec().mul_spec(expiry))),
            )
        }),
    decreases n,
{
    let (a, b) = (
        v(exp_of(m, rate.neg_spec().mul_spec(expiry))),
        v(exp_of(m, rate2.neg_spec().mul_spec(expiry))),
    );
    lemma_times_unit(a);
    lemma_times_unit(b);
    if n > 0 {
        let n_pairs = cfg.n_paths as int / paths_per_pair(cfg.antithetic);
        let size = chunk_boundary(n_pairs, n_chunks, n) - chunk_boundary(
            n_pairs,
            n_chunks,
            n - 1,
        );
        let src = made_by(make, chunk_seed_spec(cfg.seed, (n - 1) as u64));
        let k = cfg.n_steps as int;
        lemma_discounted_total(
            m,
            v,
            make,
            setup,
            jumps,
            payoff,
            rate,
            rate2,
            expiry,
            cfg,
            n_chunks,
            n - 1,
        );
        lemma_discounted_chunk(
            m,
            v,
            src,
            setup,
            jumps,
            payoff,
            rate,
            rate2,
            expiry,
            size,
            k,
            cfg.antithetic,
        );
        let x0 = mc_total(m, make, setup, jumps, payoff, rate, expiry, cfg, n_chunks, n - 1);
        let y0 = mc_total(m, make, setup, jumps, payoff, rate2, expiry, cfg, n_chunks, n - 1);
        let x1 = mc_chunk_spec(
            m,
            src,
            setup,
            jumps,
            payoff,
            rate,
            expiry,
            size,
            k,
            cfg.antithetic,
        ).0;
        let y1 = mc_chunk_spec(
            m,
            src,
            setup,
            jumps,
            payoff,
            rate2,
            expiry,
            size,
            k,
            cfg.antithetic,
        ).0;
        lemma_times_add(b, v(x0.sum), v(x1.sum));
        lemma_times_add(a, v(y0.sum), v(y1.sum));
    }
}

/// Rate and yield enter a price by their difference, which moves the paths, and by the discount at
/// the rate: where two simulations of a payoff without a barrier have the same rate less yield,
/// their prices are in the ratio of their discount factors.
pub proof fn law_simulated_price_is_discounted<
    T: Number,
    M: Elementary<T>,
    S: RandomSource<T>,
    F: Fn(u64) -> S,
>(
    m: M,
    v: spec_fn(T) -> real,
    make: F,
    spot: T,
    expiry: T,
    rate: T,
    yield_: T,
    rate2: T,
    yield2: T,
    hp: HestonParams<T>,
    jumps: Option<JumpParams<T>>,
    payoff: Payoff<T>,
    cfg: McConfig,
    n_chunks: usize,
)
    requires
        exact(v),
        faithful(v),
        count_exact(m, v),
        v(rate) - v(yield_) == v(rate2) - v(yield2),
        !(payoff is UpAndOut),
        n_chunks > 0,
        cfg.n_paths >= paths_per_pair(cfg.antithetic),
    ensures
        times(
            v(
                mc_price_spec(
                    m,
                    make,
                    spot,
                    expiry,
                    rate,
                    yield_,
                    hp,
                    jumps,
                    payoff,
                    cfg,
                    n_chunks as int,
                ).price,
            ),
            v(exp_of(m, rate2.neg_spec().mul_spec(expiry))),
        ) == times(
            v(
                mc_price_spec(
                    m,
                    make,
                    spot,
                    expiry,
                    rate2,
                    yield2,
                    hp,
                    jumps,
                    payoff,
                    cfg,
                    n_chunks as int,
                ).price,
            ),
            v(exp_of(m, rate.neg_spec().mul_spec(expiry))),
        ),
{
    let k = n_chunks as int;
    let s = path_setup_spec(
        m,
        spot,
        expiry,
        rate,
        yield_,
        hp,
        jumps,
        cfg.n_steps,
        cfg.scheme,
    );
    let s2 = path_setup_spec(
        m,
        spot,
        expiry,
        rate2,
        yield2,
        hp,
        jumps,
        cfg.n_steps,
        cfg.scheme,
    );
    assert(same_value(v, s.drift, s2.drift));
    assert(s == s2);
    lemma_discounted_total(m, v, make, s, jumps, payoff, rate, rate2, expiry, cfg, k, k);
    law_every_path_counts(m, make, s, jumps, payoff, rate, expiry, cfg, n_chunks);
    let x = mc_total(m, make, s, jumps, payoff, rate, expiry, cfg, k, k);
    let y = mc_total(m, make, s, jumps, payoff, rate2, expiry, cfg, k, k);
    let c = count_of::<T, M>(m, x.count);
    assert(v(c) > 0real);
    let (a, b) = (
        v(exp_of(m, rate.neg_spec().mul_spec(expiry))),
        v(exp_of(m, rate2.neg_spec().mul_spec(expiry))),
    );
    lemma_scaled_means(v(x.sum.div_spec(c)), v(y.sum.div_spec(c)), v(c), a, b);
}

/// Means over the same number are in the ratio of their sums.
pub proof fn lemma_scaled_means(p: real, q: real, c: real, a: real, b: real)
    requires
        c != 0real,
        times(times(p, c), b) == times(times(q, c), a),
    ensures
        times(p, b) == times(q, a),
{
    lemma_times_assoc(p, c, b);
    lemma_times_comm(c, b);
    lemma_times_assoc(p, b, c);
    lemma_times_assoc(q, c, a);
    lemma_times_comm(c, a);
    lemma_times_assoc(q, a, c);
    lemma_times_cancel(times(p, b), times(q, a), c);
}

/// The next set of draws in a chunk comes from where the draws before it end, and adds to the tally
/// what its path is worth and, where paths come in pairs, what the path through the mirrored draws
/// is worth: to the sum as it is, to the sum of the squares as a square, and to the count as one
/// each.
pub proof fn law_chunk_adds_paths_and_mirrors<T: Number, M: Elementary<T>, S: RandomSource<T>>(
    m: M,
    v: spec_fn(T) -> real,
    src: S,
    setup: PathSetup<T>,
    jumps: Option<JumpParams<T>>,
    payoff: Payoff<T>,
    rate: T,
    expiry: T,
    n: int,
    n_steps: int,
    antithetic: bool,
)
    requires
        exact(v),
        n > 0,
    ensures
        ({
            let (t, s) = mc_chunk_spec(
                m,
                src,
                setup,
                jumps,
                payoff,
                rate,
                expiry,
                n - 1,
                n_steps,
                antithetic,
            );
            let (next, rest) = mc_chunk_spec(
                m,
                src,
                setup,
                jumps,
                payoff,
                rate,
                expiry,
                n,
                n_steps,
                antithetic,
            );
            let (steps, after) = draw_path_spec(m, s, jumps, setup.dt, n_steps);
            let x = v(run_path_spec(m, setup, steps, false, payoff, rate, expiry));
            let y = v(run_path_spec(m, setup, mirrored(steps), false, payoff, rate, expiry));
            &&& rest == after
            &&& !antithetic ==> {
                &&& v(next.sum) == v(t.sum) + x
                &&& v(next.sum_sq) == v(t.sum_sq) + times(x, x)
                &&& t.count + 1 <= usize::MAX ==> next.count == t.count + 1
            }
            &&& antithetic ==> {
                &&& v(next.sum) == v(t.sum) + x + y
                &&& v(next.sum_sq) == v(t.sum_sq) + times(x, x) + times(y, y)
                &&& t.count + 2 <= usize::MAX ==> next.count == t.count + 2
            }
        }),
{
    let (_, s) = mc_chunk_spec(
        m,
        src,
        setup,
        jumps,
        payoff,
        rate,
        expiry,
        n - 1,
        n_steps,
        antithetic,
    );
    let (steps, _) = draw_path_spec(m, s, jumps, setup.dt, n_steps);
    law_sibling_mirrors_draws(m, setup, steps, payoff, rate, expiry);
}

} // verus!
