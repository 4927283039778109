//! What holds of whole simulations: where one payoff is never more than another, its
//! estimate is no more either, for the paths are the same; no estimate is negative; jumps that
//! never come change nothing.
use crate::characteristic::JumpParams;
use crate::exact::{
    count_exact, exact, exact_at_zero, faithful, lemma_literal, lemma_quotients_ordered,
    lemma_sign_of_factor, lemma_times_add, lemma_times_cancel, lemma_times_comm, lemma_times_neg,
    lemma_times_not_negative, lemma_times_sub, lemma_times_unit, positive_functions, same_value,
    sqrt_exact, times,
};
use crate::mc::{
    add_pair_spec, breach_time_spec, chunk_boundary, chunk_size, draw_path_spec, first_breach,
    law_every_path_counts, lemma_chunk_fits, mc_chunk_spec, mc_price_spec, mc_total, path_after,
    path_setup_spec, path_tops, paths_per_pair, present_value_spec, rough_path_after, rough_tops,
    run_path_spec, summary_spec, McConfig, PathSetup, Payoff, StepDraw, Tally,
};
use crate::mc_laws::{law_exercise_parity, law_knock_out_pays_no_more};
use crate::number::{count_of, exp_of, frac, larger, num, Elementary, Number};
use crate::random::{chunk_seed_spec, made_by, RandomSource};
use crate::rough::{
    add_rough_pair, draw_rbergomi_path_spec, law_every_rough_path_counts, price_shock,
    rough_chunk_spec, rough_estimate, rough_payoff, rough_total, variance_at, RoughGrid, RoughStep,
};
use crate::types::{HestonParams, OptionType};
use vstd::prelude::*;
use vstd::std_specs::ops::{AddSpec, DivSpec, MulSpec, NegSpec, SubSpec};

verus! {

/// On no path is the payoff `a` worth more than the payoff `b`: it never pays more at expiry,
/// it pays nothing before, and `b` has no barrier.
pub open spec fn pays_no_more<T: Number, M: Elementary<T>>(
    m: M,
    v: spec_fn(T) -> real,
    a: Payoff<T>,
    b: Payoff<T>,
) -> bool {
    &&& v(a.rebate_spec()) <= 0real
    &&& !(b is UpAndOut)
    &&& forall|terminal: T, running_sum: T, running_max: T, n: usize|
        v(#[trigger] a.eval_spec(m, terminal, running_sum, running_max, n)) <= v(
            b.eval_spec(m, terminal, running_sum, running_max, n),
        )
}

/// An option that is knocked out, without a rebate, pays no more than the one that is not.
proof fn lemma_knock_out<T: Number, M: Elementary<T>>(
    m: M,
    v: spec_fn(T) -> real,
    strike: T,
    barrier: T,
    rebate: T,
    opt_type: OptionType,
)
    requires
        exact(v),
        v(rebate) == 0real,
    ensures
        pays_no_more(
            m,
            v,
            Payoff::UpAndOut { strike, barrier, rebate, opt_type },
            Payoff::European { strike, opt_type },
        ),
{
    let a = Payoff::UpAndOut { strike, barrier, rebate, opt_type };
    let b = Payoff::European { strike, opt_type };
    assert forall|terminal: T, running_sum: T, running_max: T, n: usize|
        v(#[trigger] a.eval_spec(m, terminal, running_sum, running_max, n)) <= v(
            b.eval_spec(m, terminal, running_sum, running_max, n),
        ) by {
        law_knock_out_pays_no_more(
            m,
            v,
            strike,
            barrier,
            rebate,
            opt_type,
            terminal,
            running_sum,
            running_max,
            n,
        );
    }
}

/// A payoff without a barrier has no breach.
pub proof fn lemma_no_barrier<T: Number>(payoff: Payoff<T>, top: spec_fn(int) -> T, n: int)
    requires
        !(payoff is UpAndOut),
    ensures
        first_breach(payoff, top, n) is None,
    decreases n + 1,
{
    if n >= 0 {
        lemma_no_barrier(payoff, top, n - 1);
    }
}

/// What a path pays is not negative where the rebate is not, and neither is what it is worth.
proof fn lemma_value_not_negative<T: Number, M: Elementary<T>>(
    m: M,
    v: spec_fn(T) -> real,
    payoff: Payoff<T>,
    breach: Option<int>,
    terminal: T,
    running_sum: T,
    running_max: T,
    n: usize,
    dt: T,
    rate: T,
    expiry: T,
)
    requires
        exact(v),
        positive_functions(m, v),
        v(payoff.rebate_spec()) >= 0real,
    ensures
        v(payoff.eval_spec(m, terminal, running_sum, running_max, n)) >= 0real,
        v(
            present_value_spec(
                m,
                payoff,
                breach,
                terminal,
                running_sum,
                running_max,
                n,
                dt,
                rate,
                expiry,
            ),
        ) >= 0real,
{
    let paid = payoff.eval_spec(m, terminal, running_sum, running_max, n);
    match payoff {
        Payoff::European { strike, .. } => law_exercise_parity(v, terminal, strike),
        Payoff::AsianArithmetic { strike, .. } => law_exercise_parity(
            v,
            running_sum.div_spec(count_of(m, n)),
            strike,
        ),
        Payoff::UpAndOut { strike, .. } => law_exercise_parity(v, terminal, strike),
    }
    match breach {
        Some(step) => {
            let d = exp_of(m, rate.neg_spec().mul_spec(breach_time_spec(m, step, dt)));
            lemma_times_not_negative(v(d), v(payoff.rebate_spec()));
        },
        None => {
            let d = exp_of(m, rate.neg_spec().mul_spec(expiry));
            lemma_times_not_negative(v(d), v(paid));
        },
    }
}

/// What the payoff `a` is worth on a path is no more than what `b` is worth on it.
proof fn lemma_value_no_more<T: Number, M: Elementary<T>>(
    m: M,
    v: spec_fn(T) -> real,
    a: Payoff<T>,
    b: Payoff<T>,
    breach: Option<int>,
    terminal: T,
    running_sum: T,
    running_max: T,
    n: usize,
    dt: T,
    rate: T,
    expiry: T,
)
    requires
        exact(v),
        positive_functions(m, v),
        pays_no_more(m, v, a, b),
    ensures
        v(
            present_value_spec(
                m,
                a,
                breach,
                terminal,
                running_sum,
                running_max,
                n,
                dt,
                rate,
                expiry,
            ),
        ) <= v(
            present_value_spec(
                m,
                b,
                None,
                terminal,
                running_sum,
                running_max,
                n,
                dt,
                rate,
                expiry,
            ),
        ),
{
    let x = v(a.eval_spec(m, terminal, running_sum, running_max, n));
    let y = v(b.eval_spec(m, terminal, running_sum, running_max, n));
    let d = v(exp_of(m, rate.neg_spec().mul_spec(expiry)));
    lemma_value_not_negative(
        m,
        v,
        b,
        None,
        terminal,
        running_sum,
        running_max,
        n,
        dt,
        rate,
        expiry,
    );
    match breach {
        Some(step) => {
            let e = v(exp_of(m, rate.neg_spec().mul_spec(breach_time_spec(m, step, dt))));
            let r = v(a.rebate_spec());
            lemma_times_not_negative(e, -r);
            lemma_times_neg(e, r);
        },
        None => {
            lemma_times_sub(d, y, x);
            lemma_times_comm(d, y);
            lemma_times_comm(d, x);
            lemma_times_comm(d, y - x);
            lemma_times_not_negative(d, y - x);
        },
    }
}

/// On a pair of paths the tally for `a` stays no more than that for `b`.
proof fn lemma_pair_no_dearer<T: Number, M: Elementary<T>>(
    m: M,
    v: spec_fn(T) -> real,
    t: Tally<T>,
    u: Tally<T>,
    setup: PathSetup<T>,
    steps: Seq<StepDraw<T>>,
    antithetic: bool,
    a: Payoff<T>,
    b: Payoff<T>,
    rate: T,
    expiry: T,
)
    requires
        exact(v),
        positive_functions(m, v),
        pays_no_more(m, v, a, b),
        t.count == u.count,
        v(t.sum) <= v(u.sum),
    ensures
        ({
            let x = add_pair_spec(m, t, setup, steps, antithetic, a, rate, expiry);
            let y = add_pair_spec(m, u, setup, steps, antithetic, b, rate, expiry);
            x.count == y.count && v(x.sum) <= v(y.sum)
        }),
{
    assert forall|side: bool|
        v(#[trigger] run_path_spec(m, setup, steps, side, a, rate, expiry)) <= v(
            run_path_spec(m, setup, steps, side, b, rate, expiry),
        ) by {
        let st = path_after(m, setup, steps, side, steps.len() as int);
        let (s, n) = (exp_of(m, st.ln_s), steps.len() as usize);
        let tops = path_tops(m, setup, steps, side);
        lemma_no_barrier(b, tops, steps.len() as int);
        lemma_value_no_more(
            m,
            v,
            a,
            b,
            first_breach(a, tops, steps.len() as int),
            s,
            st.running_sum,
            st.running_max,
            n,
            setup.dt,
            rate,
            expiry,
        );
    }
    assert(v(run_path_spec(m, setup, steps, false, a, rate, expiry)) <= v(
        run_path_spec(m, setup, steps, false, b, rate, expiry),
    ));
    assert(v(run_path_spec(m, setup, steps, true, a, rate, expiry)) <= v(
        run_path_spec(m, setup, steps, true, b, rate, expiry),
    ));
}

/// A chunk draws the same for both payoffs, and its tally for `a` is no more than that for
/// `b`.
proof fn lemma_chunk_no_dearer<T: Number, M: Elementary<T>, S: RandomSource<T>>(
    m: M,
    v: spec_fn(T) -> real,
    src: S,
    setup: PathSetup<T>,
    jumps: Option<JumpParams<T>>,
    a: Payoff<T>,
    b: Payoff<T>,
    rate: T,
    expiry: T,
    n: int,
    n_steps: int,
    antithetic: bool,
)
    requires
        exact(v),
        positive_functions(m, v),
        pays_no_more(m, v, a, b),
    ensures
        ({
            let x = mc_chunk_spec(m, src, setup, jumps, a, rate, expiry, n, n_steps, antithetic);
            let y = mc_chunk_spec(m, src, setup, jumps, b, rate, expiry, n, n_steps, antithetic);
            x.1 == y.1 && x.0.count == y.0.count && v(x.0.sum) <= v(y.0.sum)
        }),
    decreases n,
{
    if n > 0 {
        lemma_chunk_no_dearer(
            m,
            v,
            src,
            setup,
            jumps,
            a,
            b,
            rate,
            expiry,
            n - 1,
            n_steps,
            antithetic,
        );
        let (t, s1) = mc_chunk_spec(
            m,
            src,
            setup,
            jumps,
            a,
            rate,
            expiry,
            n - 1,
            n_steps,
            antithetic,
        );
        let (u, _) = mc_chunk_spec(
            m,
            src,
            setup,
            jumps,
            b,
            rate,
            expiry,
            n - 1,
            n_steps,
            antithetic,
        );
        let (steps, _) = draw_path_spec(m, s1, jumps, setup.dt, n_steps);
        lemma_pair_no_dearer(m, v, t, u, setup, steps, antithetic, a, b, rate, expiry);
    }
}

/// The tally of the first chunks for `a` is no more than that for `b`.
proof fn lemma_total_no_dearer<T: Number, M: Elementary<T>, S: RandomSource<T>, F: Fn(u64) -> S>(
    m: M,
    v: spec_fn(T) -> real,
    make: F,
    setup: PathSetup<T>,
    jumps: Option<JumpParams<T>>,
    a: Payoff<T>,
    b: Payoff<T>,
    rate: T,
    expiry: T,
    cfg: McConfig,
    n_chunks: int,
    n: int,
)
    requires
        exact(v),
        positive_functions(m, v),
        pays_no_more(m, v, a, b),
    ensures
        ({
            let x = mc_total(m, make, setup, jumps, a, rate, expiry, cfg, n_chunks, n);
            let y = mc_total(m, make, setup, jumps, b, rate, expiry, cfg, n_chunks, n);
            x.count == y.count && v(x.sum) <= v(y.sum)
        }),
    decreases n,
{
    if n > 0 {
        let n_pairs = cfg.n_paths as int / paths_per_pair(cfg.antithetic);
        lemma_total_no_dearer(
            m,
            v,
            make,
            setup,
            jumps,
            a,
            b,
            rate,
            expiry,
            cfg,
            n_chunks,
            n - 1,
        );
        lemma_chunk_no_dearer(
            m,
            v,
            made_by(make, chunk_seed_spec(cfg.seed, (n - 1) as u64)),
            setup,
            jumps,
            a,
            b,
            rate,
            expiry,
            chunk_boundary(n_pairs, n_chunks, n) - chunk_boundary(n_pairs, n_chunks, n - 1),
            cfg.n_steps as int,
            cfg.antithetic,
        );
    }
}

/// A payoff that on no path is worth more than another costs no more in a simulation with the
/// same seed.
pub proof fn law_dominated_payoff_costs_no_more<
    T: Number,
    M: Elementary<T>,
    S: RandomSource<T>,
    F: Fn(u64) -> S,
>(
    m: M,
    v: spec_fn(T) -> real,
    make: F,
    spot: T,
    expiry: T,
    rate: T,
    div_yield: T,
    hp: HestonParams<T>,
    jumps: Option<JumpParams<T>>,
    a: Payoff<T>,
    b: Payoff<T>,
    cfg: McConfig,
    n_chunks: usize,
)
    requires
        exact(v),
        positive_functions(m, v),
        count_exact(m, v),
        pays_no_more(m, v, a, b),
        n_chunks > 0,
        cfg.n_paths >= paths_per_pair(cfg.antithetic),
    ensures
        v(
            mc_price_spec(
                m,
                make,
                spot,
                expiry,
                rate,
                div_yield,
                hp,
                jumps,
                a,
                cfg,
                n_chunks as int,
            ).price,
        ) <= v(
            mc_price_spec(
                m,
                make,
                spot,
                expiry,
                rate,
                div_yield,
                hp,
                jumps,
                b,
                cfg,
                n_chunks as int,
            ).price,
        ),
{
    let k = n_chunks as int;
    let setup = path_setup_spec(
        m,
        spot,
        expiry,
        rate,
        div_yield,
        hp,
        jumps,
        cfg.n_steps,
        cfg.scheme,
    );
    lemma_total_no_dearer(m, v, make, setup, jumps, a, b, rate, expiry, cfg, k, k);
    law_every_path_counts(m, make, setup, jumps, a, rate, expiry, cfg, n_chunks);
    let x = mc_total(m, make, setup, jumps, a, rate, expiry, cfg, k, k);
    let y = mc_total(m, make, setup, jumps, b, rate, expiry, cfg, k, k);
    let c = count_of::<T, M>(m, x.count);
    assert(v(c) > 0real);
    lemma_quotients_ordered(v, x.sum, y.sum, c);
}

/// Without a rebate, an option that is knocked out costs no more than the one that is not, in a
/// simulation with the same seed.
pub proof fn law_knock_out_costs_no_more<
    T: Number,
    M: Elementary<T>,
    S: RandomSource<T>,
    F: Fn(u64) -> S,
>(
    m: M,
    v: spec_fn(T) -> real,
    make: F,
    spot: T,
    expiry: T,
    rate: T,
    div_yield: T,
    hp: HestonParams<T>,
    jumps: Option<JumpParams<T>>,
    strike: T,
    barrier: T,
    rebate: T,
    opt_type: OptionType,
    cfg: McConfig,
    n_chunks: usize,
)
    requires
        exact(v),
        positive_functions(m, v),
        count_exact(m, v),
        v(rebate) == 0real,
        n_chunks > 0,
        cfg.n_paths >= paths_per_pair(cfg.antithetic),
    ensures
        v(
            mc_price_spec(
                m,
                make,
                spot,
                expiry,
                rate,
                div_yield,
                hp,
                jumps,
                Payoff::UpAndOut { strike, barrier, rebate, opt_type },
                cfg,
                n_chunks as int,
            ).price,
        ) <= v(
            mc_price_spec(
                m,
                make,
                spot,
                expiry,
                rate,
                div_yield,
                hp,
                jumps,
                Payoff::European { strike, opt_type },
                cfg,
                n_chunks as int,
            ).price,
        ),
{
    lemma_knock_out(m, v, strike, barrier, rebate, opt_type);
    law_dominated_payoff_costs_no_more(
        m,
        v,
        make,
        spot,
        expiry,
        rate,
        div_yield,
        hp,
        jumps,
        Payoff::UpAndOut { strike, barrier, rebate, opt_type },
        Payoff::European { strike, opt_type },
        cfg,
        n_chunks,
    );
}

/// On a pair of rough paths the tally for `a` stays no more than that for `b`.
proof fn lemma_rough_pair_no_dearer<T: Number, M: Elementary<T>>(
    m: M,
    v: spec_fn(T) -> real,
    t: Tally<T>,
    u: Tally<T>,
    setup: RoughGrid<T>,
    spot: T,
    drift0: T,
    steps: Seq<RoughStep<T>>,
    antithetic: bool,
    a: Payoff<T>,
    b: Payoff<T>,
    rate: T,
    expiry: T,
)
    requires
        exact(v),
        positive_functions(m, v),
        pays_no_more(m, v, a, b),
        t.count == u.count,
        v(t.sum) <= v(u.sum),
    ensures
        ({
            let x = add_rough_pair(
                m,
                t,
                setup,
                spot,
                drift0,
                steps,
                antithetic,
                a,
                rate,
                expiry,
            );
            let y = add_rough_pair(
                m,
                u,
                setup,
                spot,
                drift0,
                steps,
                antithetic,
                b,
                rate,
                expiry,
            );
            x.count == y.count && v(x.sum) <= v(y.sum)
        }),
{
    assert forall|side: bool|
        v(#[trigger] rough_payoff(m, setup, spot, drift0, steps, side, a, rate, expiry)) <= v(
            rough_payoff(m, setup, spot, drift0, steps, side, b, rate, expiry),
        ) by {
        let variances = Seq::new(steps.len(), |i: int| variance_at(m, setup, steps, side, i));
        let dz = Seq::new(steps.len(), |i: int| price_shock(m, setup, steps, side, i));
        let (ln_s, total, top) = rough_path_after(
            m,
            spot,
            drift0,
            variances,
            dz,
            setup.dt,
            steps.len() as int,
        );
        let (s, n) = (exp_of(m, ln_s), steps.len() as usize);
        let tops = rough_tops(m, spot, drift0, variances, dz, setup.dt);
        lemma_no_barrier(b, tops, steps.len() as int);
        lemma_value_no_more(
            m,
            v,
            a,
            b,
            first_breach(a, tops, steps.len() as int),
            s,
            total,
            top,
            n,
            setup.dt,
            rate,
            expiry,
        );
    }
    assert(v(rough_payoff(m, setup, spot, drift0, steps, false, a, rate, expiry)) <= v(
        rough_payoff(m, setup, spot, drift0, steps, false, b, rate, expiry),
    ));
    assert(v(rough_payoff(m, setup, spot, drift0, steps, true, a, rate, expiry)) <= v(
        rough_payoff(m, setup, spot, drift0, steps, true, b, rate, expiry),
    ));
}

/// A chunk draws the same for both payoffs, and its tally for `a` is no more than that for
/// `b`.
proof fn lemma_rough_chunk_no_dearer<T: Number, M: Elementary<T>, S: RandomSource<T>>(
    m: M,
    v: spec_fn(T) -> real,
    src: S,
    setup: RoughGrid<T>,
    spot: T,
    drift0: T,
    a: Payoff<T>,
    b: Payoff<T>,
    rate: T,
    expiry: T,
    n: int,
    n_steps: int,
    antithetic: bool,
)
    requires
        exact(v),
        positive_functions(m, v),
        pays_no_more(m, v, a, b),
    ensures
        ({
            let x = rough_chunk_spec(
                m,
                src,
                setup,
                spot,
                drift0,
                a,
                rate,
                expiry,
                n,
                n_steps,
                antithetic,
            );
            let y = rough_chunk_spec(
                m,
                src,
                setup,
                spot,
                drift0,
                b,
                rate,
                expiry,
                n,
                n_steps,
                antithetic,
            );
            x.1 == y.1 && x.0.count == y.0.count && v(x.0.sum) <= v(y.0.sum)
        }),
    decreases n,
{
    if n > 0 {
        lemma_rough_chunk_no_dearer(
            m,
            v,
            src,
            setup,
            spot,
            drift0,
            a,
            b,
            rate,
            expiry,
            n - 1,
            n_steps,
            antithetic,
        );
        let (t, s1) = rough_chunk_spec(
            m,
            src,
            setup,
            spot,
            drift0,
            a,
            rate,
            expiry,
            n - 1,
            n_steps,
            antithetic,
        );
        let (u, _) = rough_chunk_spec(
            m,
            src,
            setup,
            spot,
            drift0,
            b,
            rate,
            expiry,
            n - 1,
            n_steps,
            antithetic,
        );
        let (steps, _) = draw_rbergomi_path_spec(m, s1, n_steps);
        lemma_rough_pair_no_dearer(
            m,
            v,
            t,
            u,
            setup,
            spot,
            drift0,
            steps,
            antithetic,
            a,
            b,
            rate,
            expiry,
        );
    }
}

/// The tally of the first chunks for `a` is no more than that for `b`.
proof fn lemma_rough_total_no_dearer<
    T: Number,
    M: Elementary<T>,
    S: RandomSource<T>,
    F: Fn(u64) -> S,
>(
    m: M,
    v: spec_fn(T) -> real,
    make: F,
    setup: RoughGrid<T>,
    spot: T,
    drift0: T,
    a: Payoff<T>,
    b: Payoff<T>,
    rate: T,
    expiry: T,
    cfg: McConfig,
    n_chunks: int,
    n: int,
)
    requires
        exact(v),
        positive_functions(m, v),
        pays_no_more(m, v, a, b),
    ensures
        ({
            let x = rough_total(
                m,
                make,
                setup,
                spot,
                drift0,
                a,
                rate,
                expiry,
                cfg,
                n_chunks,
                n,
            );
            let y = rough_total(
                m,
                make,
                setup,
                spot,
                drift0,
                b,
                rate,
                expiry,
                cfg,
                n_chunks,
                n,
            );
            x.count == y.count && v(x.sum) <= v(y.sum)
        }),
    decreases n,
{
    if n > 0 {
        let n_pairs = cfg.n_paths as int / paths_per_pair(cfg.antithetic);
        lemma_rough_total_no_dearer(
            m,
            v,
            make,
            setup,
            spot,
            drift0,
            a,
            b,
            rate,
            expiry,
            cfg,
            n_chunks,
            n - 1,
        );
        lemma_rough_chunk_no_dearer(
            m,
            v,
            made_by(make, chunk_seed_spec(cfg.seed, (n - 1) as u64)),
            setup,
            spot,
            drift0,
            a,
            b,
            rate,
            expiry,
            chunk_boundary(n_pairs, n_chunks, n) - chunk_boundary(n_pairs, n_chunks, n - 1),
            cfg.n_steps as int,
            cfg.antithetic,
        );
    }
}

/// In the rough model too, a payoff that on no path is worth more than another costs no more in
/// a simulation with the same seed.
pub proof fn law_dominated_payoff_costs_no_more_rough<
    T: Number,
    M: Elementary<T>,
    S: RandomSource<T>,
    F: Fn(u64) -> S,
>(
    m: M,
    v: spec_fn(T) -> real,
    make: F,
    setup: RoughGrid<T>,
    spot: T,
    drift0: T,
    a: Payoff<T>,
    b: Payoff<T>,
    rate: T,
    expiry: T,
    cfg: McConfig,
    n_chunks: usize,
)
    requires
        exact(v),
        positive_functions(m, v),
        count_exact(m, v),
        pays_no_more(m, v, a, b),
        n_chunks > 0,
        cfg.n_paths >= paths_per_pair(cfg.antithetic),
    ensures
        ({
            let k = n_chunks as int;
            v(rough_estimate(m, make, setup, spot, drift0, a, rate, expiry, cfg, k).price) <= v(
                rough_estimate(m, make, setup, spot, drift0, b, rate, expiry, cfg, k).price,
            )
        }),
{
    let k = n_chunks as int;
    lemma_rough_total_no_dearer(
        m,
        v,
        make,
        setup,
        spot,
        drift0,
        a,
        b,
        rate,
        expiry,
        cfg,
        k,
        k,
    );
    law_every_rough_path_counts(
        m,
        make,
        setup,
        spot,
        drift0,
        a,
        rate,
        expiry,
        cfg,
        n_chunks,
    );
    let x = rough_total(m, make, setup, spot, drift0, a, rate, expiry, cfg, k, k);
    let y = rough_total(m, make, setup, spot, drift0, b, rate, expiry, cfg, k, k);
    let c = count_of::<T, M>(m, x.count);
    assert(v(c) > 0real);
    lemma_quotients_ordered(v, x.sum, y.sum, c);
}

/// In the rough model too, without a rebate, an option that is knocked out costs no more than
/// the one that is not, in a simulation with the same seed.
pub proof fn law_knock_out_costs_no_more_rough<
    T: Number,
    M: Elementary<T>,
    S: RandomSource<T>,
    F: Fn(u64) -> S,
>(
    m: M,
    v: spec_fn(T) -> real,
    make: F,
    setup: RoughGrid<T>,
    spot: T,
    drift0: T,
    strike: T,
    barrier: T,
    rebate: T,
    opt_type: OptionType,
    rate: T,
    expiry: T,
    cfg: McConfig,
    n_chunks: usize,
)
    requires
        exact(v),
        positive_functions(m, v),
        count_exact(m, v),
        v(rebate) == 0real,
        n_chunks > 0,
        cfg.n_paths >= paths_per_pair(cfg.antithetic),
    ensures
        ({
            let a = Payoff::UpAndOut { strike, barrier, rebate, opt_type };
            let b = Payoff::European { strike, opt_type };
            let k = n_chunks as int;
            v(rough_estimate(m, make, setup, spot, drift0, a, rate, expiry, cfg, k).price) <= v(
                rough_estimate(m, make, setup, spot, drift0, b, rate, expiry, cfg, k).price,
            )
        }),
{
    lemma_knock_out(m, v, strike, barrier, rebate, opt_type);
    law_dominated_payoff_costs_no_more_rough(
        m,
        v,
        make,
        setup,
        spot,
        drift0,
        Payoff::UpAndOut { strike, barrier, rebate, opt_type },
        Payoff::European { strike, opt_type },
        rate,
        expiry,
        cfg,
        n_chunks,
    );
}

/// The standard error of an estimate is not negative.
pub proof fn law_standard_error_not_negative<T: Number, M: Elementary<T>>(
    m: M,
    v: spec_fn(T) -> real,
    t: Tally<T>,
)
    requires
        exact(v),
        sqrt_exact(m, v),
        count_exact(m, v),
        t.count > 0,
    ensures
        v(summary_spec(m, t).std_error) >= 0real,
{
    let zero = num::<T>(0);
    let n = count_of::<T, M>(m, t.count);
    let mean = t.sum.div_spec(n);
    let var = larger(t.sum_sq.div_spec(n).sub_spec(mean.mul_spec(mean)), zero);
    let q = v(var.div_spec(n));
    assert(v(n) > 0real);
    assert(v(var) >= 0real);
    lemma_times_comm(q, v(n));
    lemma_sign_of_factor(v(n), q);
}

/// The tally of a chunk is not negative.
proof fn lemma_chunk_not_negative<T: Number, M: Elementary<T>, S: RandomSource<T>>(
    m: M,
    v: spec_fn(T) -> real,
    src: S,
    setup: PathSetup<T>,
    jumps: Option<JumpParams<T>>,
    payoff: Payoff<T>,
    rate: T,
    expiry: T,
    n: int,
    n_steps: int,
    antithetic: bool,
)
    requires
        exact(v),
        positive_functions(m, v),
        v(payoff.rebate_spec()) >= 0real,
    ensures
        v(
            mc_chunk_spec(
                m,
                src,
                setup,
                jumps,
                payoff,
                rate,
                expiry,
                n,
                n_steps,
                antithetic,
            ).0.sum,
        ) >= 0real,
    decreases n,
{
    if n > 0 {
        lemma_chunk_not_negative(
            m,
            v,
            src,
            setup,
            jumps,
            payoff,
            rate,
            expiry,
            n - 1,
            n_steps,
            antithetic,
        );
        let (_, s1) = mc_chunk_spec(
            m,
            src,
            setup,
            jumps,
            payoff,
            rate,
            expiry,
            n - 1,
            n_steps,
            antithetic,
        );
        let (steps, _) = draw_path_spec(m, s1, jumps, setup.dt, n_steps);
        assert forall|side: bool|
            v(#[trigger] run_path_spec(m, setup, steps, side, payoff, rate, expiry)) >= 0real by {
            let st = path_after(m, setup, steps, side, steps.len() as int);
            lemma_value_not_negative(
                m,
                v,
                payoff,
                first_breach(payoff, path_tops(m, setup, steps, side), steps.len() as int),
                exp_of(m, st.ln_s),
                st.running_sum,
                st.running_max,
                steps.len() as usize,
                setup.dt,
                rate,
                expiry,
            );
        }
        assert(v(run_path_spec(m, setup, steps, false, payoff, rate, expiry)) >= 0real);
        assert(v(run_path_spec(m, setup, steps, true, payoff, rate, expiry)) >= 0real);
    }
}

/// The tally of the first chunks is not negative.
proof fn lemma_total_not_negative<
    T: Number,
    M: Elementary<T>,
    S: RandomSource<T>,
    F: Fn(u64) -> S,
>(
    m: M,
    v: spec_fn(T) -> real,
    make: F,
    setup: PathSetup<T>,
    jumps: Option<JumpParams<T>>,
    payoff: Payoff<T>,
    rate: T,
    expiry: T,
    cfg: McConfig,
    n_chunks: int,
    n: int,
)
    requires
        exact(v),
        positive_functions(m, v),
        v(payoff.rebate_spec()) >= 0real,
    ensures
        v(mc_total(m, make, setup, jumps, payoff, rate, expiry, cfg, n_chunks, n).sum) >= 0real,
    decreases n,
{
    if n > 0 {
        let n_pairs = cfg.n_paths as int / paths_per_pair(cfg.antithetic);
        lemma_total_not_negative(
            m,
            v,
            make,
            setup,
            jumps,
            payoff,
            rate,
            expiry,
            cfg,
            n_chunks,
            n - 1,
        );
        lemma_chunk_not_negative(
            m,
            v,
            made_by(make, chunk_seed_spec(cfg.seed, (n - 1) as u64)),
            setup,
            jumps,
            payoff,
            rate,
            expiry,
            chunk_boundary(n_pairs, n_chunks, n) - chunk_boundary(n_pairs, n_chunks, n - 1),
            cfg.n_steps as int,
            cfg.antithetic,
        );
    }
}

/// No estimate is negative, nor its standard error, where the rebate is not: in particular that
/// of a knock-out without one.
pub proof fn law_estimate_not_negative<
    T: Number,
    M: Elementary<T>,
    S: RandomSource<T>,
    F: Fn(u64) -> S,
>(
    m: M,
    v: spec_fn(T) -> real,
    make: F,
    spot: T,
    expiry: T,
    rate: T,
    div_yield: T,
    hp: HestonParams<T>,
    jumps: Option<JumpParams<T>>,
    payoff: Payoff<T>,
    cfg: McConfig,
    n_chunks: usize,
)
    requires
        exact(v),
        sqrt_exact(m, v),
        positive_functions(m, v),
        count_exact(m, v),
        v(payoff.rebate_spec()) >= 0real,
        n_chunks > 0,
        cfg.n_paths >= paths_per_pair(cfg.antithetic),
    ensures
        ({
            let r = mc_price_spec(
                m,
                make,
                spot,
                expiry,
                rate,
                div_yield,
                hp,
                jumps,
                payoff,
                cfg,
                n_chunks as int,
            );
            v(r.price) >= 0real && v(r.std_error) >= 0real
        }),
{
    let k = n_chunks as int;
    let setup = path_setup_spec(
        m,
        spot,
        expiry,
        rate,
        div_yield,
        hp,
        jumps,
        cfg.n_steps,
        cfg.scheme,
    );
    lemma_total_not_negative(m, v, make, setup, jumps, payoff, rate, expiry, cfg, k, k);
    law_every_path_counts(m, make, setup, jumps, payoff, rate, expiry, cfg, n_chunks);
    lemma_mean_not_negative(
        m,
        v,
        mc_total(m, make, setup, jumps, payoff, rate, expiry, cfg, k, k),
    );
}

/// The mean of a tally that is not negative is not negative, nor is its standard error.
proof fn lemma_mean_not_negative<T: Number, M: Elementary<T>>(
    m: M,
    v: spec_fn(T) -> real,
    t: Tally<T>,
)
    requires
        exact(v),
        sqrt_exact(m, v),
        count_exact(m, v),
        t.count > 0,
        v(t.sum) >= 0real,
    ensures
        v(summary_spec(m, t).price) >= 0real,
        v(summary_spec(m, t).std_error) >= 0real,
{
    let n = count_of::<T, M>(m, t.count);
    let q = v(t.sum.div_spec(n));
    assert(v(n) > 0real);
    lemma_times_comm(q, v(n));
    lemma_sign_of_factor(v(n), q);
    law_standard_error_not_negative(m, v, t);
}

/// The tally of a chunk of rough paths is not negative.
proof fn lemma_rough_chunk_not_negative<T: Number, M: Elementary<T>, S: RandomSource<T>>(
    m: M,
    v: spec_fn(T) -> real,
    src: S,
    setup: RoughGrid<T>,
    spot: T,
    drift0: T,
    payoff: Payoff<T>,
    rate: T,
    expiry: T,
    n: int,
    n_steps: int,
    antithetic: bool,
)
    requires
        exact(v),
        positive_functions(m, v),
        v(payoff.rebate_spec()) >= 0real,
    ensures
        v(
            rough_chunk_spec(
                m,
                src,
                setup,
                spot,
                drift0,
                payoff,
                rate,
                expiry,
                n,
                n_steps,
                antithetic,
            ).0.sum,
        ) >= 0real,
    decreases n,
{
    if n > 0 {
        lemma_rough_chunk_not_negative(
            m,
            v,
            src,
            setup,
            spot,
            drift0,
            payoff,
            rate,
            expiry,
            n - 1,
            n_steps,
            antithetic,
        );
        let (_, s1) = rough_chunk_spec(
            m,
            src,
            setup,
            spot,
            drift0,
            payoff,
            rate,
            expiry,
            n - 1,
            n_steps,
            antithetic,
        );
        let (steps, _) = draw_rbergomi_path_spec(m, s1, n_steps);
        assert forall|side: bool|
            v(#[trigger] rough_payoff(m, setup, spot, drift0, steps, side, payoff, rate, expiry))
                >= 0real by {
            let variances = Seq::new(steps.len(), |i: int| variance_at(m, setup, steps, side, i));
            let dz = Seq::new(steps.len(), |i: int| price_shock(m, setup, steps, side, i));
            let k = steps.len() as int;
            let (ln_s, total, top) = rough_path_after(
                m,
                spot,
                drift0,
                variances,
                dz,
                setup.dt,
                k,
            );
            lemma_value_not_negative(
                m,
                v,
                payoff,
                first_breach(payoff, rough_tops(m, spot, drift0, variances, dz, setup.dt), k),
                exp_of(m, ln_s),
                total,
                top,
                steps.len() as usize,
                setup.dt,
                rate,
                expiry,
            );
        }
        assert(v(rough_payoff(m, setup, spot, drift0, steps, false, payoff, rate, expiry))
            >= 0real);
        assert(v(rough_payoff(m, setup, spot, drift0, steps, true, payoff, rate, expiry))
            >= 0real);
    }
}

/// The tally of the first chunks of rough paths is not negative.
proof fn lemma_rough_total_not_negative<
    T: Number,
    M: Elementary<T>,
    S: RandomSource<T>,
    F: Fn(u64) -> S,
>(
    m: M,
    v: spec_fn(T) -> real,
    make: F,
    setup: RoughGrid<T>,
    spot: T,
    drift0: T,
    payoff: Payoff<T>,
    rate: T,
    expiry: T,
    cfg: McConfig,
    n_chunks: int,
    n: int,
)
    requires
        exact(v),
        positive_functions(m, v),
        v(payoff.rebate_spec()) >= 0real,
    ensures
        v(
            rough_total(
                m,
                make,
                setup,
                spot,
                drift0,
                payoff,
                rate,
                expiry,
                cfg,
                n_chunks,
                n,
            ).sum,
        ) >= 0real,
    decreases n,
{
    if n > 0 {
        let n_pairs = cfg.n_paths as int / paths_per_pair(cfg.antithetic);
        lemma_rough_total_not_negative(
            m,
            v,
            make,
            setup,
            spot,
            drift0,
            payoff,
            rate,
            expiry,
            cfg,
            n_chunks,
            n - 1,
        );
        lemma_rough_chunk_not_negative(
            m,
            v,
            made_by(make, chunk_seed_spec(cfg.seed, (n - 1) as u64)),
            setup,
            spot,
            drift0,
            payoff,
            rate,
            expiry,
            chunk_boundary(n_pairs, n_chunks, n) - chunk_boundary(n_pairs, n_chunks, n - 1),
            cfg.n_steps as int,
            cfg.antithetic,
        );
    }
}

/// In the rough model too, no estimate is negative, nor its standard error, where the rebate is
/// not.
pub proof fn law_estimate_not_negative_rough<
    T: Number,
    M: Elementary<T>,
    S: RandomSource<T>,
    F: Fn(u64) -> S,
>(
    m: M,
    v: spec_fn(T) -> real,
    make: F,
    setup: RoughGrid<T>,
    spot: T,
    drift0: T,
    payoff: Payoff<T>,
    rate: T,
    expiry: T,
    cfg: McConfig,
    n_chunks: usize,
)
    requires
        exact(v),
        sqrt_exact(m, v),
        positive_functions(m, v),
        count_exact(m, v),
        v(payoff.rebate_spec()) >= 0real,
        n_chunks > 0,
        cfg.n_paths >= paths_per_pair(cfg.antithetic),
    ensures
        ({
            let k = n_chunks as int;
            let r = rough_estimate(m, make, setup, spot, drift0, payoff, rate, expiry, cfg, k);
            v(r.price) >= 0real && v(r.std_error) >= 0real
        }),
{
    let k = n_chunks as int;
    lemma_rough_total_not_negative(
        m,
        v,
        make,
        setup,
        spot,
        drift0,
        payoff,
        rate,
        expiry,
        cfg,
        k,
        k,
    );
    law_every_rough_path_counts(
        m,
        make,
        setup,
        spot,
        drift0,
        payoff,
        rate,
        expiry,
        cfg,
        n_chunks,
    );
    lemma_mean_not_negative(
        m,
        v,
        rough_total(m, make, setup, spot, drift0, payoff, rate, expiry, cfg, k, k),
    );
}

/// A path without jumps takes the same draws as one whose jumps never come.
proof fn lemma_same_draws<T: Number, M: Elementary<T>, S: RandomSource<T>>(
    m: M,
    v: spec_fn(T) -> real,
    src: S,
    j: JumpParams<T>,
    dt: T,
    n: int,
)
    requires
        exact(v),
        v(j.lambda) == 0real,
    ensures
        draw_path_spec(m, src, Some(j), dt, n) == draw_path_spec(m, src, None, dt, n),
    decreases n,
{
    if n > 0 {
        lemma_same_draws(m, v, src, j, dt, n - 1);
        lemma_times_unit(v(dt));
    }
}

/// A chunk without jumps has the tally of one whose jumps never come.
proof fn lemma_same_chunk<T: Number, M: Elementary<T>, S: RandomSource<T>>(
    m: M,
    v: spec_fn(T) -> real,
    src: S,
    setup: PathSetup<T>,
    j: JumpParams<T>,
    payoff: Payoff<T>,
    rate: T,
    expiry: T,
    n: int,
    n_steps: int,
    antithetic: bool,
)
    requires
        exact(v),
        v(j.lambda) == 0real,
    ensures
        mc_chunk_spec(m, src, setup, Some(j), payoff, rate, expiry, n, n_steps, antithetic)
            == mc_chunk_spec(m, src, setup, None, payoff, rate, expiry, n, n_steps, antithetic),
    decreases n,
{
    if n > 0 {
        lemma_same_chunk(
            m,
            v,
            src,
            setup,
            j,
            payoff,
            rate,
            expiry,
            n - 1,
            n_steps,
            antithetic,
        );
        let (_, s1) = mc_chunk_spec(
            m,
            src,
            setup,
            None,
            payoff,
            rate,
            expiry,
            n - 1,
            n_steps,
            antithetic,
        );
        lemma_same_draws(m, v, s1, j, setup.dt, n_steps);
    }
}

/// The first chunks without jumps have the tally of those whose jumps never come.
proof fn lemma_same_total<T: Number, M: Elementary<T>, S: RandomSource<T>, F: Fn(u64) -> S>(
    m: M,
    v: spec_fn(T) -> real,
    make: F,
    setup: PathSetup<T>,
    j: JumpParams<T>,
    payoff: Payoff<T>,
    rate: T,
    expiry: T,
    cfg: McConfig,
    n_chunks: int,
    n: int,
)
    requires
        exact(v),
        v(j.lambda) == 0real,
    ensures
        mc_total(m, make, setup, Some(j), payoff, rate, expiry, cfg, n_chunks, n) == mc_total(
            m,
            make,
            setup,
            None,
            payoff,
            rate,
            expiry,
            cfg,
            n_chunks,
            n,
        ),
    decreases n,
{
    if n > 0 {
        let n_pairs = cfg.n_paths as int / paths_per_pair(cfg.antithetic);
        lemma_same_total(
            m,
            v,
            make,
            setup,
            j,
            payoff,
            rate,
            expiry,
            cfg,
            n_chunks,
            n - 1,
        );
        lemma_same_chunk(
            m,
            v,
            made_by(make, chunk_seed_spec(cfg.seed, (n - 1) as u64)),
            setup,
            j,
            payoff,
            rate,
            expiry,
            chunk_boundary(n_pairs, n_chunks, n) - chunk_boundary(n_pairs, n_chunks, n - 1),
            cfg.n_steps as int,
            cfg.antithetic,
        );
    }
}

/// Jumps of intensity zero change nothing: the simulation is the one without jumps, draw by
/// draw.
pub proof fn law_simulation_without_jumps<
    T: Number,
    M: Elementary<T>,
    S: RandomSource<T>,
    F: Fn(u64) -> S,
>(
    m: M,
    v: spec_fn(T) -> real,
    make: F,
    spot: T,
    expiry: T,
    rate: T,
    div_yield: T,
    hp: HestonParams<T>,
    j: JumpParams<T>,
    payoff: Payoff<T>,
    cfg: McConfig,
    n_chunks: int,
)
    requires
        exact(v),
        faithful(v),
        v(j.lambda) == 0real,
    ensures
        mc_price_spec(
            m,
            make,
            spot,
            expiry,
            rate,
            div_yield,
            hp,
            Some(j),
            payoff,
            cfg,
            n_chunks,
        ) == mc_price_spec(
            m,
            make,
            spot,
            expiry,
            rate,
            div_yield,
            hp,
            None,
            payoff,
            cfg,
            n_chunks,
        ),
{
    let with = path_setup_spec(
        m,
        spot,
        expiry,
        rate,
        div_yield,
        hp,
        Some(j),
        cfg.n_steps,
        cfg.scheme,
    );
    let none = path_setup_spec(
        m,
        spot,
        expiry,
        rate,
        div_yield,
        hp,
        None,
        cfg.n_steps,
        cfg.scheme,
    );
    let mean = exp_of(
        m,
        j.mu_j.add_spec(frac::<T>(1, 2).mul_spec(j.sigma_j).mul_spec(j.sigma_j)),
    ).sub_spec(num::<T>(1));
    lemma_times_unit(v(mean));
    assert(same_value(v, with.drift, none.drift));
    assert(with == none);
    lemma_same_total(m, v, make, none, j, payoff, rate, expiry, cfg, n_chunks, n_chunks);
}

/// A path that begins at the barrier or beyond has its breach there.
proof fn lemma_breach_at_start<T: Number>(payoff: Payoff<T>, top: spec_fn(int) -> T, n: int)
    requires
        payoff.is_breached_spec(top(0)),
        n >= 0,
    ensures
        first_breach(payoff, top, n) == Some(0int),
    decreases n,
{
    if n > 0 {
        lemma_breach_at_start(payoff, top, n - 1);
    } else {
        assert(first_breach(payoff, top, -1) is None);
    }
}

/// The rebate is paid at once: a path that begins at the barrier or beyond is worth the rebate,
/// whatever the rate.
pub proof fn law_rebate_paid_at_start<T: Number, M: Elementary<T>>(
    m: M,
    v: spec_fn(T) -> real,
    setup: PathSetup<T>,
    steps: Seq<StepDraw<T>>,
    antithetic: bool,
    payoff: Payoff<T>,
    rate: T,
    expiry: T,
)
    requires
        exact(v),
        faithful(v),
        exact_at_zero(m, v),
        payoff.is_breached_spec(setup.spot),
    ensures
        v(run_path_spec(m, setup, steps, antithetic, payoff, rate, expiry)) == v(
            payoff.rebate_spec(),
        ),
{
    let zero = num::<T>(0);
    let tops = path_tops(m, setup, steps, antithetic);
    assert(tops(0) == setup.spot);
    lemma_breach_at_start(payoff, tops, steps.len() as int);
    let arg = rate.neg_spec().mul_spec(zero);
    lemma_times_unit(v(rate.neg_spec()));
    assert(same_value(v, arg, zero));
    lemma_times_unit(v(payoff.rebate_spec()));
}

/// The same in the rough model.
pub proof fn law_rebate_paid_at_start_rough<T: Number, M: Elementary<T>>(
    m: M,
    v: spec_fn(T) -> real,
    setup: RoughGrid<T>,
    spot: T,
    drift0: T,
    steps: Seq<RoughStep<T>>,
    antithetic: bool,
    payoff: Payoff<T>,
    rate: T,
    expiry: T,
)
    requires
        exact(v),
        faithful(v),
        exact_at_zero(m, v),
        payoff.is_breached_spec(spot),
    ensures
        v(rough_payoff(m, setup, spot, drift0, steps, antithetic, payoff, rate, expiry)) == v(
            payoff.rebate_spec(),
        ),
{
    let zero = num::<T>(0);
    let variances = Seq::new(steps.len(), |i: int| variance_at(m, setup, steps, antithetic, i));
    let dz = Seq::new(steps.len(), |i: int| price_shock(m, setup, steps, antithetic, i));
    let tops = rough_tops(m, spot, drift0, variances, dz, setup.dt);
    assert(tops(0) == spot);
    lemma_breach_at_start(payoff, tops, steps.len() as int);
    let arg = rate.neg_spec().mul_spec(zero);
    lemma_times_unit(v(rate.neg_spec()));
    assert(same_value(v, arg, zero));
    lemma_times_unit(v(payoff.rebate_spec()));
}

/// The tally of a chunk whose paths all begin at the barrier or beyond.
proof fn lemma_chunk_of_rebates<T: Number, M: Elementary<T>, S: RandomSource<T>>(
    m: M,
    v: spec_fn(T) -> real,
    src: S,
    setup: PathSetup<T>,
    jumps: Option<JumpParams<T>>,
    payoff: Payoff<T>,
    rate: T,
    expiry: T,
    n: int,
    n_steps: int,
    antithetic: bool,
)
    requires
        exact(v),
        faithful(v),
        exact_at_zero(m, v),
        payoff.is_breached_spec(setup.spot),
        0 <= n,
    ensures
        v(
            mc_chunk_spec(
                m,
                src,
                setup,
                jumps,
                payoff,
                rate,
                expiry,
                n,
                n_steps,
                antithetic,
            ).0.sum,
        ) == times((n * paths_per_pair(antithetic)) as real, v(payoff.rebate_spec())),
    decreases n,
{
    let r = v(payoff.rebate_spec());
    lemma_times_unit(r);
    if n > 0 {
        lemma_chunk_of_rebates(
            m,
            v,
            src,
            setup,
            jumps,
            payoff,
            rate,
            expiry,
            n - 1,
            n_steps,
            antithetic,
        );
        let (_, s1) = mc_chunk_spec(
            m,
            src,
            setup,
            jumps,
            payoff,
            rate,
            expiry,
            n - 1,
            n_steps,
            antithetic,
        );
        let (steps, _) = draw_path_spec(m, s1, jumps, setup.dt, n_steps);
        law_rebate_paid_at_start(m, v, setup, steps, false, payoff, rate, expiry);
        law_rebate_paid_at_start(m, v, setup, steps, true, payoff, rate, expiry);
        let per_pair = paths_per_pair(antithetic);
        assert((n - 1) * per_pair + per_pair == n * per_pair) by (nonlinear_arith);
        lemma_times_add(r, ((n - 1) * per_pair) as real, per_pair as real);
        lemma_literal(2real, r);
    }
}

/// The tally of the first chunks whose paths all begin at the barrier or beyond.
proof fn lemma_total_of_rebates<
    T: Number,
    M: Elementary<T>,
    S: RandomSource<T>,
    F: Fn(u64) -> S,
>(
    m: M,
    v: spec_fn(T) -> real,
    make: F,
    setup: PathSetup<T>,
    jumps: Option<JumpParams<T>>,
    payoff: Payoff<T>,
    rate: T,
    expiry: T,
    cfg: McConfig,
    n_chunks: int,
    n: int,
)
    requires
        exact(v),
        faithful(v),
        exact_at_zero(m, v),
        payoff.is_breached_spec(setup.spot),
        0 <= n <= n_chunks,
        0 < n_chunks,
    ensures
        ({
            let per_pair = paths_per_pair(cfg.antithetic);
            let paths = chunk_boundary(cfg.n_paths as int / per_pair, n_chunks, n) * per_pair;
            v(mc_total(m, make, setup, jumps, payoff, rate, expiry, cfg, n_chunks, n).sum)
                == times(paths as real, v(payoff.rebate_spec()))
        }),
    decreases n,
{
    let r = v(payoff.rebate_spec());
    let per_pair = paths_per_pair(cfg.antithetic);
    let n_pairs = cfg.n_paths as int / per_pair;
    lemma_times_unit(r);
    if n > 0 {
        let start = chunk_boundary(n_pairs, n_chunks, n - 1);
        let end = chunk_boundary(n_pairs, n_chunks, n);
        lemma_total_of_rebates(
            m,
            v,
            make,
            setup,
            jumps,
            payoff,
            rate,
            expiry,
            cfg,
            n_chunks,
            n - 1,
        );
        lemma_chunk_fits(cfg, n_chunks, n);
        lemma_chunk_of_rebates(
            m,
            v,
            made_by(make, chunk_seed_spec(cfg.seed, (n - 1) as u64)),
            setup,
            jumps,
            payoff,
            rate,
            expiry,
            end - start,
            cfg.n_steps as int,
            cfg.antithetic,
        );
        lemma_times_add(r, (start * per_pair) as real, ((end - start) * per_pair) as real);
    } else {
        assert(0 * chunk_size(n_pairs, n_chunks) == 0);
    }
}

/// An option that begins at its barrier or beyond costs its rebate.
pub proof fn law_breached_option_costs_rebate<
    T: Number,
    M: Elementary<T>,
    S: RandomSource<T>,
    F: Fn(u64) -> S,
>(
    m: M,
    v: spec_fn(T) -> real,
    make: F,
    spot: T,
    expiry: T,
    rate: T,
    div_yield: T,
    hp: HestonParams<T>,
    jumps: Option<JumpParams<T>>,
    payoff: Payoff<T>,
    cfg: McConfig,
    n_chunks: usize,
)
    requires
        exact(v),
        faithful(v),
        exact_at_zero(m, v),
        count_exact(m, v),
        payoff.is_breached_spec(spot),
        n_chunks > 0,
        cfg.n_paths >= paths_per_pair(cfg.antithetic),
    ensures
        v(
            mc_price_spec(
                m,
                make,
                spot,
                expiry,
                rate,
                div_yield,
                hp,
                jumps,
                payoff,
                cfg,
                n_chunks as int,
            ).price,
        ) == v(payoff.rebate_spec()),
{
    let k = n_chunks as int;
    let setup = path_setup_spec(
        m,
        spot,
        expiry,
        rate,
        div_yield,
        hp,
        jumps,
        cfg.n_steps,
        cfg.scheme,
    );
    let t = mc_total(m, make, setup, jumps, payoff, rate, expiry, cfg, k, k);
    let c = count_of::<T, M>(m, t.count);
    let per_pair = paths_per_pair(cfg.antithetic);
    let n_pairs = cfg.n_paths as int / per_pair;
    lemma_total_of_rebates(m, v, make, setup, jumps, payoff, rate, expiry, cfg, k, k);
    law_every_path_counts(m, make, setup, jumps, payoff, rate, expiry, cfg, n_chunks);
    assert(chunk_boundary(n_pairs, k, k) == n_pairs);
    assert(t.count == n_pairs * per_pair);
    assert(v(c) > 0real);
    lemma_times_comm(v(c), v(payoff.rebate_spec()));
    lemma_times_cancel(v(t.sum.div_spec(c)), v(payoff.rebate_spec()), v(c));
}

} // verus!
