//! What holds of paths of the rough Bergomi model: how forward variance, the roughness, rate and
//! yield enter, and what the antithetic sibling of a path is.
use crate::exact::{
    count_exact, exact, exact_at_zero, exp_adds, faithful, lemma_difference_of_squares, lemma_half,
    lemma_literal, lemma_multiple, lemma_quotient_positive, lemma_same_square, lemma_square,
    lemma_square_of_product, lemma_times_add, lemma_times_assoc, lemma_times_cancel,
    lemma_times_comm, lemma_times_neg, lemma_times_not_negative, lemma_times_sub, lemma_times_unit,
    ordered, same_value, sqrt_exact, times, total,
};
use crate::local_vol_laws::increasing;
use crate::mc::{
    chunk_boundary, paths_per_pair, rough_path_after, rough_tops, run_rbergomi_path_spec, McConfig,
    Payoff,
};
use crate::number::{count_of, exp_of, frac, larger, num, powf_of, sqrt_of, sum, Elementary, Number};
use crate::path_laws::lemma_scaled_means;
use crate::random::{chunk_seed_spec, made_by, RandomSource};
use crate::rbergomi::{factor, law_cholesky_reconstructs, row_products};
use crate::rough::{
    draw_rbergomi_path_spec, hybrid_matrix, increments_spec, is_simulable,
    law_every_rough_path_counts, price_shock, rough_chunk_spec, rough_payoff, rough_price_spec,
    rough_setup_spec, rough_sum, rough_total, tail_term, variance_at, RoughGrid, RoughStep,
};
use crate::simulation_laws::lemma_no_barrier;
use crate::types::{count_before, ForwardVarianceCurve, RoughBergomiParams};
use vstd::prelude::*;
use vstd::std_specs::cmp::PartialOrdIs;
use vstd::std_specs::ops::{AddSpec, DivSpec, MulSpec, NegSpec, SubSpec};

verus! {

/// The segment `j` of a curve covers the time `t`: it begins before `t`, behind the expiry before
/// it, and ends at its own expiry, the last segment never.
pub open spec fn covers<T>(
    v: spec_fn(T) -> real,
    curve: ForwardVarianceCurve<T>,
    t: real,
    j: int,
) -> bool {
    &&& 0 <= j < curve.expiries@.len()
    &&& j > 0 ==> v(curve.expiries@[j - 1]) < t
    &&& j + 1 < curve.expiries@.len() ==> t <= v(curve.expiries@[j])
}

/// The number of expiries before a time in the segment `j`.
proof fn lemma_covered<T: Number>(v: spec_fn(T) -> real, s: Seq<T>, t: T, j: int)
    requires
        ordered(v),
        increasing(v, s),
        0 <= j < s.len(),
        j > 0 ==> v(s[j - 1]) < v(t),
        j + 1 < s.len() ==> v(t) <= v(s[j]),
    ensures
        count_before(s, t) == j || (j + 1 == s.len() && count_before(s, t) == s.len()),
    decreases s.len(),
{
    assert(s[0].is_lt(&t) == (v(s[0]) < v(t)));
    let rest = s.drop_first();
    if s.len() == 1 {
        reveal_with_fuel(count_before, 2);
    } else if j > 0 {
        assert(v(s[0]) <= v(s[j - 1]));
        lemma_covered(v, rest, t, j - 1);
    }
}

/// Forward variance is constant over each segment of the curve, with the variance of the segment,
/// and after the last expiry what it is before.
pub proof fn law_curve_by_segments<T: Number>(
    v: spec_fn(T) -> real,
    curve: ForwardVarianceCurve<T>,
    t: T,
    j: int,
)
    requires
        ordered(v),
        curve.wf(),
        increasing(v, curve.expiries@),
        covers(v, curve, v(t), j),
    ensures
        curve.at_spec(t) == curve.variances@[j],
{
    lemma_covered(v, curve.expiries@, t, j);
}

/// The time `t` is that of step `i` of `n` on the way to expiry.
pub open spec fn is_time_of(t: real, i: int, n: int, expiry: real) -> bool {
    times(t, n as real) == times(i as real, expiry)
}

/// The time at the start of step `i` as the grid has it.
proof fn lemma_grid_time<T: Number, M: Elementary<T>>(
    m: M,
    v: spec_fn(T) -> real,
    expiry: T,
    n_steps: usize,
    i: int,
    t: real,
)
    requires
        exact(v),
        count_exact(m, v),
        0 <= i < n_steps,
        is_time_of(t, i, n_steps as int, v(expiry)),
    ensures
        v(
            count_of::<T, M>(m, i as usize).mul_spec(expiry.div_spec(count_of(m, n_steps))),
        ) == t,
{
    let n = n_steps as real;
    let dt = expiry.div_spec(count_of::<T, M>(m, n_steps));
    assert(v(count_of::<T, M>(m, n_steps)) == n);
    assert(v(count_of::<T, M>(m, i as usize)) == i as real);
    lemma_times_assoc(i as real, v(dt), n);
    lemma_times_cancel(times(i as real, v(dt)), t, n);
}

/// Without volatility of variance a path runs along the curve: variance at the start of a step is
/// the forward variance of the segment that covers the time of the step, whatever the normals.
pub proof fn law_variance_follows_curve<T: Number, M: Elementary<T>>(
    m: M,
    v: spec_fn(T) -> real,
    params: RoughBergomiParams<T>,
    curve: ForwardVarianceCurve<T>,
    expiry: T,
    n_steps: usize,
    steps: Seq<RoughStep<T>>,
    antithetic: bool,
    i: int,
    t: real,
    j: int,
)
    requires
        exact(v),
        faithful(v),
        count_exact(m, v),
        exact_at_zero(m, v),
        curve.wf(),
        increasing(v, curve.expiries@),
        v(params.eta) == 0real,
        0 <= i < n_steps,
        is_time_of(t, i, n_steps as int, v(expiry)),
        covers(v, curve, t, j),
    ensures
        v(
            variance_at(
                m,
                rough_setup_spec(m, params, curve, expiry, n_steps),
                steps,
                antithetic,
                i,
            ),
        ) == v(curve.variances@[j]),
{
    let setup = rough_setup_spec(m, params, curve, expiry, n_steps);
    lemma_grid_time(m, v, expiry, n_steps, i, t);
    let at = count_of::<T, M>(m, i as usize).mul_spec(setup.dt);
    law_curve_by_segments(v, curve, at, j);
    assert(setup.forward[i] == curve.variances@[j]);
    let y = rough_sum(setup.gamma, setup.factor, steps, antithetic, i);
    let root = sqrt_of(m, num::<T>(2).mul_spec(setup.alpha).add_spec(num::<T>(1)));
    let arg = params.eta.mul_spec(root.mul_spec(y)).sub_spec(setup.compensator[i]);
    let half = v(frac::<T>(1, 2));
    lemma_times_unit(v(root.mul_spec(y)));
    lemma_times_unit(half);
    lemma_times_unit(times(half, 0real));
    lemma_times_unit(
        v(powf_of(m, at, num::<T>(2).mul_spec(setup.alpha).add_spec(num::<T>(1)))),
    );
    assert(v(setup.compensator[i]) == 0real);
    assert(same_value(v, arg, num::<T>(0)));
    lemma_times_unit(v(curve.variances@[j]));
}

/// Variance is proportional to forward variance at the time of its step: paths through the same
/// normals under two curves have, at the start of each step, variances in the ratio of the forward
/// variances of the segments that cover the time of the step.
pub proof fn law_variance_scales_with_curve<T: Number, M: Elementary<T>>(
    m: M,
    v: spec_fn(T) -> real,
    params: RoughBergomiParams<T>,
    curve: ForwardVarianceCurve<T>,
    other: ForwardVarianceCurve<T>,
    expiry: T,
    n_steps: usize,
    steps: Seq<RoughStep<T>>,
    antithetic: bool,
    i: int,
    t: real,
    j: int,
    k: int,
)
    requires
        exact(v),
        count_exact(m, v),
        curve.wf(),
        other.wf(),
        increasing(v, curve.expiries@),
        increasing(v, other.expiries@),
        0 <= i < n_steps,
        is_time_of(t, i, n_steps as int, v(expiry)),
        covers(v, curve, t, j),
        covers(v, other, t, k),
    ensures
        times(
            v(
                variance_at(
                    m,
                    rough_setup_spec(m, params, curve, expiry, n_steps),
                    steps,
                    antithetic,
                    i,
                ),
            ),
            v(other.variances@[k]),
        ) == times(
            v(
                variance_at(
                    m,
                    rough_setup_spec(m, params, other, expiry, n_steps),
                    steps,
                    antithetic,
                    i,
                ),
            ),
            v(curve.variances@[j]),
        ),
{
    let a = rough_setup_spec(m, params, curve, expiry, n_steps);
    let b = rough_setup_spec(m, params, other, expiry, n_steps);
    lemma_grid_time(m, v, expiry, n_steps, i, t);
    let at = count_of::<T, M>(m, i as usize).mul_spec(a.dt);
    law_curve_by_segments(v, curve, at, j);
    law_curve_by_segments(v, other, at, k);
    assert(a.factor =~= b.factor);
    assert(a.gamma =~= b.gamma);
    let y = rough_sum(a.gamma, a.factor, steps, antithetic, i);
    let root = sqrt_of(m, num::<T>(2).mul_spec(a.alpha).add_spec(num::<T>(1)));
    assert(a.compensator[i] == b.compensator[i]);
    let e = v(exp_of(m, params.eta.mul_spec(root.mul_spec(y)).sub_spec(a.compensator[i])));
    let (x, z) = (v(curve.variances@[j]), v(other.variances@[k]));
    lemma_times_assoc(x, e, z);
    lemma_times_assoc(z, e, x);
    lemma_times_comm(e, z);
    lemma_times_comm(e, x);
    lemma_times_assoc(x, z, e);
    lemma_times_assoc(z, x, e);
    lemma_times_comm(x, z);
}

/// The increments of the sibling are those of the path with the other sign.
proof fn lemma_increments_mirror<T: Number>(
    v: spec_fn(T) -> real,
    l: Seq<T>,
    s: RoughStep<T>,
)
    requires
        exact(v),
    ensures
        v(increments_spec(l, s, true).0) == -v(increments_spec(l, s, false).0),
        v(increments_spec(l, s, true).1) == -v(increments_spec(l, s, false).1),
        v(increments_spec(l, s, true).2) == -v(increments_spec(l, s, false).2),
{
    lemma_times_neg(v(l[0]), v(s.z0));
    lemma_times_neg(v(l[3]), v(s.z0));
    lemma_times_neg(v(l[4]), v(s.z1));
    lemma_times_neg(v(l[6]), v(s.z0));
    lemma_times_neg(v(l[7]), v(s.z1));
    lemma_times_neg(v(l[8]), v(s.z2));
}

/// The far increments of the sibling add up to those of the path with the other sign.
proof fn lemma_tail_mirrors<T: Number>(
    v: spec_fn(T) -> real,
    gamma: Seq<T>,
    l: Seq<T>,
    steps: Seq<RoughStep<T>>,
    i: int,
    n: int,
)
    requires
        exact(v),
    ensures
        v(sum(tail_term(gamma, l, steps, true, i), n)) == -v(
            sum(tail_term(gamma, l, steps, false, i), n),
        ),
    decreases n,
{
    if n > 0 {
        lemma_tail_mirrors(v, gamma, l, steps, i, n - 1);
        let s = steps[i - 3 - (n - 1)];
        lemma_increments_mirror(v, l, s);
        lemma_times_neg(v(gamma[n - 1 + 3]), v(increments_spec(l, s, false).0));
    }
}

/// The rough process of the sibling is that of the path with the other sign.
pub proof fn law_rough_process_mirrors<T: Number>(
    v: spec_fn(T) -> real,
    gamma: Seq<T>,
    l: Seq<T>,
    steps: Seq<RoughStep<T>>,
    i: int,
)
    requires
        exact(v),
    ensures
        v(rough_sum(gamma, l, steps, true, i)) == -v(rough_sum(gamma, l, steps, false, i)),
{
    lemma_increments_mirror(v, l, steps[i - 1]);
    lemma_increments_mirror(v, l, steps[i - 2]);
    lemma_tail_mirrors(v, gamma, l, steps, i, i - 2);
}

/// The compensation of the exponent: a path and its sibling have, at the start of each step,
/// variances whose product is the square of forward variance, less by the exponential of the
/// variance of the exponent: the square of the volatility of variance times the time of the step
/// to the power of twice the roughness.
pub proof fn law_sibling_variances<T: Number, M: Elementary<T>>(
    m: M,
    v: spec_fn(T) -> real,
    params: RoughBergomiParams<T>,
    curve: ForwardVarianceCurve<T>,
    expiry: T,
    n_steps: usize,
    steps: Seq<RoughStep<T>>,
    i: int,
    t: T,
    j: int,
    twice_hurst: T,
    less: T,
)
    requires
        exact(v),
        faithful(v),
        count_exact(m, v),
        exp_adds(m, v),
        curve.wf(),
        increasing(v, curve.expiries@),
        0 <= i < n_steps,
        is_time_of(v(t), i, n_steps as int, v(expiry)),
        covers(v, curve, v(t), j),
        v(twice_hurst) == 2real * v(params.hurst),
        v(less) == -times(
            times(v(params.eta), v(params.eta)),
            v(powf_of(m, t, twice_hurst)),
        ),
    ensures
        ({
            let setup = rough_setup_spec(m, params, curve, expiry, n_steps);
            let xi = v(curve.variances@[j]);
            times(
                v(variance_at(m, setup, steps, false, i)),
                v(variance_at(m, setup, steps, true, i)),
            ) == times(times(xi, xi), v(exp_of(m, less)))
        }),
{
    let setup = rough_setup_spec(m, params, curve, expiry, n_steps);
    lemma_grid_time(m, v, expiry, n_steps, i, v(t));
    let at = count_of::<T, M>(m, i as usize).mul_spec(setup.dt);
    assert(same_value(v, at, t));
    law_curve_by_segments(v, curve, t, j);
    let alpha = setup.alpha;
    let power = num::<T>(2).mul_spec(alpha).add_spec(num::<T>(1));
    lemma_half::<T>(v);
    lemma_literal(2real, v(alpha));
    assert(same_value(v, power, twice_hurst));
    let eta = v(params.eta);
    let p = v(powf_of(m, t, twice_hurst));
    let comp = v(setup.compensator[i]);
    assert(2real * comp == times(times(eta, eta), p)) by {
        lemma_literal(1real / 2real, eta);
        lemma_multiple(1real / 2real, eta, eta);
        lemma_multiple(1real / 2real, times(eta, eta), p);
    }
    let (y, z) = (
        rough_sum(setup.gamma, setup.factor, steps, false, i),
        rough_sum(setup.gamma, setup.factor, steps, true, i),
    );
    law_rough_process_mirrors(v, setup.gamma, setup.factor, steps, i);
    let root = sqrt_of(m, power);
    lemma_times_neg(v(root), v(y));
    lemma_times_neg(eta, times(v(root), v(y)));
    let a = params.eta.mul_spec(root.mul_spec(y)).sub_spec(setup.compensator[i]);
    let b = params.eta.mul_spec(root.mul_spec(z)).sub_spec(setup.compensator[i]);
    assert(v(less) == v(a) + v(b));
    let (e, f) = (v(exp_of(m, a)), v(exp_of(m, b)));
    assert(v(exp_of(m, less)) == times(e, f));
    let xi = v(curve.variances@[j]);
    lemma_times_assoc(xi, e, times(xi, f));
    lemma_times_assoc(e, xi, f);
    lemma_times_comm(e, xi);
    lemma_times_assoc(xi, e, f);
    lemma_times_assoc(xi, xi, times(e, f));
}

/// The logarithm of variance against forward variance is the volatility of variance times the rough
/// process, whose square is scaled by twice the roughness, less half the square of the volatility
/// of variance times the time of the step to the power of twice the roughness.
pub proof fn law_variance_exponent<T: Number, M: Elementary<T>>(
    m: M,
    v: spec_fn(T) -> real,
    params: RoughBergomiParams<T>,
    curve: ForwardVarianceCurve<T>,
    expiry: T,
    n_steps: usize,
    steps: Seq<RoughStep<T>>,
    antithetic: bool,
    i: int,
    t: T,
    j: int,
    twice_hurst: T,
    scale: real,
    exponent: T,
)
    requires
        exact(v),
        faithful(v),
        sqrt_exact(m, v),
        count_exact(m, v),
        curve.wf(),
        increasing(v, curve.expiries@),
        0 <= i < n_steps,
        is_time_of(v(t), i, n_steps as int, v(expiry)),
        covers(v, curve, v(t), j),
        v(params.hurst) >= 0real,
        v(twice_hurst) == 2real * v(params.hurst),
        scale >= 0real,
        times(scale, scale) == 2real * v(params.hurst),
        ({
            let setup = rough_setup_spec(m, params, curve, expiry, n_steps);
            let y = rough_sum(setup.gamma, setup.factor, steps, antithetic, i);
            2real * v(exponent) == 2real * times(v(params.eta), times(scale, v(y))) - times(
                times(v(params.eta), v(params.eta)),
                v(powf_of(m, t, twice_hurst)),
            )
        }),
    ensures
        v(
            variance_at(
                m,
                rough_setup_spec(m, params, curve, expiry, n_steps),
                steps,
                antithetic,
                i,
            ),
        ) == times(v(curve.variances@[j]), v(exp_of(m, exponent))),
{
    let setup = rough_setup_spec(m, params, curve, expiry, n_steps);
    lemma_grid_time(m, v, expiry, n_steps, i, v(t));
    let at = count_of::<T, M>(m, i as usize).mul_spec(setup.dt);
    assert(same_value(v, at, t));
    law_curve_by_segments(v, curve, t, j);
    let alpha = setup.alpha;
    let power = num::<T>(2).mul_spec(alpha).add_spec(num::<T>(1));
    lemma_half::<T>(v);
    lemma_literal(2real, v(alpha));
    assert(same_value(v, power, twice_hurst));
    let root = sqrt_of(m, power);
    lemma_same_square(v(root), scale);
    let eta = v(params.eta);
    let p = v(powf_of(m, t, twice_hurst));
    assert(2real * v(setup.compensator[i]) == times(times(eta, eta), p)) by {
        lemma_literal(1real / 2real, eta);
        lemma_multiple(1real / 2real, eta, eta);
        lemma_multiple(1real / 2real, times(eta, eta), p);
    }
    let y = rough_sum(setup.gamma, setup.factor, steps, antithetic, i);
    let arg = params.eta.mul_spec(root.mul_spec(y)).sub_spec(setup.compensator[i]);
    assert(same_value(v, arg, exponent));
}

/// The shock to the price in a step: its part along the increment that moves variance is the
/// correlation times the increment; the square of the rest is what the correlation leaves of the
/// length of the step, times the square of its own normal. The sibling has the shock with the
/// other sign.
pub proof fn law_price_shock_parts<T: Number, M: Elementary<T>>(
    m: M,
    v: spec_fn(T) -> real,
    setup: RoughGrid<T>,
    steps: Seq<RoughStep<T>>,
    i: int,
)
    requires
        exact(v),
        sqrt_exact(m, v),
        -1real <= v(setup.params.rho) <= 1real,
        v(setup.dt) >= 0real,
    ensures
        ({
            let rho = v(setup.params.rho);
            let w = v(increments_spec(setup.factor, steps[i], false).0);
            let own = v(steps[i].zperp);
            let rest = v(price_shock(m, setup, steps, false, i)) - times(rho, w);
            &&& times(rest, rest) == times(
                times(1real - times(rho, rho), v(setup.dt)),
                times(own, own),
            )
            &&& own >= 0real ==> rest >= 0real
            &&& v(price_shock(m, setup, steps, true, i)) == -v(
                price_shock(m, setup, steps, false, i),
            )
        }),
{
    let rho = v(setup.params.rho);
    let own = v(steps[i].zperp);
    let left = num::<T>(1).sub_spec(setup.params.rho.mul_spec(setup.params.rho));
    assert(v(left) >= 0real) by {
        lemma_difference_of_squares(1real, rho);
        lemma_times_not_negative(1real - rho, 1real + rho);
        lemma_times_unit(1real);
    }
    let (a, b) = (v(sqrt_of(m, left)), v(sqrt_of(m, setup.dt)));
    lemma_square_of_product(a, b);
    lemma_square_of_product(times(a, b), own);
    lemma_times_not_negative(a, b);
    if own >= 0real {
        lemma_times_not_negative(times(a, b), own);
    }
    lemma_increments_mirror(v, setup.factor, steps[i]);
    lemma_times_neg(rho, v(increments_spec(setup.factor, steps[i], false).0));
    lemma_times_neg(times(a, b), own);
}

/// The increment of a step has the length of the step as its variance: it squares to that length
/// times the square of its normal.
pub proof fn law_increment_variance<T: Number, M: Elementary<T>>(
    m: M,
    v: spec_fn(T) -> real,
    params: RoughBergomiParams<T>,
    curve: ForwardVarianceCurve<T>,
    expiry: T,
    n_steps: usize,
    s: RoughStep<T>,
)
    requires
        exact(v),
        sqrt_exact(m, v),
        count_exact(m, v),
        v(expiry) > 0real,
        n_steps > 0,
        is_simulable(m, params, expiry, n_steps),
    ensures
        ({
            let setup = rough_setup_spec(m, params, curve, expiry, n_steps);
            let w = v(increments_spec(setup.factor, s, false).0);
            times(times(w, w), n_steps as real) == times(v(expiry), times(v(s.z0), v(s.z0)))
        }),
{
    let setup = rough_setup_spec(m, params, curve, expiry, n_steps);
    let dt = setup.dt;
    let n = num::<T>(1).div_spec(dt);
    let a = hybrid_matrix(m, setup.alpha, n);
    let c = count_of::<T, M>(m, n_steps);
    assert(v(c) == n_steps as real);
    lemma_quotient_positive(v, expiry, c);
    lemma_quotient_positive(v, num::<T>(1), dt);
    law_cholesky_reconstructs(m, v, a, 3, 0, 0);
    let f = row_products(m, v, a, 3, 0, 0);
    let l = v(factor(m, a, 3, 0, 0));
    assert(total(f, 3) == times(l, l)) by {
        reveal_with_fuel(total, 4);
        assert(factor(m, a, 3, 0, 1) == num::<T>(0));
        assert(factor(m, a, 3, 0, 2) == num::<T>(0));
        lemma_times_unit(0real);
    }
    assert(a[0] == num::<T>(1).div_spec(n));
    assert(times(l, l) == v(dt)) by {
        let q = v(num::<T>(1).div_spec(n));
        lemma_times_comm(v(n), v(dt));
        lemma_times_cancel(q, v(dt), v(n));
    }
    assert(setup.factor[0] == factor(m, a, 3, 0int / 3int, 0int % 3int));
    let z = v(s.z0);
    lemma_square_of_product(l, z);
    let big = n_steps as real;
    lemma_times_assoc(v(dt), times(z, z), big);
    lemma_times_comm(times(z, z), big);
    lemma_times_assoc(v(dt), big, times(z, z));
}

/// After `n` steps the logarithms of the prices of two paths with the same variances and shocks
/// differ by what their drifts differ by, times the time that has passed.
pub proof fn law_rough_price_drifts<T: Number, M: Elementary<T>>(
    m: M,
    v: spec_fn(T) -> real,
    spot: T,
    drift: T,
    drift2: T,
    vs: Seq<T>,
    dz: Seq<T>,
    dt: T,
    n: int,
)
    requires
        exact(v),
        n >= 0,
    ensures
        v(rough_path_after(m, spot, drift, vs, dz, dt, n).0) - v(
            rough_path_after(m, spot, drift2, vs, dz, dt, n).0,
        ) == times(v(drift) - v(drift2), times(n as real, v(dt))),
    decreases n,
{
    let d = v(drift) - v(drift2);
    let t = v(dt);
    lemma_times_unit(t);
    lemma_times_unit(d);
    if n > 0 {
        law_rough_price_drifts(m, v, spot, drift, drift2, vs, dz, dt, n - 1);
        let k = (n - 1) as real;
        lemma_times_add(t, k, 1real);
        lemma_times_add(d, times(k, t), t);
        let half = v(frac::<T>(1, 2).mul_spec(larger(vs[n - 1], num::<T>(0))));
        lemma_times_sub(t, v(drift), v(drift2));
        lemma_times_sub(t, v(drift) - half, v(drift2) - half);
    }
}

/// What a path keeps on the way: each step adds its price to the sum, and the largest price is at
/// least its own and the one before, and one of them. At the start the sum is empty and the
/// largest price is the spot.
pub proof fn law_rough_path_keeps_sum_and_maximum<T: Number, M: Elementary<T>>(
    m: M,
    v: spec_fn(T) -> real,
    spot: T,
    drift: T,
    vs: Seq<T>,
    dz: Seq<T>,
    dt: T,
    n: int,
)
    requires
        exact(v),
        n >= 0,
    ensures
        ({
            let start = rough_path_after(m, spot, drift, vs, dz, dt, 0);
            let x = rough_path_after(m, spot, drift, vs, dz, dt, n);
            let y = rough_path_after(m, spot, drift, vs, dz, dt, n + 1);
            let price = v(exp_of(m, y.0));
            &&& v(start.1) == 0real && start.2 == spot
            &&& v(y.1) == v(x.1) + price
            &&& v(y.2) >= v(x.2) && v(y.2) >= price
            &&& v(y.2) == v(x.2) || v(y.2) == price
        }),
{
}

/// Over a step the logarithm of the price moves by the drift less half the variance, for the
/// length of the step, and by the shock times the volatility.
pub proof fn law_rough_price_step<T: Number, M: Elementary<T>>(
    m: M,
    v: spec_fn(T) -> real,
    spot: T,
    drift: T,
    vs: Seq<T>,
    dz: Seq<T>,
    dt: T,
    n: int,
    vol: real,
)
    requires
        exact(v),
        sqrt_exact(m, v),
        0 <= n < vs.len(),
        vol >= 0real,
        v(vs[n]) == times(vol, vol),
    ensures
        v(rough_path_after(m, spot, drift, vs, dz, dt, n + 1).0) == v(
            rough_path_after(m, spot, drift, vs, dz, dt, n).0,
        ) + times(v(drift), v(dt)) - times(times(vol, vol), v(dt)) / 2real + times(
            vol,
            v(dz[n]),
        ),
{
    let vi = larger(vs[n], num::<T>(0));
    lemma_square(vol);
    assert(v(vi) == times(vol, vol));
    let r = v(sqrt_of(m, vi));
    lemma_same_square(r, vol);
    lemma_half::<T>(v);
    lemma_literal(1real / 2real, v(vi));
    lemma_multiple(1real / 2real, v(vi), v(dt));
    lemma_times_sub(v(dt), v(drift), (1real / 2real) * v(vi));
}

/// The payoff of a path without a barrier, under two discounts.
proof fn lemma_discounted_path<T: Number, M: Elementary<T>>(
    m: M,
    v: spec_fn(T) -> real,
    spot: T,
    drift0: T,
    vs: Seq<T>,
    dz: Seq<T>,
    dt: T,
    payoff: Payoff<T>,
    rate: T,
    rate2: T,
    expiry: T,
)
    requires
        exact(v),
        !(payoff is UpAndOut),
    ensures
        times(
            v(run_rbergomi_path_spec(m, spot, drift0, vs, dz, dt, payoff, rate, expiry)),
            v(exp_of(m, rate2.neg_spec().mul_spec(expiry))),
        ) == times(
            v(run_rbergomi_path_spec(m, spot, drift0, vs, dz, dt, payoff, rate2, expiry)),
            v(exp_of(m, rate.neg_spec().mul_spec(expiry))),
        ),
{
    let n = vs.len() as int;
    lemma_no_barrier(payoff, rough_tops(m, spot, drift0, vs, dz, dt), n);
    let (ln_s, sum, top) = rough_path_after(m, spot, drift0, vs, dz, dt, n);
    let paid = v(payoff.eval_spec(m, exp_of(m, ln_s), sum, top, vs.len() as usize));
    let (a, b) = (
        v(exp_of(m, rate.neg_spec().mul_spec(expiry))),
        v(exp_of(m, rate2.neg_spec().mul_spec(expiry))),
    );
    lemma_times_assoc(a, paid, b);
    lemma_times_assoc(b, paid, a);
    lemma_times_comm(paid, b);
    lemma_times_comm(paid, a);
    lemma_times_assoc(a, b, paid);
    lemma_times_assoc(b, a, paid);
    lemma_times_comm(a, b);
}

/// The tallies of two chunks that differ in the discount alone.
proof fn lemma_discounted_chunk<T: Number, M: Elementary<T>, S: RandomSource<T>>(
    m: M,
    v: spec_fn(T) -> real,
    src: S,
    setup: RoughGrid<T>,
    spot: T,
    drift0: T,
    payoff: Payoff<T>,
    rate: T,
    rate2: T,
    expiry: T,
    n: int,
    n_steps: int,
    antithetic: bool,
)
    requires
        exact(v),
        !(payoff is UpAndOut),
    ensures
        ({
            let x = rough_chunk_spec(
                m,
                src,
                setup,
                spot,
                drift0,
                payoff,
                rate,
                expiry,
                n,
                n_steps,
                antithetic,
            );
            let y = rough_chunk_spec(
                m,
                src,
                setup,
                spot,
                drift0,
                payoff,
                rate2,
                expiry,
                n,
                n_steps,
                antithetic,
            );
            &&& x.1 == y.1
            &&& x.0.count == y.0.count
            &&& times(v(x.0.sum), v(exp_of(m, rate2.neg_spec().mul_spec(expiry)))) == times(
                v(y.0.sum),
                v(exp_of(m, rate.neg_spec().mul_spec(expiry))),
            )
        }),
    decreases n,
{
    let (a, b) = (
        v(exp_of(m, rate.neg_spec().mul_spec(expiry))),
        v(exp_of(m, rate2.neg_spec().mul_spec(expiry))),
    );
    lemma_times_unit(a);
    lemma_times_unit(b);
    if n > 0 {
        lemma_discounted_chunk(
            m,
            v,
            src,
            setup,
            spot,
            drift0,
            payoff,
            rate,
            rate2,
            expiry,
            n - 1,
            n_steps,
            antithetic,
        );
        let (x, s1) = rough_chunk_spec(
            m,
            src,
            setup,
            spot,
            drift0,
            payoff,
            rate,
            expiry,
            n - 1,
            n_steps,
            antithetic,
        );
        let (y, _) = rough_chunk_spec(
            m,
            src,
            setup,
            spot,
            drift0,
            payoff,
            rate2,
            expiry,
            n - 1,
            n_steps,
            antithetic,
        );
        let (steps, _) = draw_rbergomi_path_spec(m, s1, n_steps);
        let (vs, dz) = (
            Seq::new(steps.len(), |i: int| variance_at(m, setup, steps, false, i)),
            Seq::new(steps.len(), |i: int| price_shock(m, setup, steps, false, i)),
        );
        let (ws, ez) = (
            Seq::new(steps.len(), |i: int| variance_at(m, setup, steps, true, i)),
            Seq::new(steps.len(), |i: int| price_shock(m, setup, steps, true, i)),
        );
        let dt = setup.dt;
        lemma_discounted_path(m, v, spot, drift0, vs, dz, dt, payoff, rate, rate2, expiry);
        lemma_discounted_path(m, v, spot, drift0, ws, ez, dt, payoff, rate, rate2, expiry);
        let (p, q) = (
            v(rough_payoff(m, setup, spot, drift0, steps, false, payoff, rate, expiry)),
            v(rough_payoff(m, setup, spot, drift0, steps, true, payoff, rate, expiry)),
        );
        let (r, s) = (
            v(rough_payoff(m, setup, spot, drift0, steps, false, payoff, rate2, expiry)),
            v(rough_payoff(m, setup, spot, drift0, steps, true, payoff, rate2, expiry)),
        );
        lemma_times_add(b, v(x.sum), p);
        lemma_times_add(b, v(x.sum) + p, q);
        lemma_times_add(a, v(y.sum), r);
        lemma_times_add(a, v(y.sum) + r, s);
    }
}

/// The tallies of the first chunks of two simulations that differ in the discount alone.
proof fn lemma_discounted_total<
    T: Number,
    M: Elementary<T>,
    S: RandomSource<T>,
    F: Fn(u64) -> S,
>(
    m: M,
    v: spec_fn(T) -> real,
    make: F,
    setup: RoughGrid<T>,
    spot: T,
    drift0: T,
    payoff: Payoff<T>,
    rate: T,
    rate2: T,
    expiry: T,
    cfg: McConfig,
    n_chunks: int,
    n: int,
)
    requires
        exact(v),
        !(payoff is UpAndOut),
    ensures
        ({
            let x = rough_total(
                m,
                make,
                setup,
                spot,
                drift0,
                payoff,
                rate,
                expiry,
                cfg,
                n_chunks,
                n,
            );
            let y = rough_total(
                m,
                make,
                setup,
                spot,
                drift0,
                payoff,
                rate2,
                expiry,
                cfg,
                n_chunks,
                n,
            );
            &&& x.count == y.count
            &&& times(v(x.sum), v(exp_of(m, rate2.neg_spec().mul_spec(expiry)))) == times(
                v(y.sum),
                v(exp_of(m, rate.neg_spec().mul_spec(expiry))),
            )
        }),
    decreases n,
{
    let (a, b) = (
        v(exp_of(m, rate.neg_spec().mul_spec(expiry))),
        v(exp_of(m, rate2.neg_spec().mul_spec(expiry))),
    );
    lemma_times_unit(a);
    lemma_times_unit(b);
    if n > 0 {
        let n_pairs = cfg.n_paths as int / paths_per_pair(cfg.antithetic);
        let size = chunk_boundary(n_pairs, n_chunks, n) - chunk_boundary(
            n_pairs,
            n_chunks,
            n - 1,
        );
        let src = made_by(make, chunk_seed_spec(cfg.seed, (n - 1) as u64));
        let k = cfg.n_steps as int;
        lemma_discounted_total(
            m,
            v,
            make,
            setup,
            spot,
            drift0,
            payoff,
            rate,
            rate2,
            expiry,
            cfg,
            n_chunks,
            n - 1,
        );
        lemma_discounted_chunk(
            m,
            v,
            src,
            setup,
            spot,
            drift0,
            payoff,
            rate,
            rate2,
            expiry,
            size,
            k,
            cfg.antithetic,
        );
        let x0 = rough_total(
            m,
            make,
            setup,
            spot,
            drift0,
            payoff,
            rate,
            expiry,
            cfg,
            n_chunks,
            n - 1,
        );
        let y0 = rough_total(
            m,
            make,
            setup,
            spot,
            drift0,
            payoff,
            rate2,
            expiry,
            cfg,
            n_chunks,
            n - 1,
        );
        let x1 = rough_chunk_spec(
            m,
            src,
            setup,
            spot,
            drift0,
            payoff,
            rate,
            expiry,
            size,
            k,
            cfg.antithetic,
        ).0;
        let y1 = rough_chunk_spec(
            m,
            src,
            setup,
            spot,
            drift0,
            payoff,
            rate2,
            expiry,
            size,
            k,
            cfg.antithetic,
        ).0;
        lemma_times_add(b, v(x0.sum), v(x1.sum));
        lemma_times_add(a, v(y0.sum), v(y1.sum));
    }
}

/// Rate and yield enter a price by their difference, which moves the paths, and by the discount at
/// the rate: where two simulations of a payoff without a barrier have the same rate less yield,
/// their prices are in the ratio of their discount factors.
pub proof fn law_rough_price_is_discounted<
    T: Number,
    M: Elementary<T>,
    S: RandomSource<T>,
    F: Fn(u64) -> S,
>(
    m: M,
    v: spec_fn(T) -> real,
    make: F,
    spot: T,
    expiry: T,
    rate: T,
    yield_: T,
    rate2: T,
    yield2: T,
    params: RoughBergomiParams<T>,
    curve: ForwardVarianceCurve<T>,
    payoff: Payoff<T>,
    cfg: McConfig,
    n_chunks: usize,
)
    requires
        exact(v),
        faithful(v),
        count_exact(m, v),
        v(rate) - v(yield_) == v(rate2) - v(yield2),
        !(payoff is UpAndOut),
        n_chunks > 0,
        cfg.n_paths >= paths_per_pair(cfg.antithetic),
    ensures
        times(
            v(
                rough_price_spec(
                    m,
                    make,
                    spot,
                    expiry,
                    rate,
                    yield_,
                    params,
                    curve,
                    payoff,
                    cfg,
                    n_chunks as int,
                ).price,
            ),
            v(exp_of(m, rate2.neg_spec().mul_spec(expiry))),
        ) == times(
            v(
                rough_price_spec(
                    m,
                    make,
                    spot,
                    expiry,
                    rate2,
                    yield2,
                    params,
                    curve,
                    payoff,
                    cfg,
                    n_chunks as int,
                ).price,
            ),
            v(exp_of(m, rate.neg_spec().mul_spec(expiry))),
        ),
{
    let k = n_chunks as int;
    let setup = rough_setup_spec(m, params, curve, expiry, cfg.n_steps);
    let drift = rate.sub_spec(yield_);
    assert(same_value(v, drift, rate2.sub_spec(yield2)));
    lemma_discounted_total(
        m,
        v,
        make,
        setup,
        spot,
        drift,
        payoff,
        rate,
        rate2,
        expiry,
        cfg,
        k,
        k,
    );
    law_every_rough_path_counts(
        m,
        make,
        setup,
        spot,
        drift,
        payoff,
        rate,
        expiry,
        cfg,
        n_chunks,
    );
    let x = rough_total(m, make, setup, spot, drift, payoff, rate, expiry, cfg, k, k);
    let y = rough_total(m, make, setup, spot, drift, payoff, rate2, expiry, cfg, k, k);
    let c = count_of::<T, M>(m, x.count);
    assert(v(c) > 0real);
    let (a, b) = (
        v(exp_of(m, rate.neg_spec().mul_spec(expiry))),
        v(exp_of(m, rate2.neg_spec().mul_spec(expiry))),
    );
    lemma_scaled_means(v(x.sum.div_spec(c)), v(y.sum.div_spec(c)), v(c), a, b);
}

/// The normals of the antithetic sibling: those of the path with the other sign.
pub open spec fn mirrored_normals<T: Number>(steps: Seq<RoughStep<T>>) -> Seq<RoughStep<T>> {
    Seq::new(
        steps.len(),
        |i: int|
            RoughStep {
                z0: steps[i].z0.neg_spec(),
                z1: steps[i].z1.neg_spec(),
                z2: steps[i].z2.neg_spec(),
                zperp: steps[i].zperp.neg_spec(),
            },
    )
}

/// The far increments of the sibling are those of the mirrored normals.
proof fn lemma_mirrored_tail<T: Number>(
    gamma: Seq<T>,
    l: Seq<T>,
    steps: Seq<RoughStep<T>>,
    i: int,
    n: int,
)
    requires
        0 <= i < steps.len(),
        n <= i - 2,
    ensures
        sum(tail_term(gamma, l, steps, true, i), n) == sum(
            tail_term(gamma, l, mirrored_normals(steps), false, i),
            n,
        ),
    decreases n,
{
    if n > 0 {
        lemma_mirrored_tail(gamma, l, steps, i, n - 1);
        let k = i - 3 - (n - 1);
        assert(increments_spec(l, steps[k], true) == increments_spec(
            l,
            mirrored_normals(steps)[k],
            false,
        ));
    }
}

/// The antithetic sibling of a path is the path through the normals with the other sign, to the
/// last rounding.
pub proof fn law_rough_sibling_mirrors_normals<T: Number, M: Elementary<T>>(
    m: M,
    setup: RoughGrid<T>,
    spot: T,
    drift0: T,
    steps: Seq<RoughStep<T>>,
    payoff: Payoff<T>,
    rate: T,
    expiry: T,
)
    ensures
        rough_payoff(m, setup, spot, drift0, steps, true, payoff, rate, expiry) == rough_payoff(
            m,
            setup,
            spot,
            drift0,
            mirrored_normals(steps),
            false,
            payoff,
            rate,
            expiry,
        ),
{
    let other = mirrored_normals(steps);
    let (vs, ws) = (
        Seq::new(steps.len(), |i: int| variance_at(m, setup, steps, true, i)),
        Seq::new(other.len(), |i: int| variance_at(m, setup, other, false, i)),
    );
    let (dz, ez) = (
        Seq::new(steps.len(), |i: int| price_shock(m, setup, steps, true, i)),
        Seq::new(other.len(), |i: int| price_shock(m, setup, other, false, i)),
    );
    let l = setup.factor;
    assert forall|i: int| 0 <= i < steps.len() implies vs[i] == ws[i] && dz[i] == ez[i] by {
        lemma_mirrored_tail(setup.gamma, l, steps, i, i - 2);
        assert(increments_spec(l, steps[i], true) == increments_spec(l, other[i], false));
        if i >= 1 {
            assert(increments_spec(l, steps[i - 1], true) == increments_spec(
                l,
                other[i - 1],
                false,
            ));
        }
        if i >= 2 {
            assert(increments_spec(l, steps[i - 2], true) == increments_spec(
                l,
                other[i - 2],
                false,
            ));
        }
    }
    assert(vs =~= ws);
    assert(dz =~= ez);
}

/// The next set of normals in a chunk comes from where the normals before it end, and adds to the
/// tally what its path is worth and, where paths come in pairs, what the path through the mirrored
/// normals is worth: to the sum as it is, to the sum of the squares as a square, and to the count
/// as one each.
pub proof fn law_rough_chunk_adds_paths_and_mirrors<
    T: Number,
    M: Elementary<T>,
    S: RandomSource<T>,
>(
    m: M,
    v: spec_fn(T) -> real,
    src: S,
    setup: RoughGrid<T>,
    spot: T,
    drift0: T,
    payoff: Payoff<T>,
    rate: T,
    expiry: T,
    n: int,
    n_steps: int,
    antithetic: bool,
)
    requires
        exact(v),
        n > 0,
    ensures
        ({
            let (t, s) = rough_chunk_spec(
                m,
                src,
                setup,
                spot,
                drift0,
                payoff,
                rate,
                expiry,
                n - 1,
                n_steps,
                antithetic,
            );
            let (next, rest) = rough_chunk_spec(
                m,
                src,
                setup,
                spot,
                drift0,
                payoff,
                rate,
                expiry,
                n,
                n_steps,
                antithetic,
            );
            let (steps, after) = draw_rbergomi_path_spec(m, s, n_steps);
            let other = mirrored_normals(steps);
            let x = v(rough_payoff(m, setup, spot, drift0, steps, false, payoff, rate, expiry));
            let y = v(rough_payoff(m, setup, spot, drift0, other, false, payoff, rate, expiry));
            &&& rest == after
            &&& !antithetic ==> {
                &&& v(next.sum) == v(t.sum) + x
                &&& v(next.sum_sq) == v(t.sum_sq) + times(x, x)
                &&& t.count + 1 <= usize::MAX ==> next.count == t.count + 1
            }
            &&& antithetic ==> {
                &&& v(next.sum) == v(t.sum) + x + y
                &&& v(next.sum_sq) == v(t.sum_sq) + times(x, x) + times(y, y)
                &&& t.count + 2 <= usize::MAX ==> next.count == t.count + 2
            }
        }),
{
    let (_, s) = rough_chunk_spec(
        m,
        src,
        setup,
        spot,
        drift0,
        payoff,
        rate,
        expiry,
        n - 1,
        n_steps,
        antithetic,
    );
    let (steps, _) = draw_rbergomi_path_spec(m, s, n_steps);
    law_rough_sibling_mirrors_normals(m, setup, spot, drift0, steps, payoff, rate, expiry);
}

} // verus!
