//! What holds of one step of a simulation: the normals, the jumps, the two schemes for variance,
//! and the discount of a rebate.
use crate::characteristic::JumpParams;
use crate::exact::{
    count_exact, exact, faithful, lemma_difference_of_squares, lemma_fraction, lemma_half,
    lemma_literal, lemma_multiple, lemma_sign_of_factor, lemma_square_of_product, lemma_times_add,
    lemma_times_assoc, lemma_times_cancel, lemma_times_comm, lemma_times_neg,
    lemma_times_not_negative, lemma_times_sub, lemma_times_unit, same_value, sqrt_exact, times,
};
use crate::mc::{
    box_muller_spec, draw_path_spec, euler_step_spec, first_breach, jump_total_spec,
    normal_pair_spec, path_after, path_setup_spec, path_tops, qe_coeffs_spec, qe_exponential_spec,
    qe_moments_spec, qe_psi_spec, qe_quadratic_spec, qe_step_spec, qe_variance_step_spec,
    rough_path_after, rough_tops, run_path_spec, run_rbergomi_path_spec, sample_poisson_spec,
    PathSetup, Payoff, StepDraw, VarianceScheme,
};
use crate::math::ncdf_spec;
use crate::number::{
    cos_of, count_of, decimal_of, exp_of, frac, larger, ln_of, num, sin_of, sqrt_of, Elementary,
    Number,
};
use crate::random::RandomSource;
use crate::rough::draw_rbergomi_path_spec;
use crate::rough_laws::is_time_of;
use crate::sensitivity_laws::lemma_swap;
use crate::types::{HestonParams, OptionType};
use vstd::prelude::*;
use vstd::std_specs::cmp::PartialOrdIs;
use vstd::std_specs::ops::{AddSpec, DivSpec, MulSpec, NegSpec, SubSpec};

verus! {

/// The squares of cosine and sine of the same angle add up to one.
pub open spec fn circle_exact<T: Number, M: Elementary<T>>(m: M, v: spec_fn(T) -> real) -> bool {
    forall|x: T|
        times(v(#[trigger] cos_of(m, x)), v(cos_of(m, x))) + times(
            v(sin_of(m, x)),
            v(sin_of(m, x)),
        ) == 1real
}

/// Two normals from two uniforms: the sum of their squares is minus twice the logarithm of the
/// first uniform, whatever the second.
pub proof fn law_normals_have_radius<T: Number, M: Elementary<T>>(
    m: M,
    v: spec_fn(T) -> real,
    u1: T,
    u2: T,
)
    requires
        exact(v),
        sqrt_exact(m, v),
        circle_exact(m, v),
        v(ln_of(m, u1)) <= 0real,
    ensures
        ({
            let (z1, z2) = normal_pair_spec(m, u1, u2);
            times(v(z1), v(z1)) + times(v(z2), v(z2)) == -2real * v(ln_of(m, u1))
        }),
{
    let l = v(ln_of(m, u1));
    let square = num::<T>(-2).mul_spec(ln_of(m, u1));
    assert(v(num::<T>(-2)) == -2real);
    lemma_literal(-2real, l);
    let r = v(sqrt_of(m, square));
    let theta = decimal_of::<T, M>(m, 6283185307179586, -15).mul_spec(u2);
    let (c, s) = (v(cos_of(m, theta)), v(sin_of(m, theta)));
    lemma_square_of_product(r, c);
    lemma_square_of_product(r, s);
    lemma_times_add(times(r, r), times(c, c), times(s, s));
    lemma_times_unit(times(r, r));
}

/// The sum of `n` jumps is `n` times their mean, and a rest whose square is `n` times their
/// variance times the square of the normal, with the sign of the normal. No jumps add up to zero.
pub proof fn law_jumps_add_up<T: Number, M: Elementary<T>>(
    m: M,
    v: spec_fn(T) -> real,
    j: JumpParams<T>,
    n: u32,
    u: T,
)
    requires
        exact(v),
        sqrt_exact(m, v),
        count_exact(m, v),
        v(j.sigma_j) >= 0real,
    ensures
        ({
            let rest = v(jump_total_spec(m, j, n, u)) - times(n as real, v(j.mu_j));
            &&& n == 0 ==> rest == 0real
            &&& times(rest, rest) == times(
                times(n as real, times(v(j.sigma_j), v(j.sigma_j))),
                times(v(u), v(u)),
            )
            &&& v(u) >= 0real ==> rest >= 0real
        }),
{
    let k = n as real;
    let s = v(j.sigma_j);
    let z = v(u);
    let c = count_of::<T, M>(m, n as usize);
    lemma_times_unit(v(j.mu_j));
    lemma_times_unit(0real);
    lemma_times_unit(times(s, s));
    lemma_times_unit(times(z, z));
    if n > 0 {
        assert(v(c) == k);
        let r = v(sqrt_of(m, c));
        lemma_times_comm(v(j.mu_j), k);
        lemma_square_of_product(times(s, r), z);
        lemma_square_of_product(s, r);
        lemma_times_comm(times(s, s), k);
        lemma_times_not_negative(s, r);
        if z >= 0real {
            lemma_times_not_negative(times(s, r), z);
        }
    }
}

/// The first breach is at the first step at which the largest price has reached the barrier.
proof fn lemma_breach_at<T: Number>(
    payoff: Payoff<T>,
    top: spec_fn(int) -> T,
    k: int,
    n: int,
)
    requires
        0 <= k <= n,
        payoff.is_breached_spec(top(k)),
        forall|i: int| 0 <= i < k ==> !payoff.is_breached_spec(#[trigger] top(i)),
    ensures
        first_breach(payoff, top, n) == Some(k),
    decreases n,
{
    if n == k {
        lemma_no_breach_before(payoff, top, k - 1);
    } else {
        lemma_breach_at(payoff, top, k, n - 1);
    }
}

/// Where no largest price has reached the barrier, there is no breach.
proof fn lemma_no_breach_before<T: Number>(payoff: Payoff<T>, top: spec_fn(int) -> T, n: int)
    requires
        forall|i: int| 0 <= i <= n ==> !payoff.is_breached_spec(#[trigger] top(i)),
    ensures
        first_breach(payoff, top, n) is None,
    decreases n + 1,
{
    if n >= 0 {
        lemma_no_breach_before(payoff, top, n - 1);
    }
}

/// A path that first reaches the barrier at step `k` is worth the rebate, discounted over that
/// share of the time to expiry, whatever happens after.
pub proof fn law_rebate_discounted_from_breach<T: Number, M: Elementary<T>>(
    m: M,
    v: spec_fn(T) -> real,
    spot: T,
    expiry: T,
    rate: T,
    div_yield: T,
    hp: HestonParams<T>,
    jumps: Option<JumpParams<T>>,
    n_steps: usize,
    scheme: VarianceScheme,
    steps: Seq<StepDraw<T>>,
    antithetic: bool,
    strike: T,
    barrier: T,
    rebate: T,
    opt_type: OptionType,
    k: int,
    t: T,
)
    requires
        exact(v),
        faithful(v),
        count_exact(m, v),
        steps.len() == n_steps,
        0 <= k <= n_steps,
        n_steps > 0,
        is_time_of(v(t), k, n_steps as int, v(expiry)),
        ({
            let setup = path_setup_spec(
                m,
                spot,
                expiry,
                rate,
                div_yield,
                hp,
                jumps,
                n_steps,
                scheme,
            );
            &&& v(path_after(m, setup, steps, antithetic, k).running_max) >= v(barrier)
            &&& forall|i: int|
                0 <= i < k ==> v(
                    (#[trigger] path_after(m, setup, steps, antithetic, i)).running_max,
                ) < v(barrier)
        }),
    ensures
        ({
            let setup = path_setup_spec(
                m,
                spot,
                expiry,
                rate,
                div_yield,
                hp,
                jumps,
                n_steps,
                scheme,
            );
            let payoff = Payoff::UpAndOut { strike, barrier, rebate, opt_type };
            v(run_path_spec(m, setup, steps, antithetic, payoff, rate, expiry)) == times(
                v(exp_of(m, rate.neg_spec().mul_spec(t))),
                v(rebate),
            )
        }),
{
    let setup = path_setup_spec(m, spot, expiry, rate, div_yield, hp, jumps, n_steps, scheme);
    let payoff = Payoff::UpAndOut { strike, barrier, rebate, opt_type };
    let top = path_tops(m, setup, steps, antithetic);
    assert(payoff.is_breached_spec(top(k))) by {
        assert(top(k).is_ge(&barrier) == (v(top(k)) >= v(barrier)));
    }
    assert forall|i: int| 0 <= i < k implies !payoff.is_breached_spec(#[trigger] top(i)) by {
        let st = path_after(m, setup, steps, antithetic, i);
        assert(top(i).is_ge(&barrier) == (v(top(i)) >= v(barrier)));
    }
    lemma_breach_at(payoff, top, k, n_steps as int);
    lemma_step_time(m, v, expiry, n_steps, k, t);
}

/// The time of step `k` as the grid has it.
proof fn lemma_step_time<T: Number, M: Elementary<T>>(
    m: M,
    v: spec_fn(T) -> real,
    expiry: T,
    n_steps: usize,
    k: int,
    t: T,
)
    requires
        exact(v),
        faithful(v),
        count_exact(m, v),
        0 <= k <= n_steps,
        n_steps > 0,
        is_time_of(v(t), k, n_steps as int, v(expiry)),
    ensures
        k == 0 ==> t == num::<T>(0),
        k > 0 ==> t == count_of::<T, M>(m, k as usize).mul_spec(
            expiry.div_spec(count_of(m, n_steps)),
        ),
{
    let n = n_steps as real;
    let dt = expiry.div_spec(count_of::<T, M>(m, n_steps));
    let at = count_of::<T, M>(m, k as usize).mul_spec(dt);
    assert(v(count_of::<T, M>(m, n_steps)) == n);
    assert(v(count_of::<T, M>(m, k as usize)) == k as real);
    lemma_times_assoc(k as real, v(dt), n);
    lemma_times_cancel(v(t), v(at), n);
    assert(same_value(v, t, at));
    if k == 0 {
        lemma_times_unit(v(dt));
        assert(same_value(v, t, num::<T>(0)));
    }
}

/// A path of the rough model that first reaches the barrier at step `k` is worth the rebate,
/// discounted over that share of the time to expiry.
pub proof fn law_rough_rebate_discounted_from_breach<T: Number, M: Elementary<T>>(
    m: M,
    v: spec_fn(T) -> real,
    spot: T,
    drift: T,
    vs: Seq<T>,
    dz: Seq<T>,
    expiry: T,
    rate: T,
    n_steps: usize,
    strike: T,
    barrier: T,
    rebate: T,
    opt_type: OptionType,
    k: int,
    t: T,
)
    requires
        exact(v),
        faithful(v),
        count_exact(m, v),
        vs.len() == n_steps,
        0 <= k <= n_steps,
        n_steps > 0,
        is_time_of(v(t), k, n_steps as int, v(expiry)),
        ({
            let dt = expiry.div_spec(count_of(m, n_steps));
            &&& v(rough_path_after(m, spot, drift, vs, dz, dt, k).2) >= v(barrier)
            &&& forall|i: int|
                0 <= i < k ==> v((#[trigger] rough_path_after(m, spot, drift, vs, dz, dt, i)).2)
                    < v(barrier)
        }),
    ensures
        ({
            let dt = expiry.div_spec(count_of(m, n_steps));
            let payoff = Payoff::UpAndOut { strike, barrier, rebate, opt_type };
            v(run_rbergomi_path_spec(m, spot, drift, vs, dz, dt, payoff, rate, expiry)) == times(
                v(exp_of(m, rate.neg_spec().mul_spec(t))),
                v(rebate),
            )
        }),
{
    let dt = expiry.div_spec(count_of(m, n_steps));
    let payoff = Payoff::UpAndOut { strike, barrier, rebate, opt_type };
    let top = rough_tops(m, spot, drift, vs, dz, dt);
    assert(payoff.is_breached_spec(top(k))) by {
        assert(top(k).is_ge(&barrier) == (v(top(k)) >= v(barrier)));
    }
    assert forall|i: int| 0 <= i < k implies !payoff.is_breached_spec(#[trigger] top(i)) by {
        let st = rough_path_after(m, spot, drift, vs, dz, dt, i);
        assert(top(i).is_ge(&barrier) == (v(top(i)) >= v(barrier)));
    }
    lemma_breach_at(payoff, top, k, n_steps as int);
    lemma_step_time(m, v, expiry, n_steps, k, t);
}

/// A step of the first scheme. The logarithm of the price moves by the drift less half the
/// variance, for the length of the step, by the jumps, and by a shock whose square is the variance
/// of the step times that of the normal. Variance reverts to its mean at its speed; what moves it
/// besides is its volatility times the correlation times the shock to the price, and a rest whose
/// square is what the correlation leaves of the variance of the step, times the square of the
/// volatility and of the other normal.
pub proof fn law_euler_step<T: Number, M: Elementary<T>>(
    m: M,
    v: spec_fn(T) -> real,
    setup: PathSetup<T>,
    ln_s: T,
    var: T,
    za: T,
    zb: T,
    jump_sum: T,
)
    requires
        exact(v),
        sqrt_exact(m, v),
        v(var) >= 0real,
        v(setup.dt) >= 0real,
        setup.sqdt == sqrt_of(m, setup.dt),
        -1real <= v(setup.hp.rho) <= 1real,
        v(euler_step_spec(m, setup, ln_s, var, za, zb, jump_sum).1) > 0real,
    ensures
        ({
            let hp = setup.hp;
            let (x, y) = euler_step_spec(m, setup, ln_s, var, za, zb, jump_sum);
            let (a, d, rho, sig) = (v(var), v(setup.dt), v(hp.rho), v(hp.sigma));
            let shock = v(x) - v(ln_s) - times(v(setup.drift), d) + times(a, d) / 2real - v(
                jump_sum,
            );
            let noise = v(y) - a - times(v(hp.kappa), times(v(hp.theta) - a, d));
            let rest = noise - times(sig, times(rho, shock));
            &&& times(shock, shock) == times(times(a, d), times(v(za), v(za)))
            &&& v(za) >= 0real ==> shock >= 0real
            &&& times(rest, rest) == times(
                times(sig, sig),
                times(times(1real - times(rho, rho), times(a, d)), times(v(zb), v(zb))),
            )
        }),
{
    let hp = setup.hp;
    let (x, y) = euler_step_spec(m, setup, ln_s, var, za, zb, jump_sum);
    let (a, d, rho, sig) = (v(var), v(setup.dt), v(hp.rho), v(hp.sigma));
    let v_pos = larger(var, num::<T>(0));
    assert(v(v_pos) == a);
    let (r, q) = (v(sqrt_of(m, v_pos)), v(setup.sqdt));
    let left = num::<T>(1).sub_spec(hp.rho.mul_spec(hp.rho));
    assert(v(left) >= 0real) by {
        lemma_difference_of_squares(1real, rho);
        lemma_times_not_negative(1real - rho, 1real + rho);
        lemma_times_unit(1real);
    }
    let s = v(sqrt_of(m, left));
    let (p, z) = (v(za), v(zb));
    let rq = times(r, q);
    // The shock to the price.
    let shock = times(rq, p);
    assert(v(x) == v(ln_s) + (times(v(setup.drift) - a / 2real, d) + shock + v(jump_sum))) by {
        lemma_half::<T>(v);
        lemma_literal(1real / 2real, a);
    }
    assert(times(v(setup.drift) - a / 2real, d) == times(v(setup.drift), d) - times(a, d) / 2real)
        by {
        lemma_times_sub(d, v(setup.drift), a / 2real);
        lemma_multiple(1real / 2real, a, d);
        assert(a / 2real == (1real / 2real) * a);
    }
    lemma_square_of_product(rq, p);
    lemma_square_of_product(r, q);
    if p >= 0real {
        lemma_times_not_negative(r, q);
        lemma_times_not_negative(rq, p);
    }
    // The noise of variance.
    let z2 = times(rho, p) + times(s, z);
    let noise = times(times(times(sig, r), q), z2);
    lemma_times_assoc(v(hp.kappa), v(hp.theta) - a, d);
    assert(v(y) == a + times(v(hp.kappa), times(v(hp.theta) - a, d)) + noise);
    assert(noise == times(sig, times(rho, shock)) + times(sig, times(rq, times(s, z)))) by {
        lemma_times_assoc(sig, r, q);
        lemma_times_assoc(sig, rq, z2);
        lemma_times_add(rq, times(rho, p), times(s, z));
        lemma_swap(rq, rho, p);
        lemma_times_add(sig, times(rho, shock), times(rq, times(s, z)));
    }
    let inner = times(rq, times(s, z));
    lemma_square_of_product(sig, inner);
    lemma_square_of_product(rq, times(s, z));
    lemma_square_of_product(s, z);
    let ad = times(a, d);
    lemma_times_assoc(ad, v(left), times(z, z));
    lemma_times_comm(ad, v(left));
}

/// A step of the second scheme moves the price along the variance it draws. With the variance
/// accumulated over the step, the mean of its ends times the length of the step, the logarithm of
/// the price moves by the drift, less half of what is accumulated, by the jumps, and by the
/// correlation times what the draw of variance says of its own noise; and by a shock of its own,
/// whose square is what the correlation leaves of what is accumulated, times the square of the
/// normal.
pub proof fn law_qe_price_step<T: Number, M: Elementary<T>>(
    m: M,
    v: spec_fn(T) -> real,
    setup: PathSetup<T>,
    ln_s: T,
    var: T,
    za: T,
    zb: T,
    jump_sum: T,
    none: T,
)
    requires
        exact(v),
        sqrt_exact(m, v),
        v(var) >= 0real,
        v(setup.dt) >= 0real,
        v(setup.hp.sigma) > 0real,
        -1real <= v(setup.hp.rho) <= 1real,
        v(none) == 0real,
        v(
            qe_step_spec(
                m,
                setup,
                qe_coeffs_spec(setup.hp, setup.dt),
                ln_s,
                var,
                za,
                zb,
                jump_sum,
            ).1,
        ) >= 0real,
    ensures
        ({
            let hp = setup.hp;
            let k = qe_coeffs_spec(hp, setup.dt);
            let (x, y) = qe_step_spec(m, setup, k, ln_s, var, za, zb, jump_sum);
            let (x0, y0) = qe_step_spec(m, setup, k, ln_s, var, za, none, jump_sum);
            let (a, b, d, rho, sig) = (v(var), v(y), v(setup.dt), v(hp.rho), v(hp.sigma));
            let amount = times(d, a + b) / 2real;
            let own = v(x) - v(x0);
            let moved = v(x0) - v(ln_s) - times(v(setup.drift), d) - v(jump_sum);
            let noise = b - a - times(v(hp.kappa), times(v(hp.theta), d)) + times(
                v(hp.kappa),
                amount,
            );
            &&& y == y0
            &&& times(sig, moved + amount / 2real) == times(rho, noise)
            &&& times(own, own) == times(
                times(1real - times(rho, rho), amount),
                times(v(zb), v(zb)),
            )
            &&& v(zb) >= 0real ==> own >= 0real
        }),
{
    let hp = setup.hp;
    let k = qe_coeffs_spec(hp, setup.dt);
    let (x, y) = qe_step_spec(m, setup, k, ln_s, var, za, zb, jump_sum);
    let (x0, _) = qe_step_spec(m, setup, k, ln_s, var, za, none, jump_sum);
    let (a, b, d, rho, sig) = (v(var), v(y), v(setup.dt), v(hp.rho), v(hp.sigma));
    let (kap, the) = (v(hp.kappa), v(hp.theta));
    let v_pos = larger(var, num::<T>(0));
    assert(v(v_pos) == a);
    let dd = times(d, a + b);
    let amount = dd / 2real;
    lemma_half::<T>(v);
    let h = 1real / 2real;
    // The variance of the own shock.
    let left = 1real - times(rho, rho);
    assert(left >= 0real) by {
        lemma_difference_of_squares(1real, rho);
        lemma_times_not_negative(1real - rho, 1real + rho);
        lemma_times_unit(1real);
    }
    let raw = k.k3.mul_spec(v_pos).add_spec(k.k4.mul_spec(y));
    assert(v(raw) == times(left, amount)) by {
        lemma_literal(h, d);
        lemma_multiple(h, d, left);
        let half_left = h * times(d, left);
        lemma_times_add(half_left, a, b);
        lemma_multiple(h, times(d, left), a + b);
        lemma_times_comm(d, left);
        lemma_times_assoc(left, d, a + b);
        lemma_multiple(h, left, dd);
        assert(amount == h * dd);
    }
    lemma_times_not_negative(d, a + b);
    lemma_times_not_negative(left, amount);
    let var_term = larger(raw, num::<T>(0));
    assert(v(var_term) == times(left, amount));
    let root = v(sqrt_of(m, var_term));
    lemma_times_unit(root);
    lemma_square_of_product(root, v(zb));
    if v(zb) >= 0real {
        lemma_times_not_negative(root, v(zb));
    }
    assert(v(x) - v(x0) == times(root, v(zb)));
    // What the draw of variance moves.
    let moved = v(k.k0) + times(v(k.k1), a) + times(v(k.k2), b);
    assert(v(x0) == v(ln_s) + (times(v(setup.drift), d) + moved + v(jump_sum)));
    let r1 = v(hp.rho.div_spec(hp.sigma));
    let c = v(hp.kappa.mul_spec(hp.rho).div_spec(hp.sigma));
    let tilt = times(times(v(frac::<T>(1, 2)), d), c - v(frac::<T>(1, 2)));
    assert(v(k.k1) == tilt - r1 && v(k.k2) == tilt + r1);
    assert(moved == v(k.k0) + times(tilt, a + b) + times(r1, b) - times(r1, a)) by {
        lemma_times_sub(a, tilt, r1);
        lemma_times_add(b, tilt, r1);
        lemma_times_add(tilt, a, b);
    }
    let kr = times(kap, rho);
    assert(times(sig, times(tilt, a + b)) == h * (times(kr, dd) - h * times(sig, dd))) by {
        lemma_literal(h, d);
        lemma_multiple(h, d, c - h);
        lemma_times_sub(d, c, h);
        let u = times(d, c) - h * d;
        assert(tilt == h * u);
        lemma_multiple(h, u, a + b);
        lemma_times_sub(a + b, times(d, c), h * d);
        lemma_multiple(h, d, a + b);
        lemma_times_comm(d, c);
        lemma_times_assoc(c, d, a + b);
        let w = times(c, dd) - h * dd;
        assert(times(tilt, a + b) == h * w);
        lemma_multiple(h, sig, w);
        lemma_times_sub(sig, times(c, dd), h * dd);
        lemma_multiple(h, sig, dd);
        lemma_times_assoc(sig, c, dd);
        lemma_times_comm(sig, c);
    }
    assert(times(sig, v(k.k0)) == -times(rho, times(kap, times(the, d)))) by {
        lemma_times_comm(sig, v(k.k0));
        lemma_times_neg(rho, kap);
        lemma_times_neg(times(rho, kap), the);
        lemma_times_neg(times(times(rho, kap), the), d);
        lemma_times_assoc(times(rho, kap), the, d);
        lemma_times_assoc(rho, kap, times(the, d));
    }
    assert(times(sig, times(r1, b)) == times(rho, b) && times(sig, times(r1, a)) == times(rho, a))
        by {
        lemma_times_assoc(sig, r1, b);
        lemma_times_assoc(sig, r1, a);
        lemma_times_comm(sig, r1);
    }
    let noise = b - a - times(kap, times(the, d)) + times(kap, amount);
    assert(times(sig, moved + amount / 2real) == times(rho, noise)) by {
        let t = times(tilt, a + b);
        lemma_times_add(sig, moved, amount / 2real);
        lemma_times_sub(sig, v(k.k0) + t + times(r1, b), times(r1, a));
        lemma_times_add(sig, v(k.k0) + t, times(r1, b));
        lemma_times_add(sig, v(k.k0), t);
        assert(amount / 2real == (1real / 4real) * dd);
        lemma_multiple(1real / 4real, sig, dd);
        assert(amount == h * dd);
        lemma_multiple(h, kap, dd);
        lemma_times_add(rho, b - a - times(kap, times(the, d)), times(kap, amount));
        lemma_times_sub(rho, b - a, times(kap, times(the, d)));
        lemma_times_sub(rho, b, a);
        lemma_multiple(h, rho, times(kap, dd));
        lemma_times_assoc(rho, kap, dd);
        lemma_times_comm(rho, kap);
    }
}

/// The moments that variance is drawn with: its distance from its long mean decays by the
/// exponential of the speed times the time, and its variance comes from where it starts and from
/// its long mean in the shares that the same exponential gives.
pub proof fn law_qe_moments<T: Number, M: Elementary<T>>(
    m: M,
    v: spec_fn(T) -> real,
    v_t: T,
    kappa: T,
    theta: T,
    sigma: T,
    dt: T,
    decay: T,
)
    requires
        exact(v),
        faithful(v),
        v(kappa) > 0real,
        v(decay) == -times(v(kappa), v(dt)),
    ensures
        ({
            let (mean, s2) = qe_moments_spec(m, v_t, kappa, theta, sigma, dt);
            let e = v(exp_of(m, decay));
            let ss = times(v(sigma), v(sigma));
            &&& v(mean) - v(theta) == times(v(v_t) - v(theta), e)
            &&& times(v(s2), 2real * v(kappa)) == times(
                times(ss, 1real - e),
                2real * times(v(v_t), e) + times(v(theta), 1real - e),
            )
        }),
{
    let arg = kappa.neg_spec().mul_spec(dt);
    lemma_times_neg(v(kappa), v(dt));
    assert(same_value(v, arg, decay));
    let e = v(exp_of(m, decay));
    let (a, k, t, s) = (v(v_t), v(kappa), v(theta), v(sigma));
    let g = 1real - e;
    let ss = times(s, s);
    let ekt = exp_of(m, arg);
    let gap = num::<T>(1).sub_spec(ekt);
    let f1 = v_t.mul_spec(sigma).mul_spec(sigma).mul_spec(ekt).div_spec(kappa);
    let f2 = theta.mul_spec(sigma).mul_spec(sigma).div_spec(num::<T>(2).mul_spec(kappa));
    let sg = times(ss, g);
    assert(times(times(v(f1), g), 2real * k) == times(sg, 2real * times(a, e))) by {
        lemma_multiple(2real, times(v(f1), g), k);
        lemma_times_assoc(v(f1), g, k);
        lemma_times_comm(g, k);
        lemma_times_assoc(v(f1), k, g);
        lemma_times_assoc(a, s, s);
        lemma_times_assoc(a, ss, e);
        lemma_times_comm(ss, e);
        lemma_times_assoc(a, e, ss);
        lemma_times_assoc(times(a, e), ss, g);
        lemma_times_comm(times(a, e), sg);
        lemma_multiple(2real, sg, times(a, e));
    }
    assert(times(times(v(f2), times(g, g)), 2real * k) == times(sg, times(t, g))) by {
        lemma_literal(2real, k);
        lemma_times_assoc(v(f2), times(g, g), 2real * k);
        lemma_times_comm(times(g, g), 2real * k);
        lemma_times_assoc(v(f2), 2real * k, times(g, g));
        lemma_times_assoc(t, s, s);
        lemma_times_assoc(t, ss, times(g, g));
        lemma_times_assoc(ss, g, g);
        lemma_swap(t, sg, g);
    }
    lemma_times_add(2real * k, times(v(f1), g), times(v(f2), times(g, g)));
    lemma_times_add(sg, 2real * times(a, e), times(t, g));
}

/// The draws of a path come from one stream, step after step: those of the steps before stay, and
/// the last takes a pair of normals from where they end; and where there are jumps a count with
/// the intensity times the length of the step as its mean, and for any jumps another pair, of
/// which the first normal is their deviation.
pub proof fn law_draws_in_order<T: Number, M: Elementary<T>, S: RandomSource<T>>(
    m: M,
    v: spec_fn(T) -> real,
    src: S,
    jumps: Option<JumpParams<T>>,
    dt: T,
    n: int,
    mean: T,
)
    requires
        exact(v),
        faithful(v),
        n > 0,
        jumps matches Some(j) ==> v(mean) == times(v(j.lambda), v(dt)),
    ensures
        ({
            let (before, s) = draw_path_spec(m, src, jumps, dt, n - 1);
            let (all, rest) = draw_path_spec(m, src, jumps, dt, n);
            let (pair, s1) = box_muller_spec(m, s);
            &&& all.len() == n && all.take(n - 1) == before
            &&& all[n - 1].za == pair.0 && all[n - 1].zb == pair.1
            &&& jumps is None ==> rest == s1 && v(all[n - 1].jump_sum) == 0real
            &&& jumps matches Some(j) ==> {
                let (k, s2) = sample_poisson_spec(m, s1, mean);
                &&& k == 0 ==> rest == s2 && v(all[n - 1].jump_sum) == 0real
                &&& k > 0 ==> {
                    let (u, s3) = box_muller_spec(m, s2);
                    rest == s3 && all[n - 1].jump_sum == jump_total_spec(m, j, k, u.0)
                }
            }
        }),
    decreases n,
{
    let (before, s) = draw_path_spec(m, src, jumps, dt, n - 1);
    if n > 1 {
        law_draws_in_order(m, v, src, jumps, dt, n - 1, mean);
    }
    let (all, _) = draw_path_spec(m, src, jumps, dt, n);
    assert(all.take(n - 1) =~= before);
    if let Some(j) = jumps {
        assert(same_value(v, j.lambda.mul_spec(dt), mean));
    }
}

/// The normals of a path of the rough model come from one stream, step after step: those of the
/// steps before stay, and the last takes two pairs from where they end, the first two for the
/// increment and its copy one step on, then one for the copy two steps on, and one for the price.
pub proof fn law_rough_draws_in_order<T: Number, M: Elementary<T>, S: RandomSource<T>>(
    m: M,
    src: S,
    n: int,
)
    requires
        n > 0,
    ensures
        ({
            let (before, s) = draw_rbergomi_path_spec(m, src, n - 1);
            let (all, rest) = draw_rbergomi_path_spec(m, src, n);
            let (first, s1) = box_muller_spec(m, s);
            let (second, s2) = box_muller_spec(m, s1);
            &&& all.len() == n && all.take(n - 1) == before
            &&& (all[n - 1].z0, all[n - 1].z1) == first
            &&& (all[n - 1].z2, all[n - 1].zperp) == second
            &&& rest == s2
        }),
    decreases n,
{
    let (before, _) = draw_rbergomi_path_spec(m, src, n - 1);
    if n > 1 {
        law_rough_draws_in_order(m, src, n - 1);
    }
    let (all, _) = draw_rbergomi_path_spec(m, src, n);
    assert(all.take(n - 1) =~= before);
}

/// Variance is drawn as a square of a shifted normal where its variance is at most one and a half
/// times the square of its mean; where it is more, there is a chance that it is zero, and it is
/// where the probability of the normal, times the sum of the variance and the square of the mean,
/// is at most their difference.
pub proof fn law_qe_switches<T: Number, M: Elementary<T>>(
    m: M,
    v: spec_fn(T) -> real,
    v_t: T,
    kappa: T,
    theta: T,
    sigma: T,
    dt: T,
    z: T,
)
    requires
        exact(v),
        v(decimal_of::<T, M>(m, 1, -300)) > 0real,
        v(decimal_of::<T, M>(m, 1, -12)) > 0real,
        ({
            let (mean, s2) = qe_moments_spec(m, v_t, kappa, theta, sigma, dt);
            let mm = times(v(mean), v(mean));
            &&& mm >= v(decimal_of::<T, M>(m, 1, -300))
            &&& times(v(decimal_of::<T, M>(m, 1, -12)), mm) <= v(s2)
        }),
    ensures
        ({
            let (mean, s2) = qe_moments_spec(m, v_t, kappa, theta, sigma, dt);
            let psi = qe_psi_spec(m, mean, s2);
            let mm = times(v(mean), v(mean));
            let drawn = v(qe_variance_step_spec(m, v_t, kappa, theta, sigma, dt, z));
            let u = v(ncdf_spec(m, z));
            &&& times(v(psi), mm) == v(s2)
            &&& 2real * v(s2) <= 3real * mm ==> {
                let (a, b2) = qe_quadratic_spec(m, psi, mean);
                let shifted = v(sqrt_of(m, b2)) + v(z);
                drawn == times(v(a), times(shifted, shifted))
            }
            &&& 2real * v(s2) > 3real * mm && times(u, v(s2) + mm) <= v(s2) - mm ==> drawn == 0real
        }),
{
    let (mean, s2) = qe_moments_spec(m, v_t, kappa, theta, sigma, dt);
    let psi = qe_psi_spec(m, mean, s2);
    let square = larger(mean.mul_spec(mean), decimal_of::<T, M>(m, 1, -300));
    let mm = times(v(mean), v(mean));
    assert(v(square) == mm);
    let raw = s2.div_spec(square);
    let q = v(raw);
    let floor = v(decimal_of::<T, M>(m, 1, -12));
    assert(q >= floor) by {
        lemma_times_sub(mm, q, floor);
        lemma_times_comm(mm, q - floor);
        lemma_sign_of_factor(mm, q - floor);
    }
    assert(v(psi) == q);
    lemma_fraction(v, 3, 2);
    let limit = 3real / 2real;
    assert(psi.is_le(&frac::<T>(3, 2)) == (q <= limit));
    lemma_literal(limit, mm);
    lemma_times_sub(mm, limit, q);
    lemma_times_comm(mm, limit - q);
    if 2real * v(s2) <= 3real * mm {
        lemma_sign_of_factor(mm, limit - q);
    } else {
        if q <= limit {
            lemma_times_not_negative(limit - q, mm);
        }
        let (p, _) = qe_exponential_spec(m, psi, mean);
        let u = v(ncdf_spec(m, z));
        if times(u, v(s2) + mm) <= v(s2) - mm {
            // The chance times the sum is the difference.
            assert(times(v(p), q + 1real) == q - 1real);
            lemma_times_add(mm, q, 1real);
            lemma_times_sub(mm, q, 1real);
            lemma_times_unit(mm);
            assert(times(v(p), v(s2) + mm) == v(s2) - mm) by {
                lemma_times_assoc(v(p), q + 1real, mm);
            }
            let both = v(s2) + mm;
            lemma_times_sub(both, v(p), u);
            lemma_times_comm(both, v(p) - u);
            lemma_sign_of_factor(both, v(p) - u);
            assert(ncdf_spec(m, z).is_le(&p));
        }
    }
}

} // verus!
