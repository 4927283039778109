//! What holds of the simulation without rounding: the moments of the quadratic-exponential
//! step, and what the payoffs pay against each other.
use crate::exact::{
    exact, lemma_difference_of_squares, lemma_fraction, lemma_literal, lemma_multiple,
    lemma_square_of_product, lemma_times_add, lemma_times_assoc, lemma_times_comm,
    lemma_times_not_negative, lemma_times_positive, lemma_times_sub, lemma_times_unit, sqrt_exact,
    times,
};
use crate::mc::{intrinsic_spec, qe_exponential_spec, qe_psi_spec, qe_quadratic_spec, Payoff};
use crate::number::{decimal_of, frac, larger, num, sqrt_of, Elementary, Number};
use crate::types::OptionType;
use vstd::prelude::*;
use vstd::std_specs::ops::{DivSpec, MulSpec, SubSpec};

verus! {

/// The variance is the ratio times the squared mean, where neither is too small to be told
/// from zero.
proof fn lemma_psi<T: Number, M: Elementary<T>>(
    m: M,
    v: spec_fn(T) -> real,
    mean: T,
    s2: T,
)
    requires
        exact(v),
        v(mean) > 0real,
        times(v(mean), v(mean)) >= v(decimal_of::<T, M>(m, 1, -300)),
        v(s2.div_spec(mean.mul_spec(mean))) >= v(decimal_of::<T, M>(m, 1, -12)),
    ensures
        times(v(qe_psi_spec(m, mean, s2)), times(v(mean), v(mean))) == v(s2),
{
    let mm = mean.mul_spec(mean);
    lemma_times_positive(v(mean), v(mean));
    assert(larger(mm, decimal_of::<T, M>(m, 1, -300)) == mm);
}

/// The square of a shifted normal that a quadratic-exponential step draws has the mean and the
/// variance of the exact distribution. With the factor `a` and the squared shift `b2`, its mean
/// is `a` times one plus `b2`, and its variance twice the square of `a` times one plus twice
/// `b2`.
pub proof fn law_qe_quadratic_moments<T: Number, M: Elementary<T>>(
    m: M,
    v: spec_fn(T) -> real,
    mean: T,
    s2: T,
)
    requires
        exact(v),
        sqrt_exact(m, v),
        v(mean) > 0real,
        times(v(mean), v(mean)) >= v(decimal_of::<T, M>(m, 1, -300)),
        v(s2.div_spec(mean.mul_spec(mean))) >= v(decimal_of::<T, M>(m, 1, -12)) > 0real,
        v(qe_psi_spec(m, mean, s2)) <= v(frac::<T>(3, 2)),
    ensures
        ({
            let (a, b2) = qe_quadratic_spec(m, qe_psi_spec(m, mean, s2), mean);
            let (a, b2) = (v(a), v(b2));
            &&& b2 >= 0real
            &&& times(a, 1real + b2) == v(mean)
            &&& 2real * times(times(a, a), 1real + 2real * b2) == v(s2)
        }),
{
    lemma_psi(m, v, mean, s2);
    let psi = qe_psi_spec(m, mean, s2);
    let y = v(psi);
    let inv = num::<T>(1).div_spec(psi);
    let two = num::<T>(2).mul_spec(inv);
    let less = two.sub_spec(num::<T>(1));
    let root = sqrt_of(m, larger(two.mul_spec(less), num::<T>(0)));
    let (a, b2) = qe_quadratic_spec(m, psi, mean);
    let x = v(two);
    let r = v(root);
    lemma_fraction(v, 3, 2);
    lemma_literal(2real, v(inv));
    lemma_multiple(2real, v(inv), y);
    assert(times(x, y) == 2real);
    assert(x > 1real) by {
        if x <= 1real {
            lemma_times_not_negative(1real - x, y);
            lemma_times_sub(y, 1real, x);
            lemma_times_unit(y);
        }
    }
    lemma_times_positive(x, x - 1real);
    assert(times(r, r) == times(x, x - 1real));
    let w = x + r;
    assert(v(b2) == x - 1real + r);
    assert(times(v(a), w) == v(mean));
    // The square of the sum is the first term times twice the sum less one.
    assert(times(w, w) == times(x, 2real * w - 1real)) by {
        lemma_times_add(w, x, r);
        lemma_times_add(x, x, r);
        lemma_times_add(r, x, r);
        lemma_times_comm(x, r);
        lemma_times_sub(x, x, 1real);
        lemma_times_unit(x);
        lemma_times_sub(x, 2real * w, 1real);
        lemma_multiple(2real, x, w);
    }
    let aa = times(v(a), v(a));
    lemma_square_of_product(v(a), w);
    assert(times(aa, times(w, w)) == times(v(mean), v(mean)));
    // Both sides times the ratio.
    let e = 2real * w - 1real;
    assert(v(s2) == 2real * times(aa, e)) by {
        lemma_times_comm(y, times(v(mean), v(mean)));
        lemma_times_assoc(aa, times(x, e), y);
        lemma_times_comm(x, e);
        lemma_times_assoc(e, x, y);
        lemma_literal(2real, e);
        lemma_multiple(2real, aa, e);
    }
    assert(1real + 2real * v(b2) == e);
}

/// The mixture of zero and an exponential that a quadratic-exponential step draws has the mean
/// and the variance of the exact distribution. With the probability `p` of zero and the rate
/// `beta`, its mean is one less `p` over `beta`, and its variance one less the square of `p` over
/// the square of `beta`.
pub proof fn law_qe_exponential_moments<T: Number, M: Elementary<T>>(
    m: M,
    v: spec_fn(T) -> real,
    mean: T,
    s2: T,
)
    requires
        exact(v),
        v(mean) > 0real,
        v(mean) >= v(decimal_of::<T, M>(m, 1, -300)),
        times(v(mean), v(mean)) >= v(decimal_of::<T, M>(m, 1, -300)),
        v(s2.div_spec(mean.mul_spec(mean))) >= v(decimal_of::<T, M>(m, 1, -12)) > 0real,
    ensures
        ({
            let (p, beta) = qe_exponential_spec(m, qe_psi_spec(m, mean, s2), mean);
            let (p, beta) = (v(p), v(beta));
            &&& times(beta, v(mean)) == 1real - p
            &&& times(times(beta, beta), v(s2)) == 1real - times(p, p)
        }),
{
    lemma_psi(m, v, mean, s2);
    let psi = v(qe_psi_spec(m, mean, s2));
    let (pt, bt) = qe_exponential_spec(m, qe_psi_spec(m, mean, s2), mean);
    let (p, beta) = (v(pt), v(bt));
    let mu = v(mean);
    assert(times(p, psi + 1real) == psi - 1real);
    assert(times(beta, mu) == 1real - p);
    let bb = times(beta, beta);
    lemma_square_of_product(beta, mu);
    lemma_times_comm(psi, times(mu, mu));
    lemma_times_assoc(bb, times(mu, mu), psi);
    let q = 1real - p;
    assert(times(bb, v(s2)) == times(times(q, q), psi));
    // One plus the probability is the ratio times one less it.
    assert(times(q, psi) == 1real + p) by {
        lemma_times_sub(psi, 1real, p);
        lemma_times_unit(psi);
        lemma_times_add(p, psi, 1real);
        lemma_times_unit(p);
    }
    lemma_times_assoc(q, q, psi);
    lemma_difference_of_squares(1real, p);
    lemma_times_unit(1real);
}

/// Exercise is never worth less than nothing, and a call less the put with the same strike is
/// worth the price less the strike.
pub proof fn law_exercise_parity<T: Number>(v: spec_fn(T) -> real, s: T, k: T)
    requires
        exact(v),
    ensures
        v(intrinsic_spec(s, k, OptionType::Call)) >= 0real,
        v(intrinsic_spec(s, k, OptionType::Put)) >= 0real,
        v(intrinsic_spec(s, k, OptionType::Call)) - v(intrinsic_spec(s, k, OptionType::Put)) == v(s)
            - v(k),
{
}

/// A call at a strike of zero pays the price itself.
pub proof fn law_zero_strike_pays_price<T: Number>(v: spec_fn(T) -> real, s: T, k: T)
    requires
        exact(v),
        v(s) >= 0real,
        v(k) == 0real,
    ensures
        v(intrinsic_spec(s, k, OptionType::Call)) == v(s),
{
}

/// Without a rebate a barrier only takes away: on no path does an option that is knocked out
/// pay more than the one that is not.
pub proof fn law_knock_out_pays_no_more<T: Number, M: Elementary<T>>(
    m: M,
    v: spec_fn(T) -> real,
    strike: T,
    barrier: T,
    rebate: T,
    opt_type: OptionType,
    terminal: T,
    running_sum: T,
    running_max: T,
    n_steps: usize,
)
    requires
        exact(v),
        v(rebate) == 0real,
    ensures
        v(
            Payoff::UpAndOut { strike, barrier, rebate, opt_type }.eval_spec(
                m,
                terminal,
                running_sum,
                running_max,
                n_steps,
            ),
        ) <= v(
            Payoff::European { strike, opt_type }.eval_spec(
                m,
                terminal,
                running_sum,
                running_max,
                n_steps,
            ),
        ),
{
    law_exercise_parity(v, terminal, strike);
}

} // verus!
