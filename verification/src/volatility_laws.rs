//! What stands around the search for a volatility: which prices have one, what the search takes
//! for the derivatives of the price; and how the rough kernel is averaged.
use crate::bsm::bsm_price_and_greeks_spec;
use crate::deribit_inverse::{coin_price_in_bounds_spec, CoinIvProblem};
use crate::exact::{
    count_exact, exact, faithful, lemma_literal, lemma_quotient_positive, lemma_sign_of_factor,
    lemma_times_comm, lemma_times_neg, lemma_times_not_negative, lemma_times_positive,
    lemma_times_sub, lemma_times_unit, same_value, times,
};
use crate::iv::{at_vol_spec, discounted_intrinsic_spec, price_in_bounds_spec, vega_and_volga_spec};
use crate::number::{count_of, exp_of, num, powf_of, Elementary, Number};
use crate::rbergomi::{cov_entry, optimal_eval_point_spec};
use crate::rough::tail_weight;
use crate::types::{OptionContract, OptionType};
use vstd::prelude::*;
use vstd::std_specs::cmp::PartialOrdIs;
use vstd::std_specs::ops::{AddSpec, DivSpec, MulSpec, NegSpec, SubSpec};

verus! {

/// What exercising the forward is worth: that of a call less that of a put on the same contract is
/// the price less its yield less the discounted strike, neither is negative, and one of them is
/// zero.
pub proof fn law_intrinsic_parity<T: Number, M: Elementary<T>>(
    m: M,
    v: spec_fn(T) -> real,
    c: OptionContract<T>,
)
    requires
        exact(v),
    ensures
        ({
            let call = v(
                discounted_intrinsic_spec(m, OptionContract { opt_type: OptionType::Call, ..c }),
            );
            let put = v(
                discounted_intrinsic_spec(m, OptionContract { opt_type: OptionType::Put, ..c }),
            );
            let legs = times(
                v(c.spot),
                v(exp_of(m, c.div_yield.neg_spec().mul_spec(c.expiry))),
            ) - times(v(c.strike), v(exp_of(m, c.rate.neg_spec().mul_spec(c.expiry))));
            &&& call - put == legs
            &&& call >= 0real && put >= 0real
            &&& call == 0real || put == 0real
        }),
{
}

/// A price has a volatility to search for if and only if it is positive and no less than what
/// exercising the forward is worth.
pub proof fn law_prices_with_volatility<T: Number, M: Elementary<T>>(
    m: M,
    v: spec_fn(T) -> real,
    c: OptionContract<T>,
    price: T,
)
    requires
        exact(v),
    ensures
        ({
            let legs = times(
                v(c.spot),
                v(exp_of(m, c.div_yield.neg_spec().mul_spec(c.expiry))),
            ) - times(v(c.strike), v(exp_of(m, c.rate.neg_spec().mul_spec(c.expiry))));
            let worth = if c.opt_type is Call {
                legs
            } else {
                -legs
            };
            price_in_bounds_spec(m, c, price) == (v(price) > 0real && v(price) >= worth)
        }),
{
    let worth = discounted_intrinsic_spec(m, c);
    assert(price.is_ge(&worth) == (v(price) >= v(worth)));
    assert(price.is_le(&num::<T>(0)) == (v(price) <= 0real));
}

/// A price in coin has a volatility to search for if and only if it is positive, times the forward
/// no less than exercise is worth, and for a call less than one.
pub proof fn law_coin_prices_with_volatility<T: Number, M: Elementary<T>>(
    m: M,
    v: spec_fn(T) -> real,
    p: CoinIvProblem<T>,
)
    requires
        exact(v),
        v(p.forward) > 0real,
    ensures
        ({
            let (f, k, x) = (v(p.forward), v(p.strike), v(p.market_price_coin));
            coin_price_in_bounds_spec(m, p) == {
                &&& x > 0real
                &&& p.opt_type is Call ==> times(x, f) >= f - k && x < 1real
                &&& p.opt_type is Put ==> times(x, f) >= k - f
            }
        }),
{
    let (f, k, x) = (v(p.forward), v(p.strike), v(p.market_price_coin));
    let sign = p.opt_type.sign_spec::<T>();
    let q = sign.mul_spec(p.forward.sub_spec(p.strike)).div_spec(p.forward);
    let y = v(q);
    lemma_times_unit(f - k);
    assert(times(y, f) == if p.opt_type is Call {
        f - k
    } else {
        k - f
    });
    // Both sides of the comparison times the forward.
    lemma_times_sub(f, x, y);
    lemma_times_comm(f, x - y);
    lemma_times_neg(f, x - y);
    if times(x, f) >= times(y, f) {
        lemma_sign_of_factor(f, x - y);
    }
    if x >= y {
        lemma_times_not_negative(f, x - y);
    }
    assert(p.market_price_coin.is_le(&num::<T>(0)) == (x <= 0real));
    assert(p.market_price_coin.is_ge(&num::<T>(1)) == (x >= 1real));
}

/// The search for a volatility goes by vega and volga of the price at the volatility it stands at.
pub proof fn law_search_goes_by_sensitivities<T: Number, M: Elementary<T>>(
    m: M,
    c: OptionContract<T>,
    vol: T,
)
    ensures
        ({
            let g = bsm_price_and_greeks_spec(m, at_vol_spec(c, vol));
            vega_and_volga_spec(m, c, vol) == (g.vega, g.volga)
        }),
{
}

/// A power is undone by the power of the inverse exponent, and the power of a quotient is the
/// quotient of the powers.
pub open spec fn powers_exact<T: Number, M: Elementary<T>>(m: M, v: spec_fn(T) -> real) -> bool {
    &&& forall|x: T, a: T, b: T|
        v(x) > 0real && times(v(a), v(b)) == 1real ==> #[trigger] powf_of(
            m,
            powf_of(m, x, a),
            b,
        ) == x
    &&& forall|x: T, y: T, z: T, a: T|
        #![trigger powf_of(m, x, a), powf_of(m, y, a), powf_of(m, z, a)]
        v(x) == times(v(y), v(z)) ==> v(powf_of(m, x, a)) == times(
            v(powf_of(m, y, a)),
            v(powf_of(m, z, a)),
        )
}

/// A cell of the tail is evaluated where the kernel has its mean over the cell: the kernel there
/// times its exponent and one is the difference of the powers at the ends of the cell.
pub proof fn law_eval_point_is_mean<T: Number, M: Elementary<T>>(
    m: M,
    v: spec_fn(T) -> real,
    alpha: T,
    k: usize,
    start: T,
    end: T,
    power: T,
)
    requires
        exact(v),
        faithful(v),
        count_exact(m, v),
        powers_exact(m, v),
        v(alpha) != 0real,
        v(power) == v(alpha) + 1real,
        v(power) > 0real,
        v(end) == k as real,
        v(start) == k as real - 1real,
        v(powf_of(m, end, power)) > v(powf_of(m, start, power)),
    ensures
        times(v(powf_of(m, optimal_eval_point_spec(m, alpha, k), alpha)), v(power)) == v(
            powf_of(m, end, power),
        ) - v(powf_of(m, start, power)),
{
    let kf = count_of::<T, M>(m, k);
    let a1 = alpha.add_spec(num::<T>(1));
    assert(same_value(v, a1, power));
    assert(same_value(v, kf, end));
    assert(same_value(v, kf.sub_spec(num::<T>(1)), start));
    let gap = powf_of(m, end, power).sub_spec(powf_of(m, start, power));
    let raw = gap.div_spec(power);
    lemma_quotient_positive(v, gap, power);
    let inv = num::<T>(1).div_spec(alpha);
    assert(times(v(inv), v(alpha)) == 1real);
    assert(powf_of(m, powf_of(m, raw, inv), alpha) == raw);
}

/// The weight of an increment in the tail is the mean of the kernel over its cell on the grid:
/// times the power of the steps a year, and times the exponent of the kernel and one, it is the
/// difference of the powers at the ends of the cell. The increments that are simulated exactly
/// have no weight.
pub proof fn law_tail_weight_is_mean<T: Number, M: Elementary<T>>(
    m: M,
    v: spec_fn(T) -> real,
    alpha: T,
    n: T,
    k: usize,
    start: T,
    end: T,
    power: T,
)
    requires
        exact(v),
        faithful(v),
        count_exact(m, v),
        powers_exact(m, v),
        k >= 3,
        v(n) > 0real,
        v(alpha) != 0real,
        v(power) == v(alpha) + 1real,
        v(power) > 0real,
        v(end) == k as real,
        v(start) == k as real - 1real,
        v(powf_of(m, end, power)) > v(powf_of(m, start, power)),
    ensures
        times(
            times(v(tail_weight(m, alpha, n, k as int)), v(powf_of(m, n, alpha))),
            v(power),
        ) == v(powf_of(m, end, power)) - v(powf_of(m, start, power)),
        v(tail_weight(m, alpha, n, 0)) == 0real,
        v(tail_weight(m, alpha, n, 1)) == 0real,
        v(tail_weight(m, alpha, n, 2)) == 0real,
{
    law_eval_point_is_mean(m, v, alpha, k, start, end, power);
    let b = optimal_eval_point_spec(m, alpha, k);
    let q = b.div_spec(n);
    assert(v(b) == times(v(q), v(n)));
    assert(v(powf_of(m, b, alpha)) == times(v(powf_of(m, q, alpha)), v(powf_of(m, n, alpha))));
}

/// The covariances of the increment with its weighted copies, over the kernel: that of the
/// increment with itself is the length of a step; with the copy for cell `j`, times the exponent
/// of the kernel and one and the power of the steps a year, it is the difference of the powers at
/// the ends of the cell; and the variance of that copy likewise, with twice the exponent.
pub proof fn law_covariance_integrates_kernel<T: Number, M: Elementary<T>>(
    m: M,
    v: spec_fn(T) -> real,
    alpha: T,
    n: T,
    j: int,
    start: T,
    end: T,
    power: T,
    double: T,
)
    requires
        exact(v),
        faithful(v),
        count_exact(m, v),
        1 <= j < usize::MAX,
        v(n) > 0real,
        v(power) == v(alpha) + 1real,
        v(double) == 2real * v(alpha) + 1real,
        v(power) > 0real,
        v(double) > 0real,
        v(end) == j as real,
        v(start) == j as real - 1real,
        v(powf_of(m, n, power)) > 0real,
        v(powf_of(m, n, double)) > 0real,
    ensures
        times(v(cov_entry(m, alpha, n, 0, 0)), v(n)) == 1real,
        times(
            v(cov_entry(m, alpha, n, 0, j)),
            times(v(power), v(powf_of(m, n, power))),
        ) == v(powf_of(m, end, power)) - v(powf_of(m, start, power)),
        times(
            v(cov_entry(m, alpha, n, j, j)),
            times(v(double), v(powf_of(m, n, double))),
        ) == v(powf_of(m, end, double)) - v(powf_of(m, start, double)),
{
    let jf = count_of::<T, M>(m, (j + 1) as usize);
    assert(v(jf) == (j + 1) as real);
    assert(same_value(v, alpha.add_spec(num::<T>(1)), power));
    lemma_literal(2real, v(alpha));
    assert(same_value(v, num::<T>(2).mul_spec(alpha).add_spec(num::<T>(1)), double));
    assert(same_value(v, jf.sub_spec(num::<T>(1)), end));
    assert(same_value(v, jf.sub_spec(num::<T>(2)), start));
    lemma_times_positive(v(power), v(powf_of(m, n, power)));
    lemma_times_positive(v(double), v(powf_of(m, n, double)));
}

} // verus!
