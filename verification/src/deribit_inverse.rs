//! Inverse options, settled in the coin they are written on: prices, sensitivities and
//! implied volatilities in coin.
use crate::bsm::{black76_price_and_greeks_spec, law_ncdf_reflects};
use crate::exact::{
    erfc_reflects, exact, exact_at_zero, faithful, lemma_times_add, lemma_times_assoc,
    lemma_times_cancel, lemma_times_comm, lemma_times_neg, lemma_times_sub, lemma_times_unit,
    same_value, times,
};
use crate::math::{ncdf, ncdf_spec, npdf, npdf_spec};
use crate::mc::McResult;
use crate::number::{
    abs, clamp, clamped, decimal_of, exp_of, fmax, frac, larger, lawful, ln_of, magnitude, num,
    ratio, sqrt_of, whole, Elementary, Number,
};
use crate::solver::{
    bisect, bisect_spec, halley_from, halley_solve, law_halley_answer_is_root, MAX_ITER,
};
use crate::types::OptionType;
use core::ops::Neg;
use vstd::prelude::*;
use vstd::std_specs::cmp::PartialOrdIs;
use vstd::std_specs::ops::{AddSpec, DivSpec, MulSpec, NegSpec, SubSpec};

verus! {

/// A price in coin and its sensitivities: delta and gamma to the forward, vega per unit of
/// volatility, theta per year.
#[derive(Debug, Clone, Copy, Default)]
pub struct InverseGreeks<T> {
    pub price_coin: T,
    pub delta: T,
    pub gamma: T,
    pub vega: T,
    pub theta: T,
    pub vanna: T,
    pub volga: T,
}

/// The two arguments of the normal distribution.
pub open spec fn d1_d2_spec<T: Number, M: Elementary<T>>(
    m: M,
    forward: T,
    strike: T,
    vol: T,
    t: T,
) -> (T, T) {
    let sqrt_t = sqrt_of(m, t);
    let d1 = ln_of(m, forward.div_spec(strike)).add_spec(
        frac::<T>(1, 2).mul_spec(vol).mul_spec(vol).mul_spec(t),
    ).div_spec(vol.mul_spec(sqrt_t));
    (d1, d1.sub_spec(vol.mul_spec(sqrt_t)))
}

/// The two arguments of the normal distribution.
pub fn d1_d2<T: Number, M: Elementary<T>>(
    m: M,
    forward: T,
    strike: T,
    vol: T,
    t: T,
) -> (res: (T, T))
    requires
        lawful::<T, M>(m),
    ensures
        res == d1_d2_spec(m, forward, strike, vol, t),
{
    let sqrt_t = m.sqrt(t);
    let d1 = (m.ln(forward / strike) + ratio::<T>(1, 2) * vol * vol * t) / (vol * sqrt_t);
    (d1, d1 - vol * sqrt_t)
}

/// What exercise is worth in coin: the distance from the strike over the forward, or zero.
pub open spec fn coin_intrinsic_spec<T: Number, M: Elementary<T>>(
    m: M,
    opt_type: OptionType,
    forward: T,
    strike: T,
) -> T {
    larger(
        opt_type.sign_spec::<T>().mul_spec(forward.sub_spec(strike)).div_spec(forward),
        num::<T>(0),
    )
}

/// What exercise is worth in coin: the distance from the strike over the forward, or zero.
pub fn coin_intrinsic<T: Number, M: Elementary<T>>(
    m: M,
    opt_type: OptionType,
    forward: T,
    strike: T,
) -> (res: T)
    requires
        lawful::<T, M>(m),
    ensures
        res == coin_intrinsic_spec(m, opt_type, forward, strike),
{
    fmax(opt_type.sign::<T>() * (forward - strike) / forward, whole::<T>(0))
}

/// The price in coin by the formula in the forward.
pub open spec fn coin_formula_spec<T: Number, M: Elementary<T>>(
    m: M,
    opt_type: OptionType,
    forward: T,
    strike: T,
    vol: T,
    t: T,
) -> T {
    let phi = opt_type.sign_spec::<T>();
    let (d1, d2) = d1_d2_spec(m, forward, strike, vol, t);
    phi.mul_spec(ncdf_spec(m, phi.mul_spec(d1))).sub_spec(
        phi.mul_spec(strike.div_spec(forward)).mul_spec(ncdf_spec(m, phi.mul_spec(d2))),
    )
}

/// The price in coin by the formula in the forward.
pub fn coin_formula<T: Number, M: Elementary<T>>(
    m: M,
    opt_type: OptionType,
    forward: T,
    strike: T,
    vol: T,
    t: T,
) -> (res: T)
    requires
        lawful::<T, M>(m),
    ensures
        res == coin_formula_spec(m, opt_type, forward, strike, vol, t),
{
    let phi = opt_type.sign::<T>();
    let (d1, d2) = d1_d2(m, forward, strike, vol, t);
    phi * ncdf(m, phi * d1) - phi * (strike / forward) * ncdf(m, phi * d2)
}

/// The price in coin: at expiry, and without volatility, what exercise is worth.
pub open spec fn price_coin_spec<T: Number, M: Elementary<T>>(
    m: M,
    opt_type: OptionType,
    forward: T,
    strike: T,
    vol: T,
    t: T,
) -> T {
    if t.is_le(&num::<T>(0)) || vol.is_le(&num::<T>(0)) {
        coin_intrinsic_spec(m, opt_type, forward, strike)
    } else {
        coin_formula_spec(m, opt_type, forward, strike, vol, t)
    }
}

/// The price in coin.
pub fn price_coin<T: Number, M: Elementary<T>>(
    m: M,
    opt_type: OptionType,
    forward: T,
    strike: T,
    vol: T,
    t: T,
) -> (res: T)
    requires
        lawful::<T, M>(m),
    ensures
        res == price_coin_spec(m, opt_type, forward, strike, vol, t),
{
    if t <= whole::<T>(0) || vol <= whole::<T>(0) {
        coin_intrinsic(m, opt_type, forward, strike)
    } else {
        coin_formula(m, opt_type, forward, strike, vol, t)
    }
}

/// The sensitivities by the formulas in the forward.
pub open spec fn coin_greeks_spec<T: Number, M: Elementary<T>>(
    m: M,
    opt_type: OptionType,
    forward: T,
    strike: T,
    vol: T,
    t: T,
    price_coin: T,
) -> InverseGreeks<T> {
    let phi = opt_type.sign_spec::<T>();
    let (d1, d2) = d1_d2_spec(m, forward, strike, vol, t);
    let sqrt_t = sqrt_of(m, t);
    let k_over_f2 = strike.div_spec(forward.mul_spec(forward));
    let k_over_f3 = k_over_f2.div_spec(forward);
    let nd2 = ncdf_spec(m, phi.mul_spec(d2));
    let npd2 = npdf_spec(m, d2);
    let vega = strike.div_spec(forward).mul_spec(npd2).mul_spec(sqrt_t);
    InverseGreeks {
        price_coin,
        delta: phi.mul_spec(k_over_f2).mul_spec(nd2),
        gamma: k_over_f3.mul_spec(
            npd2.div_spec(vol.mul_spec(sqrt_t)).sub_spec(phi.mul_spec(num::<T>(2)).mul_spec(nd2)),
        ),
        vega,
        theta: strike.div_spec(forward).neg_spec().mul_spec(npd2).mul_spec(vol).div_spec(
            num::<T>(2).mul_spec(sqrt_t),
        ),
        vanna: k_over_f2.neg_spec().mul_spec(npd2).mul_spec(d1).div_spec(vol),
        volga: vega.mul_spec(d1).mul_spec(d2).div_spec(vol),
    }
}

/// The sensitivities by the formulas in the forward.
pub fn coin_greeks<T: Number, M: Elementary<T>>(
    m: M,
    opt_type: OptionType,
    forward: T,
    strike: T,
    vol: T,
    t: T,
    price_coin: T,
) -> (res: InverseGreeks<T>)
    requires
        lawful::<T, M>(m),
    ensures
        res == coin_greeks_spec(m, opt_type, forward, strike, vol, t, price_coin),
{
    let phi = opt_type.sign::<T>();
    let (d1, d2) = d1_d2(m, forward, strike, vol, t);
    let sqrt_t = m.sqrt(t);
    let k_over_f2 = strike / (forward * forward);
    let k_over_f3 = k_over_f2 / forward;
    let nd2 = ncdf(m, phi * d2);
    let npd2 = npdf(m, d2);
    let vega = strike / forward * npd2 * sqrt_t;
    InverseGreeks {
        price_coin,
        delta: phi * k_over_f2 * nd2,
        gamma: k_over_f3 * (npd2 / (vol * sqrt_t) - phi * whole::<T>(2) * nd2),
        vega,
        theta: (strike / forward).neg() * npd2 * vol / (whole::<T>(2) * sqrt_t),
        vanna: k_over_f2.neg() * npd2 * d1 / vol,
        volga: vega * d1 * d2 / vol,
    }
}

/// The price in coin and its sensitivities; at expiry, and without volatility, they are
/// zero.
pub open spec fn greeks_spec<T: Number, M: Elementary<T>>(
    m: M,
    opt_type: OptionType,
    forward: T,
    strike: T,
    vol: T,
    t: T,
) -> InverseGreeks<T> {
    let price_coin = price_coin_spec(m, opt_type, forward, strike, vol, t);
    if t.is_le(&num::<T>(0)) || vol.is_le(&num::<T>(0)) {
        InverseGreeks {
            price_coin,
            delta: num::<T>(0),
            gamma: num::<T>(0),
            vega: num::<T>(0),
            theta: num::<T>(0),
            vanna: num::<T>(0),
            volga: num::<T>(0),
        }
    } else {
        coin_greeks_spec(m, opt_type, forward, strike, vol, t, price_coin)
    }
}

/// The price in coin and its sensitivities.
pub fn greeks<T: Number, M: Elementary<T>>(
    m: M,
    opt_type: OptionType,
    forward: T,
    strike: T,
    vol: T,
    t: T,
) -> (res: InverseGreeks<T>)
    requires
        lawful::<T, M>(m),
    ensures
        res == greeks_spec(m, opt_type, forward, strike, vol, t),
{
    let price = price_coin(m, opt_type, forward, strike, vol, t);
    if t <= whole::<T>(0) || vol <= whole::<T>(0) {
        InverseGreeks {
            price_coin: price,
            delta: whole::<T>(0),
            gamma: whole::<T>(0),
            vega: whole::<T>(0),
            theta: whole::<T>(0),
            vanna: whole::<T>(0),
            volga: whole::<T>(0),
        }
    } else {
        coin_greeks(m, opt_type, forward, strike, vol, t, price)
    }
}

/// An inverse option whose volatility is to be found from its price in coin.
#[derive(Debug, Clone, Copy)]
pub struct CoinIvProblem<T> {
    pub forward: T,
    pub strike: T,
    pub expiry: T,
    pub opt_type: OptionType,
    pub market_price_coin: T,
}

/// Whether a volatility can exist for the price: it is positive, not below what exercise is
/// worth, and for a call below one coin. The price of a put has no such bound.
pub open spec fn coin_price_in_bounds_spec<T: Number, M: Elementary<T>>(
    m: M,
    p: CoinIvProblem<T>,
) -> bool {
    !p.market_price_coin.is_le(&num::<T>(0))
        && !p.market_price_coin.is_lt(&coin_intrinsic_spec(m, p.opt_type, p.forward, p.strike))
        && !((p.opt_type is Call) && p.market_price_coin.is_ge(&num::<T>(1)))
}

/// Whether a volatility can exist for the price: it is positive, not below what exercise is
/// worth, and for a call below one coin. The price of a put has no such bound.
pub fn coin_price_in_bounds<T: Number, M: Elementary<T>>(m: M, p: &CoinIvProblem<T>) -> (res: bool)
    requires
        lawful::<T, M>(m),
    ensures
        res == coin_price_in_bounds_spec(m, *p),
{
    !(p.market_price_coin <= whole::<T>(0))
        && !(p.market_price_coin < coin_intrinsic(m, p.opt_type, p.forward, p.strike))
        && !(matches!(p.opt_type, OptionType::Call) && p.market_price_coin >= whole::<T>(1))
}

/// The volatility that the at-the-money approximation gives, adjusted for moneyness and
/// kept between a tenth of a percent and a thousand percent.
pub open spec fn coin_atm_guess_spec<T: Number, M: Elementary<T>>(m: M, p: CoinIvProblem<T>) -> T {
    let bs = p.market_price_coin.mul_spec(
        sqrt_of(
            m,
            num::<T>(2).mul_spec(decimal_of::<T, M>(m, 3141592653589793, -15)).div_spec(p.expiry),
        ),
    );
    let x = ln_of(m, p.forward.div_spec(p.strike));
    clamped(
        bs.div_spec(larger(exp_of(m, frac::<T>(-1, 2).mul_spec(x).mul_spec(x)), frac::<T>(1, 100))),
        frac::<T>(1, 1000),
        num::<T>(10),
    )
}

/// The volatility that the at-the-money approximation gives, adjusted for moneyness and
/// kept between a tenth of a percent and a thousand percent.
pub fn coin_atm_guess<T: Number, M: Elementary<T>>(m: M, p: &CoinIvProblem<T>) -> (res: T)
    requires
        lawful::<T, M>(m),
    ensures
        res == coin_atm_guess_spec(m, *p),
{
    let bs = p.market_price_coin
        * m.sqrt(whole::<T>(2) * m.decimal(3141592653589793, -15) / p.expiry);
    let x = m.ln(p.forward / p.strike);
    clamp(
        bs / fmax(m.exp(ratio::<T>(-1, 2) * x * x), ratio::<T>(1, 100)),
        ratio::<T>(1, 1000),
        whole::<T>(10),
    )
}

/// By how much the price at volatility `v` exceeds the market's.
pub open spec fn coin_excess<T: Number, M: Elementary<T>>(m: M, p: CoinIvProblem<T>) -> spec_fn(
    T,
) -> T {
    |v: T|
        price_coin_spec(m, p.opt_type, p.forward, p.strike, v, p.expiry).sub_spec(
            p.market_price_coin,
        )
}

/// The first and second derivatives of the price in volatility.
pub open spec fn coin_slopes<T: Number, M: Elementary<T>>(m: M, p: CoinIvProblem<T>) -> spec_fn(
    T,
) -> (T, T) {
    |v: T|
        {
            let g = greeks_spec(m, p.opt_type, p.forward, p.strike, v, p.expiry);
            (g.vega, g.volga)
        }
}

/// Where the search starts: at the approximation if it prices within a fifth of the market,
/// else at the end of a bisection.
pub open spec fn coin_initial_guess_spec<T: Number, M: Elementary<T>>(
    m: M,
    p: CoinIvProblem<T>,
) -> Option<T> {
    let v0 = coin_atm_guess_spec(m, p);
    let target = p.market_price_coin;
    if magnitude(coin_excess(m, p)(v0)).is_lt(&frac::<T>(1, 5).mul_spec(target)) {
        Some(v0)
    } else {
        bisect_spec(m, coin_excess(m, p))
    }
}

/// Where the search starts.
pub fn coin_initial_guess<T: Number, M: Elementary<T>>(
    m: M,
    p: &CoinIvProblem<T>,
) -> (res: Option<T>)
    requires
        lawful::<T, M>(m),
    ensures
        res == coin_initial_guess_spec(m, *p),
{
    let v0 = coin_atm_guess(m, p);
    let target = p.market_price_coin;
    let off = price_coin(m, p.opt_type, p.forward, p.strike, v0, p.expiry) - target;
    if abs(off) < ratio::<T>(1, 5) * target {
        return Some(v0);
    }
    let f = |v: T| -> (r: T)
        ensures
            r == coin_excess(m, *p)(v),
        { price_coin(m, p.opt_type, p.forward, p.strike, v, p.expiry) - p.market_price_coin };
    bisect(m, f, Ghost(coin_excess(m, *p)))
}

/// The implied volatility of the problem: `None` where no volatility can exist for the
/// price, where no starting point is found, and where the search from it fails.
pub open spec fn implied_vol_coin_spec<T: Number, M: Elementary<T>>(
    m: M,
    p: CoinIvProblem<T>,
) -> Option<T> {
    if !coin_price_in_bounds_spec(m, p) {
        None
    } else {
        match coin_initial_guess_spec(m, p) {
            None => None,
            Some(v0) => halley_from(
                m,
                coin_excess(m, p),
                coin_slopes(m, p),
                v0,
                MAX_ITER as nat,
            ),
        }
    }
}

/// The implied volatility of the problem.
pub fn implied_vol_coin<T: Number, M: Elementary<T>>(m: M, p: &CoinIvProblem<T>) -> (res: Option<T>)
    requires
        lawful::<T, M>(m),
    ensures
        res == implied_vol_coin_spec(m, *p),
{
    if !coin_price_in_bounds(m, p) {
        return None;
    }
    match coin_initial_guess(m, p) {
        None => None,
        Some(v0) => {
            let f = |v: T| -> (r: T)
                ensures
                    r == coin_excess(m, *p)(v),
                {
                    price_coin(m, p.opt_type, p.forward, p.strike, v, p.expiry)
                        - p.market_price_coin
                };
            let g = |v: T| -> (r: (T, T))
                ensures
                    r == coin_slopes(m, *p)(v),
                {
                    let s = greeks(m, p.opt_type, p.forward, p.strike, v, p.expiry);
                    (s.vega, s.volga)
                };
            halley_solve(m, f, g, v0, Ghost(coin_excess(m, *p)), Ghost(coin_slopes(m, *p)))
        },
    }
}

/// The result of a simulation in money as one in coin: the discounted price over the spot,
/// grown by the dividend yield. The standard error scales alike.
pub open spec fn mc_result_to_coin_spec<T: Number, M: Elementary<T>>(
    m: M,
    usd_result: McResult<T>,
    spot: T,
    div_yield: T,
    expiry: T,
) -> McResult<T> {
    let scale = exp_of(m, div_yield.mul_spec(expiry)).div_spec(spot);
    McResult {
        price: usd_result.price.mul_spec(scale),
        std_error: usd_result.std_error.mul_spec(scale),
    }
}

/// The result of a simulation in money as one in coin: the discounted price over the spot,
/// grown by the dividend yield. The standard error scales alike.
pub fn mc_result_to_coin<T: Number, M: Elementary<T>>(
    m: M,
    usd_result: McResult<T>,
    spot: T,
    div_yield: T,
    expiry: T,
) -> (res: McResult<T>)
    requires
        lawful::<T, M>(m),
    ensures
        res == mc_result_to_coin_spec(m, usd_result, spot, div_yield, expiry),
{
    let scale = m.exp(div_yield * expiry) / spot;
    McResult { price: usd_result.price * scale, std_error: usd_result.std_error * scale }
}

/// An implied volatility reprices the option: the price at it is within a millionth of the
/// market's. There is none for a price that is not positive or is below what exercise is
/// worth, nor for a call at a coin or more.
pub proof fn law_coin_implied_vol_reprices<T: Number, M: Elementary<T>>(m: M, p: CoinIvProblem<T>)
    ensures
        implied_vol_coin_spec(m, p) matches Some(v) ==> {
            let err = magnitude(
                price_coin_spec(m, p.opt_type, p.forward, p.strike, v, p.expiry).sub_spec(
                    p.market_price_coin,
                ),
            );
            &&& coin_price_in_bounds_spec(m, p)
            &&& err.is_lt(&decimal_of::<T, M>(m, 1, -10))
                || err.is_lt(&decimal_of::<T, M>(m, 1, -6))
        },
{
    if let Some(v0) = coin_initial_guess_spec(m, p) {
        law_halley_answer_is_root(m, coin_excess(m, p), coin_slopes(m, p), v0, MAX_ITER as nat);
    }
}

/// Puts and calls in coin are in parity: without rounding, a call less the put on the same terms
/// is one coin less the strike over the forward, before expiry and at it.
pub proof fn law_coin_parity<T: Number, M: Elementary<T>>(
    m: M,
    v: spec_fn(T) -> real,
    forward: T,
    strike: T,
    vol: T,
    t: T,
)
    requires
        exact(v),
        erfc_reflects(m, v),
        v(forward) > 0real,
    ensures
        v(price_coin_spec(m, OptionType::Call, forward, strike, vol, t)) - v(
            price_coin_spec(m, OptionType::Put, forward, strike, vol, t),
        ) == 1real - v(strike.div_spec(forward)),
{
    let (one, minus) = (num::<T>(1), num::<T>(-1));
    let k = v(strike.div_spec(forward));
    if t.is_le(&num::<T>(0)) || vol.is_le(&num::<T>(0)) {
        let gap = v(forward) - v(strike);
        lemma_times_unit(gap);
        let up = v(one.mul_spec(forward.sub_spec(strike)).div_spec(forward));
        let dn = v(minus.mul_spec(forward.sub_spec(strike)).div_spec(forward));
        lemma_times_sub(v(forward), 1real, k);
        lemma_times_unit(v(forward));
        lemma_times_cancel(up, 1real - k, v(forward));
        lemma_times_neg(up, v(forward));
        lemma_times_cancel(dn, -up, v(forward));
    } else {
        let (d1, d2) = d1_d2_spec(m, forward, strike, vol, t);
        lemma_times_unit(v(d1));
        lemma_times_unit(v(d2));
        law_ncdf_reflects(m, v, one.mul_spec(d1), minus.mul_spec(d1));
        law_ncdf_reflects(m, v, one.mul_spec(d2), minus.mul_spec(d2));
        let n1 = v(ncdf_spec(m, one.mul_spec(d1)));
        let m1 = v(ncdf_spec(m, minus.mul_spec(d1)));
        let n2 = v(ncdf_spec(m, one.mul_spec(d2)));
        let m2 = v(ncdf_spec(m, minus.mul_spec(d2)));
        lemma_times_unit(n1);
        lemma_times_unit(m1);
        lemma_times_unit(k);
        lemma_times_neg(k, m2);
        lemma_times_add(k, n2, m2);
    }
}

/// The price in coin is the Black-76 price over the forward, at a rate of zero.
pub proof fn law_coin_is_black76_over_forward<T: Number, M: Elementary<T>>(
    m: M,
    v: spec_fn(T) -> real,
    opt_type: OptionType,
    forward: T,
    strike: T,
    vol: T,
    t: T,
)
    requires
        exact(v),
        faithful(v),
        exact_at_zero(m, v),
        v(forward) > 0real,
        v(vol) > 0real,
        v(t) > 0real,
    ensures
        times(v(price_coin_spec(m, opt_type, forward, strike, vol, t)), v(forward)) == v(
            black76_price_and_greeks_spec(
                m,
                forward,
                strike,
                t,
                num::<T>(0),
                vol,
                opt_type,
            ).price,
        ),
{
    let zero = num::<T>(0);
    let rt = zero.neg_spec().mul_spec(t);
    lemma_times_unit(v(t));
    assert(same_value(v, rt, zero));
    let phi = opt_type.sign_spec::<T>();
    let (d1, d2) = d1_d2_spec(m, forward, strike, vol, t);
    let p = v(phi);
    let n1 = v(ncdf_spec(m, phi.mul_spec(d1)));
    let n2 = v(ncdf_spec(m, phi.mul_spec(d2)));
    let f = v(forward);
    let k = v(strike.div_spec(forward));
    lemma_times_unit(p);
    lemma_times_sub(f, times(p, n1), times(times(p, k), n2));
    lemma_times_sub(p, times(f, n1), times(v(strike), n2));
    lemma_times_assoc(p, n1, f);
    lemma_times_comm(n1, f);
    lemma_times_assoc(p, k, n2);
    lemma_times_assoc(p, times(k, n2), f);
    lemma_times_comm(k, n2);
    lemma_times_assoc(n2, k, f);
    lemma_times_comm(n2, v(strike));
}

/// The change to coin scales a price and its standard error alike.
pub proof fn law_coin_result_scales<T: Number, M: Elementary<T>>(
    m: M,
    v: spec_fn(T) -> real,
    r: McResult<T>,
    spot: T,
    div_yield: T,
    expiry: T,
)
    requires
        exact(v),
    ensures
        ({
            let c = mc_result_to_coin_spec(m, r, spot, div_yield, expiry);
            times(v(c.price), v(r.std_error)) == times(v(r.price), v(c.std_error))
        }),
{
    let s = v(exp_of(m, div_yield.mul_spec(expiry)).div_spec(spot));
    lemma_times_assoc(v(r.price), s, v(r.std_error));
    lemma_times_comm(s, v(r.std_error));
}

} // verus!
