//! Implied volatility: the volatility at which the Black-Scholes-Merton price is the
//! market's.
use crate::bsm::{bsm_price, bsm_price_spec};
use crate::exact::{exact, lemma_fraction, positive_functions};
use crate::math::{npdf, npdf_spec};
use crate::number::{
    abs, clamp, clamped, decimal_of, exp_of, fmax, frac, larger, lawful, ln_of, magnitude, num,
    ratio, sqrt_of, whole, Elementary, Number,
};
use crate::solver::{
    bisect, bisect_spec, halley_from, halley_solve, law_bisection_is_positive,
    law_halley_answer_is_positive, law_halley_answer_is_root, MAX_HALVINGS, MAX_ITER,
};
use crate::types::{IvProblem, OptionContract, OptionType};
use core::ops::Neg;
use vstd::prelude::*;
use vstd::std_specs::cmp::PartialOrdIs;
use vstd::std_specs::ops::{AddSpec, DivSpec, MulSpec, NegSpec, SubSpec};

verus! {

/// The contract `c` at volatility `v`.
pub open spec fn at_vol_spec<T>(c: OptionContract<T>, v: T) -> OptionContract<T> {
    OptionContract { vol: v, ..c }
}

/// The contract `c` at volatility `v`.
pub fn at_vol<T: Copy>(c: &OptionContract<T>, v: T) -> (res: OptionContract<T>)
    ensures
        res == at_vol_spec(*c, v),
{
    OptionContract {
        spot: c.spot,
        strike: c.strike,
        expiry: c.expiry,
        rate: c.rate,
        div_yield: c.div_yield,
        vol: v,
        opt_type: c.opt_type,
    }
}

/// What exercising the forward is worth today: the discounted forward against the
/// discounted strike, or zero.
pub open spec fn discounted_intrinsic_spec<T: Number, M: Elementary<T>>(
    m: M,
    c: OptionContract<T>,
) -> T {
    let er = exp_of(m, c.rate.neg_spec().mul_spec(c.expiry));
    let eq = exp_of(m, c.div_yield.neg_spec().mul_spec(c.expiry));
    if c.opt_type is Call {
        larger(c.spot.mul_spec(eq).sub_spec(c.strike.mul_spec(er)), num::<T>(0))
    } else {
        larger(c.strike.mul_spec(er).sub_spec(c.spot.mul_spec(eq)), num::<T>(0))
    }
}

/// What exercising the forward is worth today: the discounted forward against the
/// discounted strike, or zero.
pub fn discounted_intrinsic<T: Number, M: Elementary<T>>(m: M, c: &OptionContract<T>) -> (res: T)
    requires
        lawful::<T, M>(m),
    ensures
        res == discounted_intrinsic_spec(m, *c),
{
    let er = m.exp(c.rate.neg() * c.expiry);
    let eq = m.exp(c.div_yield.neg() * c.expiry);
    if matches!(c.opt_type, OptionType::Call) {
        fmax(c.spot * eq - c.strike * er, whole::<T>(0))
    } else {
        fmax(c.strike * er - c.spot * eq, whole::<T>(0))
    }
}

/// Whether a volatility can exist for the price: it is positive and not below intrinsic.
pub open spec fn price_in_bounds_spec<T: Number, M: Elementary<T>>(
    m: M,
    c: OptionContract<T>,
    price: T,
) -> bool {
    !price.is_le(&num::<T>(0)) && price.is_ge(&discounted_intrinsic_spec(m, c))
}

/// Whether a volatility can exist for the price: it is positive and not below intrinsic.
pub fn price_in_bounds<T: Number, M: Elementary<T>>(
    m: M,
    c: &OptionContract<T>,
    price: T,
) -> (res: bool)
    requires
        lawful::<T, M>(m),
    ensures
        res == price_in_bounds_spec(m, *c, price),
{
    !(price <= whole::<T>(0)) && price >= discounted_intrinsic(m, c)
}

/// The volatility that the at-the-money approximation of Brenner and Subrahmanyam gives,
/// adjusted for moneyness and kept between a tenth of a percent and a thousand percent.
pub open spec fn atm_guess_spec<T: Number, M: Elementary<T>>(
    m: M,
    c: OptionContract<T>,
    price: T,
) -> T {
    let er = exp_of(m, c.rate.neg_spec().mul_spec(c.expiry));
    let eq = exp_of(m, c.div_yield.neg_spec().mul_spec(c.expiry));
    let fwd = c.spot.mul_spec(eq).div_spec(er);
    let bs = price.mul_spec(
        sqrt_of(
            m,
            num::<T>(2).mul_spec(decimal_of::<T, M>(m, 3141592653589793, -15)).div_spec(c.expiry),
        ),
    ).div_spec(fwd.mul_spec(er));
    let x = ln_of(m, fwd.div_spec(c.strike));
    clamped(
        bs.div_spec(larger(exp_of(m, frac::<T>(-1, 2).mul_spec(x).mul_spec(x)), frac::<T>(1, 100))),
        frac::<T>(1, 1000),
        num::<T>(10),
    )
}

/// The volatility that the at-the-money approximation of Brenner and Subrahmanyam gives,
/// adjusted for moneyness and kept between a tenth of a percent and a thousand percent.
pub fn atm_guess<T: Number, M: Elementary<T>>(m: M, c: &OptionContract<T>, price: T) -> (res: T)
    requires
        lawful::<T, M>(m),
    ensures
        res == atm_guess_spec(m, *c, price),
{
    let er = m.exp(c.rate.neg() * c.expiry);
    let eq = m.exp(c.div_yield.neg() * c.expiry);
    let fwd = c.spot * eq / er;
    let bs = price * m.sqrt(whole::<T>(2) * m.decimal(3141592653589793, -15) / c.expiry)
        / (fwd * er);
    let x = m.ln(fwd / c.strike);
    clamp(
        bs / fmax(m.exp(ratio::<T>(-1, 2) * x * x), ratio::<T>(1, 100)),
        ratio::<T>(1, 1000),
        whole::<T>(10),
    )
}

/// The first and second derivatives of the price in volatility.
pub open spec fn vega_and_volga_spec<T: Number, M: Elementary<T>>(
    m: M,
    c: OptionContract<T>,
    v: T,
) -> (T, T) {
    let vt = v.mul_spec(sqrt_of(m, c.expiry));
    let d1 = ln_of(m, c.spot.div_spec(c.strike)).add_spec(
        c.rate.sub_spec(c.div_yield).add_spec(
            frac::<T>(1, 2).mul_spec(v).mul_spec(v),
        ).mul_spec(c.expiry),
    ).div_spec(vt);
    let d2 = d1.sub_spec(vt);
    let eq = exp_of(m, c.div_yield.neg_spec().mul_spec(c.expiry));
    let npd1 = npdf_spec(m, d1);
    let sqt = sqrt_of(m, c.expiry);
    let vega = c.spot.mul_spec(eq).mul_spec(npd1).mul_spec(sqt);
    (vega, vega.mul_spec(d1).mul_spec(d2).div_spec(v))
}

/// The first and second derivatives of the price in volatility.
pub fn vega_and_volga<T: Number, M: Elementary<T>>(
    m: M,
    c: &OptionContract<T>,
    v: T,
) -> (res: (T, T))
    requires
        lawful::<T, M>(m),
    ensures
        res == vega_and_volga_spec(m, *c, v),
{
    let vt = v * m.sqrt(c.expiry);
    let d1 = (
        m.ln(c.spot / c.strike) + (c.rate - c.div_yield + ratio::<T>(1, 2) * v * v) * c.expiry
    )
        / vt;
    let d2 = d1 - vt;
    let eq = m.exp(c.div_yield.neg() * c.expiry);
    let npd1 = npdf(m, d1);
    let sqt = m.sqrt(c.expiry);
    let vega = c.spot * eq * npd1 * sqt;
    (vega, vega * d1 * d2 / v)
}

/// By how much the price at volatility `v` exceeds `target`.
pub open spec fn excess<T: Number, M: Elementary<T>>(
    m: M,
    c: OptionContract<T>,
    target: T,
) -> spec_fn(T) -> T {
    |v: T| bsm_price_spec(m, at_vol_spec(c, v)).sub_spec(target)
}

/// Where the search starts: at the approximation if it prices within a fifth of the target,
/// else at the end of a bisection; `None` if the bisection finds no change of sign.
pub open spec fn initial_guess_spec<T: Number, M: Elementary<T>>(
    m: M,
    c: OptionContract<T>,
    price: T,
) -> Option<T> {
    let v0 = atm_guess_spec(m, c, price);
    if magnitude(excess(m, c, price)(v0)).is_lt(&frac::<T>(1, 5).mul_spec(price)) {
        Some(v0)
    } else {
        bisect_spec(m, excess(m, c, price))
    }
}

/// Where the search starts.
pub fn initial_guess<T: Number, M: Elementary<T>>(m: M, c: &OptionContract<T>, price: T) -> (res:
    Option<T>)
    requires
        lawful::<T, M>(m),
    ensures
        res == initial_guess_spec(m, *c, price),
{
    let v0 = atm_guess(m, c, price);
    if abs(bsm_price(m, &at_vol(c, v0)) - price) < ratio::<T>(1, 5) * price {
        return Some(v0);
    }
    let f = |v: T| -> (r: T)
        requires
            lawful::<T, M>(m),
        ensures
            r == excess(m, *c, price)(v),
        { bsm_price(m, &at_vol(c, v)) - price };
    bisect(m, f, Ghost(excess(m, *c, price)))
}

/// The implied volatility of the problem: `None` where no volatility can exist for the
/// price, where no starting point is found, and where the search from it fails.
pub open spec fn implied_vol_spec<T: Number, M: Elementary<T>>(m: M, prob: IvProblem<T>) -> Option<
    T,
> {
    let c = prob.contract;
    let mkt = prob.market_price;
    if !price_in_bounds_spec(m, c, mkt) {
        None
    } else {
        match initial_guess_spec(m, c, mkt) {
            None => None,
            Some(v0) => halley_from(
                m,
                excess(m, c, mkt),
                |v: T| vega_and_volga_spec(m, c, v),
                v0,
                MAX_ITER as nat,
            ),
        }
    }
}

/// The implied volatility of the problem.
pub fn implied_vol<T: Number, M: Elementary<T>>(m: M, prob: &IvProblem<T>) -> (res: Option<T>)
    requires
        lawful::<T, M>(m),
    ensures
        res == implied_vol_spec(m, *prob),
{
    let c = &prob.contract;
    let mkt = prob.market_price;
    if !price_in_bounds(m, c, mkt) {
        return None;
    }
    match initial_guess(m, c, mkt) {
        None => None,
        Some(v0) => {
            let f = |v: T| -> (r: T)
                requires
                    lawful::<T, M>(m),
                ensures
                    r == excess(m, *c, mkt)(v),
                { bsm_price(m, &at_vol(c, v)) - mkt };
            let g = |v: T| -> (r: (T, T))
                requires
                    lawful::<T, M>(m),
                ensures
                    r == vega_and_volga_spec(m, *c, v),
                { vega_and_volga(m, c, v) };
            halley_solve(
                m,
                f,
                g,
                v0,
                Ghost(excess(m, *c, mkt)),
                Ghost(|v: T| vega_and_volga_spec(m, *c, v)),
            )
        },
    }
}

/// An implied volatility reprices the option: the price at it is within a millionth of the
/// market's. There is none for a price that is not positive or is below intrinsic.
pub proof fn law_implied_vol_reprices<T: Number, M: Elementary<T>>(m: M, prob: IvProblem<T>)
    ensures
        implied_vol_spec(m, prob) matches Some(v) ==> {
            let err = magnitude(
                bsm_price_spec(m, at_vol_spec(prob.contract, v)).sub_spec(prob.market_price),
            );
            &&& price_in_bounds_spec(m, prob.contract, prob.market_price)
            &&& err.is_lt(&decimal_of::<T, M>(m, 1, -10))
                || err.is_lt(&decimal_of::<T, M>(m, 1, -6))
        },
{
    let c = prob.contract;
    if let Some(v0) = initial_guess_spec(m, c, prob.market_price) {
        law_halley_answer_is_root(
            m,
            excess(m, c, prob.market_price),
            |v: T| vega_and_volga_spec(m, c, v),
            v0,
            MAX_ITER as nat,
        );
    }
}

/// An implied volatility is positive, without rounding.
pub proof fn law_implied_vol_is_positive<T: Number, M: Elementary<T>>(
    m: M,
    v: spec_fn(T) -> real,
    prob: IvProblem<T>,
)
    requires
        exact(v),
        positive_functions(m, v),
    ensures
        implied_vol_spec(m, prob) matches Some(x) ==> v(x) > 0real,
{
    let c = prob.contract;
    let f = excess(m, c, prob.market_price);
    if let Some(v0) = initial_guess_spec(m, c, prob.market_price) {
        lemma_fraction(v, 1, 1000);
        let lo = decimal_of::<T, M>(m, 1, -4);
        law_bisection_is_positive(m, v, f, lo, num::<T>(10), MAX_HALVINGS as nat);
        assert(v(v0) > 0real);
        law_halley_answer_is_positive(
            m,
            v,
            f,
            |x: T| vega_and_volga_spec(m, c, x),
            v0,
            MAX_ITER as nat,
        );
    }
}

/// An implied volatility does not depend on the volatility that the contract itself is written
/// with, to the last rounding.
pub proof fn law_implied_vol_ignores_own_vol<T: Number, M: Elementary<T>>(
    m: M,
    prob: IvProblem<T>,
    vol: T,
)
    ensures
        implied_vol_spec(m, prob) == implied_vol_spec(
            m,
            IvProblem { contract: at_vol_spec(prob.contract, vol), ..prob },
        ),
{
    let c = prob.contract;
    let d = at_vol_spec(c, vol);
    let mkt = prob.market_price;
    assert forall|x: T| #[trigger] at_vol_spec(d, x) == at_vol_spec(c, x) by {}
    assert(excess(m, d, mkt) =~= excess(m, c, mkt));
    assert((|x: T| vega_and_volga_spec(m, d, x)) =~= (|x: T| vega_and_volga_spec(m, c, x)));
}

} // verus!
