//! Heston's model: prices by inversion of the characteristic function, sensitivities by
//! repricing.
use crate::characteristic::{
    cf_integrand, cf_integrand_spec, model_cf, model_cf_spec, JumpParams, RealKit,
};
use crate::complex::Complex;
use crate::exact::{exact, times};
use crate::greeks::{bump_and_reprice_greeks, bump_and_reprice_greeks_spec, BumpPriceable};
use crate::number::{
    decimal_of, exp_of, fmax, frac, larger, lawful, ln_of, num, ratio, whole, Elementary, Number,
};
use crate::quadrature::{gk_integrate, gk_integrate_spec, NoTangent};
use crate::types::{HestonParams, OptionType, PricingResult};
use core::ops::Neg;
use vstd::prelude::*;
use vstd::std_specs::ops::{AddSpec, DivSpec, MulSpec, NegSpec, SubSpec};

verus! {

/// The kernel of one of the two probabilities, as a function of the frequency.
pub open spec fn kernel<T: Number, M: Elementary<T>>(
    m: M,
    x: T,
    t: T,
    mu: T,
    p: HestonParams<T>,
    jump: Option<JumpParams<T>>,
    norm: Option<Complex<T>>,
) -> spec_fn(T) -> (T, NoTangent) {
    |u: T| (cf_integrand_spec(RealKit { m }, u, x, t, mu, p, jump, norm), NoTangent)
}

/// The probability that the option ends in the money: one half, and the integral of the
/// kernel over pi.
pub open spec fn exercise_probability_spec<T: Number, M: Elementary<T>>(
    m: M,
    x: T,
    t: T,
    mu: T,
    p: HestonParams<T>,
    jump: Option<JumpParams<T>>,
    norm: Option<Complex<T>>,
) -> T {
    let i = gk_integrate_spec(m, kernel(m, x, t, mu, p, jump, norm)).0;
    frac::<T>(1, 2).add_spec(i.div_spec(decimal_of::<T, M>(m, 3141592653589793, -15)))
}

/// The probability that the option ends in the money.
pub fn exercise_probability<T: Number, M: Elementary<T>>(
    m: M,
    x: T,
    t: T,
    mu: T,
    p: HestonParams<T>,
    jump: Option<JumpParams<T>>,
    norm: Option<Complex<T>>,
) -> (res: T)
    requires
        lawful::<T, M>(m),
    ensures
        res == exercise_probability_spec(m, x, t, mu, p, jump, norm),
{
    let kit = RealKit { m };
    let f = |u: T| -> (r: (T, NoTangent))
        ensures
            r == kernel(m, x, t, mu, p, jump, norm)(u),
        { (cf_integrand(kit, u, x, t, mu, p, jump, norm), NoTangent) };
    let i = gk_integrate(m, f, Ghost(kernel(m, x, t, mu, p, jump, norm))).0;
    ratio::<T>(1, 2) + i / m.decimal(3141592653589793, -15)
}

/// The price of a call by inversion: the discounted stock times the probability in its
/// units, less the discounted strike times the probability in units of money; not below
/// zero. The drift of the model is the rate less the dividend yield.
pub open spec fn inversion_call_spec<T: Number, M: Elementary<T>>(
    m: M,
    s: T,
    k: T,
    t: T,
    r: T,
    q: T,
    p: HestonParams<T>,
    jump: Option<JumpParams<T>>,
) -> T {
    let x = ln_of(m, s.div_spec(k));
    let mu = r.sub_spec(q);
    let down = Complex { re: num::<T>(0), im: num::<T>(-1) };
    let norm = model_cf_spec(RealKit { m }, down, t, mu, p, jump);
    let p1 = exercise_probability_spec(m, x, t, mu, p, jump, Some(norm));
    let p2 = exercise_probability_spec(m, x, t, mu, p, jump, None);
    larger(
        s.mul_spec(exp_of(m, q.neg_spec().mul_spec(t))).mul_spec(p1).sub_spec(
            k.mul_spec(exp_of(m, r.neg_spec().mul_spec(t))).mul_spec(p2),
        ),
        num::<T>(0),
    )
}

/// The price of a call by inversion.
pub fn inversion_call<T: Number, M: Elementary<T>>(
    m: M,
    s: T,
    k: T,
    t: T,
    r: T,
    q: T,
    p: HestonParams<T>,
    jump: Option<JumpParams<T>>,
) -> (res: T)
    requires
        lawful::<T, M>(m),
    ensures
        res == inversion_call_spec(m, s, k, t, r, q, p, jump),
{
    let x = m.ln(s / k);
    let mu = r - q;
    let down = Complex { re: whole::<T>(0), im: whole::<T>(-1) };
    let norm = model_cf(RealKit { m }, down, t, mu, p, jump);
    let p1 = exercise_probability(m, x, t, mu, p, jump, Some(norm));
    let p2 = exercise_probability(m, x, t, mu, p, jump, None);
    fmax(s * m.exp(q.neg() * t) * p1 - k * m.exp(r.neg() * t) * p2, whole::<T>(0))
}

/// The price of an option from that of the call: a put by the parity of puts and calls.
pub open spec fn from_call_spec<T: Number, M: Elementary<T>>(
    m: M,
    call: T,
    spot: T,
    strike: T,
    expiry: T,
    rate: T,
    div_yield: T,
    opt_type: OptionType,
) -> T {
    if opt_type is Call {
        call
    } else {
        call.sub_spec(spot.mul_spec(exp_of(m, div_yield.neg_spec().mul_spec(expiry)))).add_spec(
            strike.mul_spec(exp_of(m, rate.neg_spec().mul_spec(expiry))),
        )
    }
}

/// The price of an option from that of the call: a put by the parity of puts and calls.
pub fn from_call<T: Number, M: Elementary<T>>(
    m: M,
    call: T,
    spot: T,
    strike: T,
    expiry: T,
    rate: T,
    div_yield: T,
    opt_type: OptionType,
) -> (res: T)
    requires
        lawful::<T, M>(m),
    ensures
        res == from_call_spec(m, call, spot, strike, expiry, rate, div_yield, opt_type),
{
    if matches!(opt_type, OptionType::Call) {
        call
    } else {
        call - spot * m.exp(div_yield.neg() * expiry) + strike * m.exp(rate.neg() * expiry)
    }
}

/// The price of an option in Heston's model.
pub open spec fn heston_price_spec<T: Number, M: Elementary<T>>(
    m: M,
    spot: T,
    strike: T,
    expiry: T,
    rate: T,
    div_yield: T,
    params: HestonParams<T>,
    opt_type: OptionType,
) -> T {
    let call = inversion_call_spec(m, spot, strike, expiry, rate, div_yield, params, None);
    from_call_spec(m, call, spot, strike, expiry, rate, div_yield, opt_type)
}

/// The price of an option in Heston's model.
pub fn heston_price<T: Number, M: Elementary<T>>(
    m: M,
    spot: T,
    strike: T,
    expiry: T,
    rate: T,
    div_yield: T,
    params: &HestonParams<T>,
    opt_type: OptionType,
) -> (res: T)
    requires
        lawful::<T, M>(m),
    ensures
        res == heston_price_spec(m, spot, strike, expiry, rate, div_yield, *params, opt_type),
{
    let call = inversion_call(m, spot, strike, expiry, rate, div_yield, *params, None);
    from_call(m, call, spot, strike, expiry, rate, div_yield, opt_type)
}

impl<T: Number, M: Elementary<T>> BumpPriceable<T, M> for HestonParams<T> {
    open spec fn price_spec(
        self,
        m: M,
        spot: T,
        strike: T,
        expiry: T,
        rate: T,
        div_yield: T,
        opt_type: OptionType,
    ) -> T {
        heston_price_spec(m, spot, strike, expiry, rate, div_yield, self, opt_type)
    }

    open spec fn v0_spec(self) -> T {
        self.v0
    }

    open spec fn with_v0_spec(self, v0: T) -> HestonParams<T> {
        HestonParams { v0, ..self }
    }

    fn price(
        &self,
        m: M,
        spot: T,
        strike: T,
        expiry: T,
        rate: T,
        div_yield: T,
        opt_type: OptionType,
    ) -> (res: T) {
        heston_price(m, spot, strike, expiry, rate, div_yield, self, opt_type)
    }

    fn v0(&self) -> (res: T) {
        self.v0
    }

    fn with_v0(&self, v0: T) -> (res: HestonParams<T>) {
        HestonParams {
            v0,
            kappa: self.kappa,
            theta: self.theta,
            sigma: self.sigma,
            rho: self.rho,
        }
    }
}

/// The price of an option in Heston's model and its sensitivities by repricing.
pub fn heston_price_and_greeks<T: Number, M: Elementary<T>>(
    m: M,
    spot: T,
    strike: T,
    expiry: T,
    rate: T,
    div_yield: T,
    params: &HestonParams<T>,
    opt_type: OptionType,
) -> (res: PricingResult<T>)
    requires
        lawful::<T, M>(m),
    ensures
        res == bump_and_reprice_greeks_spec(
            m,
            spot,
            strike,
            expiry,
            rate,
            div_yield,
            *params,
            opt_type,
        ),
{
    bump_and_reprice_greeks(m, spot, strike, expiry, rate, div_yield, params, opt_type)
}

/// Puts and calls are in parity in Heston's model: without rounding, a call less the put on
/// the same terms is the discounted spot less the discounted strike.
pub proof fn law_heston_put_call_parity<T: Number, M: Elementary<T>>(
    m: M,
    v: spec_fn(T) -> real,
    spot: T,
    strike: T,
    expiry: T,
    rate: T,
    div_yield: T,
    params: HestonParams<T>,
)
    requires
        exact(v),
    ensures
        v(
            heston_price_spec(
                m,
                spot,
                strike,
                expiry,
                rate,
                div_yield,
                params,
                OptionType::Call,
            ),
        ) - v(
            heston_price_spec(
                m,
                spot,
                strike,
                expiry,
                rate,
                div_yield,
                params,
                OptionType::Put,
            ),
        ) == times(v(spot), v(exp_of(m, div_yield.neg_spec().mul_spec(expiry)))) - times(
            v(strike),
            v(exp_of(m, rate.neg_spec().mul_spec(expiry))),
        ),
{
}

/// A call is never worth less than nothing.
pub proof fn law_heston_call_not_negative<T: Number, M: Elementary<T>>(
    m: M,
    v: spec_fn(T) -> real,
    spot: T,
    strike: T,
    expiry: T,
    rate: T,
    div_yield: T,
    params: HestonParams<T>,
)
    requires
        exact(v),
    ensures
        v(
            heston_price_spec(
                m,
                spot,
                strike,
                expiry,
                rate,
                div_yield,
                params,
                OptionType::Call,
            ),
        ) >= 0real,
{
}

} // verus!
