//! Black-Scholes-Merton and Black-76: prices and analytic sensitivities.
use crate::exact::{
    erfc_reflects, exact, faithful, lemma_half, lemma_times_add, lemma_times_assoc,
    lemma_times_comm, lemma_times_neg, lemma_times_sub, lemma_times_unit, same_value, times,
};
use crate::math::{ncdf, ncdf_spec, npdf, npdf_spec};
use crate::number::{
    decimal_of, erfc_of, exp_of, frac, lawful, ln_of, num, ratio, regular, sqrt_of, whole,
    Elementary, Number,
};
use crate::types::{OptionContract, OptionType, PricingResult};
use core::ops::Neg;
use vstd::prelude::*;
use vstd::std_specs::ops::{AddSpec, DivSpec, MulSpec, NegSpec, SubSpec};

verus! {

/// The two arguments of the normal distribution in the Black-Scholes-Merton formula.
pub open spec fn d_terms_spec<T: Number, M: Elementary<T>>(
    m: M,
    s: T,
    k: T,
    t: T,
    r: T,
    q: T,
    v: T,
) -> (T, T) {
    let vt = v.mul_spec(sqrt_of(m, t));
    let d1 = ln_of(m, s.div_spec(k)).add_spec(
        r.sub_spec(q).add_spec(frac::<T>(1, 2).mul_spec(v).mul_spec(v)).mul_spec(t),
    ).div_spec(vt);
    (d1, d1.sub_spec(vt))
}

/// The two arguments of the normal distribution in the Black-Scholes-Merton formula.
pub fn d_terms<T: Number, M: Elementary<T>>(
    m: M,
    s: T,
    k: T,
    t: T,
    r: T,
    q: T,
    v: T,
) -> (res: (T, T))
    requires
        lawful::<T, M>(m),
    ensures
        res == d_terms_spec(m, s, k, t, r, q, v),
{
    let vt = v * m.sqrt(t);
    let d1 = (m.ln(s / k) + (r - q + ratio::<T>(1, 2) * v * v) * t) / vt;
    (d1, d1 - vt)
}

/// The sensitivity to the passing of time, per year: the decay of the time value and the
/// carry of the two legs.
pub open spec fn theta_calc_spec<T: Number>(
    seq: T,
    ker: T,
    r: T,
    q: T,
    npd1: T,
    nd1: T,
    nd2: T,
    vsqt: T,
    t: T,
    phi: T,
) -> T {
    seq.neg_spec().mul_spec(npd1).mul_spec(vsqt).div_spec(num::<T>(2).mul_spec(t)).add_spec(
        phi.mul_spec(q.mul_spec(seq).mul_spec(nd1).sub_spec(r.mul_spec(ker).mul_spec(nd2))),
    )
}

/// The sensitivity to the passing of time, per year: the decay of the time value and the
/// carry of the two legs.
pub fn theta_calc<T: Number>(
    seq: T,
    ker: T,
    r: T,
    q: T,
    npd1: T,
    nd1: T,
    nd2: T,
    vsqt: T,
    t: T,
    phi: T,
) -> (res: T)
    requires
        regular::<T>(),
    ensures
        res == theta_calc_spec(seq, ker, r, q, npd1, nd1, nd2, vsqt, t, phi),
{
    seq.neg() * npd1 * vsqt / (whole::<T>(2) * t) + phi * (q * seq * nd1 - r * ker * nd2)
}

/// The Black-Scholes-Merton price and its analytic sensitivities. Vega is per unit of
/// volatility, theta per year.
pub open spec fn bsm_price_and_greeks_spec<T: Number, M: Elementary<T>>(
    m: M,
    c: OptionContract<T>,
) -> PricingResult<T> {
    let (d1, d2) = d_terms_spec(m, c.spot, c.strike, c.expiry, c.rate, c.div_yield, c.vol);
    let phi = c.opt_type.sign_spec::<T>();
    let nd1 = ncdf_spec(m, phi.mul_spec(d1));
    let nd2 = ncdf_spec(m, phi.mul_spec(d2));
    let npd1 = npdf_spec(m, d1);
    let eq = exp_of(m, c.div_yield.neg_spec().mul_spec(c.expiry));
    let er = exp_of(m, c.rate.neg_spec().mul_spec(c.expiry));
    let seq = c.spot.mul_spec(eq);
    let ker = c.strike.mul_spec(er);
    let sqt = sqrt_of(m, c.expiry);
    let vega = seq.mul_spec(npd1).mul_spec(sqt);
    PricingResult {
        price: phi.mul_spec(seq.mul_spec(nd1).sub_spec(ker.mul_spec(nd2))),
        delta: phi.mul_spec(eq).mul_spec(nd1),
        gamma: eq.mul_spec(npd1).div_spec(c.spot.mul_spec(c.vol).mul_spec(sqt)),
        vega,
        theta: theta_calc_spec(
            seq,
            ker,
            c.rate,
            c.div_yield,
            npd1,
            nd1,
            nd2,
            c.vol.mul_spec(sqt),
            c.expiry,
            phi,
        ),
        rho: phi.mul_spec(c.strike).mul_spec(c.expiry).mul_spec(er).mul_spec(nd2),
        vanna: eq.neg_spec().mul_spec(npd1).mul_spec(d2).div_spec(c.vol),
        volga: vega.mul_spec(d1).mul_spec(d2).div_spec(c.vol),
    }
}

/// The Black-Scholes-Merton price and its analytic sensitivities. Vega is per unit of
/// volatility, theta per year.
pub fn bsm_price_and_greeks<T: Number, M: Elementary<T>>(
    m: M,
    c: &OptionContract<T>,
) -> (res: PricingResult<T>)
    requires
        lawful::<T, M>(m),
    ensures
        res == bsm_price_and_greeks_spec(m, *c),
{
    let (d1, d2) = d_terms(m, c.spot, c.strike, c.expiry, c.rate, c.div_yield, c.vol);
    let phi = c.opt_type.sign::<T>();
    let nd1 = ncdf(m, phi * d1);
    let nd2 = ncdf(m, phi * d2);
    let npd1 = npdf(m, d1);
    let eq = m.exp(c.div_yield.neg() * c.expiry);
    let er = m.exp(c.rate.neg() * c.expiry);
    let seq = c.spot * eq;
    let ker = c.strike * er;
    let sqt = m.sqrt(c.expiry);
    let vega = seq * npd1 * sqt;
    PricingResult {
        price: phi * (seq * nd1 - ker * nd2),
        delta: phi * eq * nd1,
        gamma: eq * npd1 / (c.spot * c.vol * sqt),
        vega,
        theta: theta_calc(
            seq,
            ker,
            c.rate,
            c.div_yield,
            npd1,
            nd1,
            nd2,
            c.vol * sqt,
            c.expiry,
            phi,
        ),
        rho: phi * c.strike * c.expiry * er * nd2,
        vanna: eq.neg() * npd1 * d2 / c.vol,
        volga: vega * d1 * d2 / c.vol,
    }
}

/// The Black-Scholes-Merton price.
pub open spec fn bsm_price_spec<T: Number, M: Elementary<T>>(m: M, c: OptionContract<T>) -> T {
    let (d1, d2) = d_terms_spec(m, c.spot, c.strike, c.expiry, c.rate, c.div_yield, c.vol);
    let phi = c.opt_type.sign_spec::<T>();
    phi.mul_spec(
        c.spot.mul_spec(exp_of(m, c.div_yield.neg_spec().mul_spec(c.expiry))).mul_spec(
            ncdf_spec(m, phi.mul_spec(d1)),
        ).sub_spec(
            c.strike.mul_spec(exp_of(m, c.rate.neg_spec().mul_spec(c.expiry))).mul_spec(
                ncdf_spec(m, phi.mul_spec(d2)),
            ),
        ),
    )
}

/// The Black-Scholes-Merton price.
pub fn bsm_price<T: Number, M: Elementary<T>>(m: M, c: &OptionContract<T>) -> (res: T)
    requires
        lawful::<T, M>(m),
    ensures
        res == bsm_price_spec(m, *c),
{
    let (d1, d2) = d_terms(m, c.spot, c.strike, c.expiry, c.rate, c.div_yield, c.vol);
    let phi = c.opt_type.sign::<T>();
    phi
        * (
            c.spot * m.exp(c.div_yield.neg() * c.expiry) * ncdf(m, phi * d1)
                - c.strike * m.exp(c.rate.neg() * c.expiry) * ncdf(m, phi * d2)
        )
}

/// The Black-76 price of an option on a forward and its analytic sensitivities. The forward
/// does not move with the rate, so rho is minus the expiry times the price.
pub open spec fn black76_price_and_greeks_spec<T: Number, M: Elementary<T>>(
    m: M,
    fwd: T,
    strike: T,
    expiry: T,
    rate: T,
    vol: T,
    opt_type: OptionType,
) -> PricingResult<T> {
    let vt = vol.mul_spec(sqrt_of(m, expiry));
    let d1 = ln_of(m, fwd.div_spec(strike)).add_spec(
        frac::<T>(1, 2).mul_spec(vol).mul_spec(vol).mul_spec(expiry),
    ).div_spec(vt);
    let d2 = d1.sub_spec(vt);
    let phi = opt_type.sign_spec::<T>();
    let er = exp_of(m, rate.neg_spec().mul_spec(expiry));
    let npd1 = npdf_spec(m, d1);
    let nd1 = ncdf_spec(m, phi.mul_spec(d1));
    let nd2 = ncdf_spec(m, phi.mul_spec(d2));
    let price = phi.mul_spec(er).mul_spec(fwd.mul_spec(nd1).sub_spec(strike.mul_spec(nd2)));
    let vega = fwd.mul_spec(er).mul_spec(npd1).mul_spec(sqrt_of(m, expiry));
    PricingResult {
        price,
        delta: phi.mul_spec(er).mul_spec(nd1),
        gamma: er.mul_spec(npd1).div_spec(fwd.mul_spec(vt)),
        vega,
        theta: er.mul_spec(
            fwd.neg_spec().mul_spec(npd1).mul_spec(vol).div_spec(
                num::<T>(2).mul_spec(sqrt_of(m, expiry)),
            ).add_spec(
                phi.mul_spec(rate).mul_spec(fwd.mul_spec(nd1).sub_spec(strike.mul_spec(nd2))),
            ),
        ),
        rho: expiry.neg_spec().mul_spec(price),
        vanna: er.neg_spec().mul_spec(npd1).mul_spec(d2).div_spec(vol),
        volga: vega.mul_spec(d1).mul_spec(d2).div_spec(vol),
    }
}

/// The Black-76 price of an option on a forward and its analytic sensitivities. The forward
/// does not move with the rate, so rho is minus the expiry times the price.
pub fn black76_price_and_greeks<T: Number, M: Elementary<T>>(
    m: M,
    fwd: T,
    strike: T,
    expiry: T,
    rate: T,
    vol: T,
    opt_type: OptionType,
) -> (res: PricingResult<T>)
    requires
        lawful::<T, M>(m),
    ensures
        res == black76_price_and_greeks_spec(m, fwd, strike, expiry, rate, vol, opt_type),
{
    let vt = vol * m.sqrt(expiry);
    let d1 = (m.ln(fwd / strike) + ratio::<T>(1, 2) * vol * vol * expiry) / vt;
    let d2 = d1 - vt;
    let phi = opt_type.sign::<T>();
    let er = m.exp(rate.neg() * expiry);
    let npd1 = npdf(m, d1);
    let nd1 = ncdf(m, phi * d1);
    let nd2 = ncdf(m, phi * d2);
    let price = phi * er * (fwd * nd1 - strike * nd2);
    let vega = fwd * er * npd1 * m.sqrt(expiry);
    PricingResult {
        price,
        delta: phi * er * nd1,
        gamma: er * npd1 / (fwd * vt),
        vega,
        theta: er
            * (
                fwd.neg() * npd1 * vol / (whole::<T>(2) * m.sqrt(expiry))
                    + phi * rate * (fwd * nd1 - strike * nd2)
            ),
        rho: expiry.neg() * price,
        vanna: er.neg() * npd1 * d2 / vol,
        volga: vega * d1 * d2 / vol,
    }
}

/// The price in `bsm_price_and_greeks` is the one that `bsm_price` returns, to the last
/// rounding.
pub proof fn law_price_with_greeks_is_price<T: Number, M: Elementary<T>>(m: M, c: OptionContract<T>)
    ensures
        bsm_price_and_greeks_spec(m, c).price == bsm_price_spec(m, c),
{
}

/// The distribution function at opposite arguments adds up to one.
pub proof fn law_ncdf_reflects<T: Number, M: Elementary<T>>(
    m: M,
    v: spec_fn(T) -> real,
    x: T,
    y: T,
)
    requires
        exact(v),
        erfc_reflects(m, v),
        v(x) + v(y) == 0real,
    ensures
        v(ncdf_spec(m, x)) + v(ncdf_spec(m, y)) == 1real,
{
    let c = decimal_of::<T, M>(m, 7071067811865476, -16);
    let a = x.neg_spec().mul_spec(c);
    let b = y.neg_spec().mul_spec(c);
    lemma_times_add(v(c), -v(x), -v(y));
    lemma_times_unit(v(c));
    assert(v(erfc_of(m, a)) + v(erfc_of(m, b)) == 2real);
    let half = v(frac::<T>(1, 2));
    lemma_half::<T>(v);
    lemma_times_add(half, v(erfc_of(m, a)), v(erfc_of(m, b)));
    lemma_times_comm(half, 2real);
}

/// Puts and calls are in parity: without rounding, a call less the put on the same terms is
/// the discounted spot less the discounted strike, and the sensitivities differ accordingly.
pub proof fn law_put_call_parity<T: Number, M: Elementary<T>>(
    m: M,
    v: spec_fn(T) -> real,
    c: OptionContract<T>,
    p: OptionContract<T>,
)
    requires
        exact(v),
        erfc_reflects(m, v),
        c.opt_type is Call,
        p == (OptionContract { opt_type: OptionType::Put, ..c }),
    ensures
        ({
            let call = bsm_price_and_greeks_spec(m, c);
            let put = bsm_price_and_greeks_spec(m, p);
            let eq = v(exp_of(m, c.div_yield.neg_spec().mul_spec(c.expiry)));
            let er = v(exp_of(m, c.rate.neg_spec().mul_spec(c.expiry)));
            let stock = times(v(c.spot), eq);
            let cash = times(v(c.strike), er);
            &&& v(call.price) - v(put.price) == stock - cash
            &&& v(call.delta) - v(put.delta) == eq
            &&& v(call.theta) - v(put.theta) == times(v(c.div_yield), stock) - times(
                v(c.rate),
                cash,
            )
            &&& v(call.rho) - v(put.rho) == times(v(c.expiry), cash)
            &&& call.gamma == put.gamma
            &&& call.vega == put.vega
            &&& call.vanna == put.vanna
            &&& call.volga == put.volga
        }),
{
    let (d1, d2) = d_terms_spec(m, c.spot, c.strike, c.expiry, c.rate, c.div_yield, c.vol);
    let one = num::<T>(1);
    let minus = num::<T>(-1);
    lemma_times_unit(v(d1));
    lemma_times_unit(v(d2));
    law_ncdf_reflects(m, v, one.mul_spec(d1), minus.mul_spec(d1));
    law_ncdf_reflects(m, v, one.mul_spec(d2), minus.mul_spec(d2));
    let n1 = v(ncdf_spec(m, one.mul_spec(d1)));
    let m1 = v(ncdf_spec(m, minus.mul_spec(d1)));
    let n2 = v(ncdf_spec(m, one.mul_spec(d2)));
    let m2 = v(ncdf_spec(m, minus.mul_spec(d2)));
    let eq = v(exp_of(m, c.div_yield.neg_spec().mul_spec(c.expiry)));
    let er = v(exp_of(m, c.rate.neg_spec().mul_spec(c.expiry)));
    let stock = times(v(c.spot), eq);
    let cash = times(v(c.strike), er);
    let (q, r) = (v(c.div_yield), v(c.rate));
    assert(times(stock, n1) + times(stock, m1) == stock) by {
        lemma_times_add(stock, n1, m1);
        lemma_times_unit(stock);
    }
    assert(times(cash, n2) + times(cash, m2) == cash) by {
        lemma_times_add(cash, n2, m2);
        lemma_times_unit(cash);
    }
    lemma_times_unit(times(stock, n1) - times(cash, n2));
    lemma_times_unit(times(stock, m1) - times(cash, m2));
    lemma_times_unit(eq);
    lemma_times_neg(eq, m1);
    lemma_times_add(eq, n1, m1);
    let held = times(q, stock);
    let owed = times(r, cash);
    lemma_times_unit(times(held, n1) - times(owed, n2));
    lemma_times_unit(times(held, m1) - times(owed, m2));
    lemma_times_add(held, n1, m1);
    lemma_times_add(owed, n2, m2);
    lemma_times_unit(held);
    lemma_times_unit(owed);
    let k = v(c.strike);
    let t = v(c.expiry);
    lemma_times_unit(k);
    lemma_times_neg(k, t);
    lemma_times_neg(times(k, t), er);
    lemma_times_neg(times(times(k, t), er), m2);
    lemma_times_add(times(times(k, t), er), n2, m2);
    lemma_times_unit(times(times(k, t), er));
    lemma_times_comm(k, t);
    lemma_times_assoc(t, k, er);
}

/// Puts and calls on a forward are in parity: without rounding, a call less the put on the same
/// terms is the forward less the strike, discounted, and the sensitivities differ accordingly.
pub proof fn law_black76_parity<T: Number, M: Elementary<T>>(
    m: M,
    v: spec_fn(T) -> real,
    fwd: T,
    strike: T,
    expiry: T,
    rate: T,
    vol: T,
)
    requires
        exact(v),
        erfc_reflects(m, v),
    ensures
        ({
            let call = black76_price_and_greeks_spec(
                m,
                fwd,
                strike,
                expiry,
                rate,
                vol,
                OptionType::Call,
            );
            let put = black76_price_and_greeks_spec(
                m,
                fwd,
                strike,
                expiry,
                rate,
                vol,
                OptionType::Put,
            );
            let er = v(exp_of(m, rate.neg_spec().mul_spec(expiry)));
            let gap = times(er, v(fwd) - v(strike));
            &&& v(call.price) - v(put.price) == gap
            &&& v(call.delta) - v(put.delta) == er
            &&& v(call.theta) - v(put.theta) == times(v(rate), gap)
            &&& v(call.rho) - v(put.rho) == -times(v(expiry), gap)
            &&& call.gamma == put.gamma
            &&& call.vega == put.vega
            &&& call.vanna == put.vanna
            &&& call.volga == put.volga
        }),
{
    let vt = vol.mul_spec(sqrt_of(m, expiry));
    let d1 = ln_of(m, fwd.div_spec(strike)).add_spec(
        frac::<T>(1, 2).mul_spec(vol).mul_spec(vol).mul_spec(expiry),
    ).div_spec(vt);
    let d2 = d1.sub_spec(vt);
    let (one, minus) = (num::<T>(1), num::<T>(-1));
    lemma_times_unit(v(d1));
    lemma_times_unit(v(d2));
    law_ncdf_reflects(m, v, one.mul_spec(d1), minus.mul_spec(d1));
    law_ncdf_reflects(m, v, one.mul_spec(d2), minus.mul_spec(d2));
    let n1 = v(ncdf_spec(m, one.mul_spec(d1)));
    let m1 = v(ncdf_spec(m, minus.mul_spec(d1)));
    let n2 = v(ncdf_spec(m, one.mul_spec(d2)));
    let m2 = v(ncdf_spec(m, minus.mul_spec(d2)));
    let er = v(exp_of(m, rate.neg_spec().mul_spec(expiry)));
    let (f, k, r, t) = (v(fwd), v(strike), v(rate), v(expiry));
    // What the two legs are worth, for the call and for the put.
    let c = times(f, n1) - times(k, n2);
    let p = times(f, m1) - times(k, m2);
    assert(c + p == f - k) by {
        lemma_times_add(f, n1, m1);
        lemma_times_add(k, n2, m2);
        lemma_times_comm(f, n1);
        lemma_times_comm(f, m1);
        lemma_times_comm(k, n2);
        lemma_times_comm(k, m2);
        lemma_times_unit(f);
        lemma_times_unit(k);
    }
    lemma_times_unit(er);
    lemma_times_unit(r);
    lemma_times_comm(er, c);
    lemma_times_comm(er, p);
    lemma_times_comm(er, f - k);
    lemma_times_add(er, c, p);
    // Price and delta.
    lemma_times_neg(er, p);
    lemma_times_neg(er, m1);
    lemma_times_add(er, n1, m1);
    lemma_times_comm(er, n1);
    lemma_times_comm(er, m1);
    let gap = times(er, f - k);
    // Theta: the decay is the same.
    let decay = v(
        fwd.neg_spec().mul_spec(npdf_spec(m, d1)).mul_spec(vol).div_spec(
            num::<T>(2).mul_spec(sqrt_of(m, expiry)),
        ),
    );
    lemma_times_neg(r, p);
    lemma_times_sub(er, decay + times(r, c), decay - times(r, p));
    lemma_times_comm(er, decay + times(r, c));
    lemma_times_comm(er, decay - times(r, p));
    lemma_times_add(r, c, p);
    lemma_times_comm(r, c);
    lemma_times_comm(r, p);
    lemma_times_comm(r, f - k);
    lemma_times_assoc(r, f - k, er);
    lemma_times_comm(f - k, er);
    // Rho: minus the expiry times the price.
    let (pc, pp) = (times(er, c), -times(er, p));
    lemma_times_sub(t, pc, pp);
    lemma_times_comm(t, pc);
    lemma_times_comm(t, pp);
    lemma_times_comm(t, pc - pp);
    lemma_times_neg(t, pc);
    lemma_times_neg(t, pp);
}

/// Black-76 on the forward is Black-Scholes-Merton on the spot: without rounding, where the
/// discounted forward is the spot less its dividends, the two prices are the same, and so
/// are the two vegas.
pub proof fn law_black76_is_bsm<T: Number, M: Elementary<T>>(
    m: M,
    v: spec_fn(T) -> real,
    c: OptionContract<T>,
    fwd: T,
)
    requires
        exact(v),
        faithful(v),
        times(v(fwd), v(exp_of(m, c.rate.neg_spec().mul_spec(c.expiry)))) == times(
            v(c.spot),
            v(exp_of(m, c.div_yield.neg_spec().mul_spec(c.expiry))),
        ),
        v(ln_of(m, fwd.div_spec(c.strike))) == v(ln_of(m, c.spot.div_spec(c.strike))) + times(
            v(c.rate) - v(c.div_yield),
            v(c.expiry),
        ),
    ensures
        ({
            let b76 = black76_price_and_greeks_spec(
                m,
                fwd,
                c.strike,
                c.expiry,
                c.rate,
                c.vol,
                c.opt_type,
            );
            let bsm = bsm_price_and_greeks_spec(m, c);
            &&& v(b76.price) == v(bsm.price)
            &&& v(b76.vega) == v(bsm.vega)
        }),
{
    let vt = c.vol.mul_spec(sqrt_of(m, c.expiry));
    let var = frac::<T>(1, 2).mul_spec(c.vol).mul_spec(c.vol);
    let a = ln_of(m, fwd.div_spec(c.strike)).add_spec(var.mul_spec(c.expiry));
    let b = ln_of(m, c.spot.div_spec(c.strike)).add_spec(
        c.rate.sub_spec(c.div_yield).add_spec(var).mul_spec(c.expiry),
    );
    lemma_times_add(v(c.expiry), v(c.rate) - v(c.div_yield), v(var));
    assert(same_value(v, a, b));
    let (d1, d2) = d_terms_spec(m, c.spot, c.strike, c.expiry, c.rate, c.div_yield, c.vol);
    assert(d1 == a.div_spec(vt));
    let phi = c.opt_type.sign_spec::<T>();
    let n1 = v(ncdf_spec(m, phi.mul_spec(d1)));
    let n2 = v(ncdf_spec(m, phi.mul_spec(d2)));
    let npd1 = v(npdf_spec(m, d1));
    let eq = v(exp_of(m, c.div_yield.neg_spec().mul_spec(c.expiry)));
    let er = v(exp_of(m, c.rate.neg_spec().mul_spec(c.expiry)));
    let (f, k, s) = (v(fwd), v(c.strike), v(c.spot));
    lemma_times_assoc(v(phi), er, times(f, n1) - times(k, n2));
    lemma_times_sub(er, times(f, n1), times(k, n2));
    lemma_times_assoc(er, f, n1);
    lemma_times_assoc(er, k, n2);
    lemma_times_comm(er, f);
    lemma_times_comm(er, k);
}

} // verus!
