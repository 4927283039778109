//! What holds of the closed forms beyond the parity of prices: the signs of the
//! sensitivities, what they have in common for calls and puts in coin, and where the two
//! closed forms agree.
use crate::bsm::{
    black76_price_and_greeks_spec, bsm_price_and_greeks_spec, d_terms_spec, law_black76_is_bsm,
    law_ncdf_reflects,
};
use crate::deribit_inverse::{
    coin_excess, coin_initial_guess_spec, coin_slopes, d1_d2_spec, greeks_spec,
    implied_vol_coin_spec, price_coin_spec, CoinIvProblem,
};
use crate::exact::{
    erfc_reflects, exact, exact_at_zero, faithful, lemma_fraction, lemma_half, lemma_literal,
    lemma_multiple, lemma_quotient_positive, lemma_root_positive, lemma_sign_of_factor,
    lemma_times_add, lemma_times_assoc, lemma_times_cancel, lemma_times_comm, lemma_times_neg,
    lemma_times_not_negative, lemma_times_positive, lemma_times_sub, lemma_times_unit,
    positive_functions, same_value, sqrt_exact, times,
};
use crate::math::{ncdf_spec, npdf_spec};
use crate::number::{decimal_of, erfc_of, exp_of, frac, ln_of, num, sqrt_of, Elementary, Number};
use crate::solver::{
    law_bisection_is_positive, law_halley_answer_is_positive, MAX_HALVINGS, MAX_ITER,
};
use crate::types::{OptionContract, OptionType};
use vstd::prelude::*;
use vstd::std_specs::cmp::PartialOrdIs;
use vstd::std_specs::ops::{AddSpec, DivSpec, MulSpec, NegSpec, SubSpec};

verus! {

/// The normal density and distribution function are positive.
proof fn lemma_normal_positive<T: Number, M: Elementary<T>>(m: M, v: spec_fn(T) -> real, x: T)
    requires
        exact(v),
        positive_functions(m, v),
    ensures
        v(npdf_spec(m, x)) > 0real,
        v(ncdf_spec(m, x)) > 0real,
{
    lemma_half::<T>(v);
    let d = decimal_of::<T, M>(m, 3989422804014327, -16);
    let e = exp_of(m, frac::<T>(-1, 2).mul_spec(x).mul_spec(x));
    assert(npdf_spec(m, x) == d.mul_spec(e));
    lemma_times_positive(v(d), v(e));
    let h = frac::<T>(1, 2);
    let f = erfc_of(
        m,
        x.neg_spec().mul_spec(decimal_of::<T, M>(m, 7071067811865476, -16)),
    );
    assert(ncdf_spec(m, x) == h.mul_spec(f));
    lemma_times_positive(v(h), v(f));
}

/// The signs of the sensitivities: gamma and vega are positive; delta and rho are positive for
/// a call and negative for a put.
pub proof fn law_bsm_greek_signs<T: Number, M: Elementary<T>>(
    m: M,
    v: spec_fn(T) -> real,
    c: OptionContract<T>,
)
    requires
        exact(v),
        sqrt_exact(m, v),
        positive_functions(m, v),
        v(c.spot) > 0real,
        v(c.strike) > 0real,
        v(c.expiry) > 0real,
        v(c.vol) > 0real,
    ensures
        ({
            let g = bsm_price_and_greeks_spec(m, c);
            &&& v(g.gamma) > 0real
            &&& v(g.vega) > 0real
            &&& c.opt_type is Call ==> v(g.delta) > 0real && v(g.rho) > 0real
            &&& c.opt_type is Put ==> v(g.delta) < 0real && v(g.rho) < 0real
        }),
{
    let (d1, d2) = d_terms_spec(m, c.spot, c.strike, c.expiry, c.rate, c.div_yield, c.vol);
    let phi = c.opt_type.sign_spec::<T>();
    let (nd1, nd2) = (ncdf_spec(m, phi.mul_spec(d1)), ncdf_spec(m, phi.mul_spec(d2)));
    let npd1 = npdf_spec(m, d1);
    let eq = exp_of(m, c.div_yield.neg_spec().mul_spec(c.expiry));
    let er = exp_of(m, c.rate.neg_spec().mul_spec(c.expiry));
    let sqt = sqrt_of(m, c.expiry);
    lemma_normal_positive(m, v, d1);
    lemma_normal_positive(m, v, phi.mul_spec(d1));
    lemma_normal_positive(m, v, phi.mul_spec(d2));
    lemma_root_positive(m, v, c.expiry);
    lemma_times_positive(v(c.spot), v(eq));
    lemma_times_positive(v(c.spot.mul_spec(eq)), v(npd1));
    lemma_times_positive(v(c.spot.mul_spec(eq).mul_spec(npd1)), v(sqt));
    lemma_times_positive(v(c.spot), v(c.vol));
    lemma_times_positive(v(c.spot.mul_spec(c.vol)), v(sqt));
    lemma_times_positive(v(eq), v(npd1));
    lemma_quotient_positive(
        v,
        eq.mul_spec(npd1),
        c.spot.mul_spec(c.vol).mul_spec(sqt),
    );
    lemma_times_unit(v(eq));
    lemma_times_positive(v(eq), v(nd1));
    lemma_times_neg(v(eq), v(nd1));
    let (k, t, r) = (v(c.strike), v(c.expiry), v(er));
    lemma_times_unit(k);
    lemma_times_positive(k, t);
    lemma_times_positive(times(k, t), r);
    lemma_times_positive(times(times(k, t), r), v(nd2));
    lemma_times_neg(k, t);
    lemma_times_neg(times(k, t), r);
    lemma_times_neg(times(times(k, t), r), v(nd2));
}

/// At a rate of zero, and without dividends, the forward is the spot, and Black-76 and
/// Black-Scholes-Merton agree in the price and in every sensitivity but rho.
pub proof fn law_black76_is_bsm_at_zero_rate<T: Number, M: Elementary<T>>(
    m: M,
    v: spec_fn(T) -> real,
    c: OptionContract<T>,
)
    requires
        exact(v),
        faithful(v),
        sqrt_exact(m, v),
        exact_at_zero(m, v),
        v(c.rate) == 0real,
        v(c.div_yield) == 0real,
        v(c.spot) > 0real,
        v(c.expiry) > 0real,
        v(c.vol) > 0real,
    ensures
        ({
            let b76 = black76_price_and_greeks_spec(
                m,
                c.spot,
                c.strike,
                c.expiry,
                c.rate,
                c.vol,
                c.opt_type,
            );
            let bsm = bsm_price_and_greeks_spec(m, c);
            &&& v(b76.price) == v(bsm.price)
            &&& v(b76.delta) == v(bsm.delta)
            &&& v(b76.gamma) == v(bsm.gamma)
            &&& v(b76.vega) == v(bsm.vega)
            &&& v(b76.theta) == v(bsm.theta)
            &&& v(b76.vanna) == v(bsm.vanna)
            &&& v(b76.volga) == v(bsm.volga)
        }),
{
    let zero = num::<T>(0);
    let rt = c.rate.neg_spec().mul_spec(c.expiry);
    let qt = c.div_yield.neg_spec().mul_spec(c.expiry);
    lemma_times_unit(v(c.expiry));
    assert(same_value(v, rt, zero));
    assert(same_value(v, qt, zero));
    let e = exp_of(m, zero);
    lemma_times_unit(v(c.spot));
    law_black76_is_bsm(m, v, c, c.spot);
    let (d1, d2) = d_terms_spec(m, c.spot, c.strike, c.expiry, c.rate, c.div_yield, c.vol);
    let vt = c.vol.mul_spec(sqrt_of(m, c.expiry));
    let var = frac::<T>(1, 2).mul_spec(c.vol).mul_spec(c.vol);
    let a = ln_of(m, c.spot.div_spec(c.strike)).add_spec(var.mul_spec(c.expiry));
    let b = ln_of(m, c.spot.div_spec(c.strike)).add_spec(
        c.rate.sub_spec(c.div_yield).add_spec(var).mul_spec(c.expiry),
    );
    assert(same_value(v, a, b));
    let phi = c.opt_type.sign_spec::<T>();
    let npd1 = npdf_spec(m, d1);
    let sqt = sqrt_of(m, c.expiry);
    lemma_root_positive(m, v, c.expiry);
    let b76 = black76_price_and_greeks_spec(
        m,
        c.spot,
        c.strike,
        c.expiry,
        c.rate,
        c.vol,
        c.opt_type,
    );
    let bsm = bsm_price_and_greeks_spec(m, c);
    // Gamma: the two denominators are the same.
    let den = v(c.spot.mul_spec(vt));
    lemma_times_assoc(v(c.spot), v(c.vol), v(sqt));
    lemma_times_positive(v(c.vol), v(sqt));
    lemma_times_positive(v(c.spot), v(vt));
    lemma_times_cancel(v(b76.gamma), v(bsm.gamma), den);
    // Theta: a factor of the root of time is cancelled.
    let n = v(npd1);
    let (w, s, t) = (v(c.vol), v(sqt), v(c.expiry));
    let x = v(c.spot);
    let decay76 = c.spot.neg_spec().mul_spec(npd1).mul_spec(c.vol).div_spec(
        num::<T>(2).mul_spec(sqt),
    );
    let decay = c.spot.mul_spec(e).neg_spec().mul_spec(npd1).mul_spec(vt).div_spec(
        num::<T>(2).mul_spec(c.expiry),
    );
    let (p, q) = (v(decay76), v(decay));
    let top = times(times(-x, n), w);
    lemma_literal(2real, s);
    lemma_literal(2real, t);
    assert(times(p, 2real * s) == top);
    assert(times(q, 2real * t) == times(times(-x, n), times(w, s)));
    lemma_times_assoc(times(-x, n), w, s);
    lemma_times_assoc(p, 2real * s, s);
    lemma_multiple(2real, s, s);
    assert(times(p, 2real * t) == times(top, s));
    lemma_times_cancel(p, q, 2real * t);
    let (nd1, nd2) = (v(ncdf_spec(m, phi.mul_spec(d1))), v(ncdf_spec(m, phi.mul_spec(d2))));
    let gap = times(x, nd1) - times(v(c.strike), nd2);
    lemma_times_unit(v(phi));
    lemma_times_unit(gap);
    lemma_times_unit(p);
    lemma_times_unit(x);
    lemma_times_unit(nd1);
    lemma_times_unit(nd2);
    lemma_times_unit(v(c.strike));
}

/// In coin, calls and puts on the same terms have the same vega, theta, vanna and volga, to the
/// last rounding; their deltas differ by the strike over the square of the forward, and their
/// gammas by minus twice the strike over its cube.
pub proof fn law_coin_greeks_parity<T: Number, M: Elementary<T>>(
    m: M,
    v: spec_fn(T) -> real,
    forward: T,
    strike: T,
    vol: T,
    t: T,
)
    requires
        exact(v),
        erfc_reflects(m, v),
    ensures
        ({
            let call = greeks_spec(m, OptionType::Call, forward, strike, vol, t);
            let put = greeks_spec(m, OptionType::Put, forward, strike, vol, t);
            let k2 = strike.div_spec(forward.mul_spec(forward));
            let k3 = k2.div_spec(forward);
            &&& call.vega == put.vega
            &&& call.theta == put.theta
            &&& call.vanna == put.vanna
            &&& call.volga == put.volga
            &&& v(vol) > 0real && v(t) > 0real ==> {
                &&& v(call.delta) - v(put.delta) == v(k2)
                &&& v(call.gamma) - v(put.gamma) == -2real * v(k3)
            }
        }),
{
    let (one, minus) = (num::<T>(1), num::<T>(-1));
    let (d1, d2) = d1_d2_spec(m, forward, strike, vol, t);
    lemma_times_unit(v(d2));
    law_ncdf_reflects(m, v, one.mul_spec(d2), minus.mul_spec(d2));
    let n2 = v(ncdf_spec(m, one.mul_spec(d2)));
    let m2 = v(ncdf_spec(m, minus.mul_spec(d2)));
    let kf2 = strike.div_spec(forward.mul_spec(forward));
    let (k2, k3) = (v(kf2), v(kf2.div_spec(forward)));
    lemma_times_unit(k2);
    lemma_times_neg(k2, m2);
    lemma_times_add(k2, n2, m2);
    lemma_times_comm(k2, n2);
    lemma_times_comm(k2, m2);
    lemma_times_comm(k2, n2 + m2);
    lemma_times_unit(2real);
    lemma_literal(2real, n2);
    lemma_literal(-2real, m2);
    let a = v(npdf_spec(m, d2).div_spec(vol.mul_spec(sqrt_of(m, t))));
    lemma_times_sub(k3, a - 2real * n2, a + 2real * m2);
    lemma_times_comm(k3, a - 2real * n2);
    lemma_times_comm(k3, a + 2real * m2);
    lemma_literal(-2real, k3);
}

/// In coin, an option before expiry has a positive vega and loses value with time; the delta of
/// a call is positive, that of a put negative.
pub proof fn law_coin_greek_signs<T: Number, M: Elementary<T>>(
    m: M,
    v: spec_fn(T) -> real,
    opt_type: OptionType,
    forward: T,
    strike: T,
    vol: T,
    t: T,
)
    requires
        exact(v),
        sqrt_exact(m, v),
        positive_functions(m, v),
        v(forward) > 0real,
        v(strike) > 0real,
        v(vol) > 0real,
        v(t) > 0real,
    ensures
        ({
            let g = greeks_spec(m, opt_type, forward, strike, vol, t);
            &&& v(g.vega) > 0real
            &&& v(g.theta) < 0real
            &&& opt_type is Call ==> v(g.delta) > 0real
            &&& opt_type is Put ==> v(g.delta) < 0real
        }),
{
    let phi = opt_type.sign_spec::<T>();
    let (d1, d2) = d1_d2_spec(m, forward, strike, vol, t);
    let sqt = sqrt_of(m, t);
    let npd2 = npdf_spec(m, d2);
    let nd2 = ncdf_spec(m, phi.mul_spec(d2));
    lemma_normal_positive(m, v, d2);
    lemma_normal_positive(m, v, phi.mul_spec(d2));
    lemma_root_positive(m, v, t);
    let kf = strike.div_spec(forward);
    let k2 = strike.div_spec(forward.mul_spec(forward));
    lemma_times_positive(v(forward), v(forward));
    lemma_quotient_positive(v, strike, forward);
    lemma_quotient_positive(v, strike, forward.mul_spec(forward));
    lemma_times_positive(v(kf), v(npd2));
    lemma_times_positive(v(kf.mul_spec(npd2)), v(sqt));
    // Theta is the quotient of a negative number by a positive one.
    let (k, n, w) = (v(kf), v(npd2), v(vol));
    let den = num::<T>(2).mul_spec(sqt);
    let q = v(kf.neg_spec().mul_spec(npd2).mul_spec(vol).div_spec(den));
    lemma_times_positive(2real, v(sqt));
    lemma_times_positive(times(k, n), w);
    lemma_times_neg(k, n);
    lemma_times_neg(times(k, n), w);
    if q >= 0real {
        lemma_times_not_negative(q, v(den));
    }
    lemma_times_unit(v(k2));
    lemma_times_positive(v(k2), v(nd2));
    lemma_times_neg(v(k2), v(nd2));
}

/// In coin too an implied volatility is positive, without rounding.
pub proof fn law_coin_implied_vol_is_positive<T: Number, M: Elementary<T>>(
    m: M,
    v: spec_fn(T) -> real,
    p: CoinIvProblem<T>,
)
    requires
        exact(v),
        positive_functions(m, v),
    ensures
        implied_vol_coin_spec(m, p) matches Some(x) ==> v(x) > 0real,
{
    let f = coin_excess(m, p);
    if let Some(v0) = coin_initial_guess_spec(m, p) {
        lemma_fraction(v, 1, 1000);
        let lo = decimal_of::<T, M>(m, 1, -4);
        law_bisection_is_positive(m, v, f, lo, num::<T>(10), MAX_HALVINGS as nat);
        assert(v(v0) > 0real);
        law_halley_answer_is_positive(m, v, f, coin_slopes(m, p), v0, MAX_ITER as nat);
    }
}

/// In coin a call costs at most one coin.
pub proof fn law_coin_call_at_most_one<T: Number, M: Elementary<T>>(
    m: M,
    v: spec_fn(T) -> real,
    forward: T,
    strike: T,
    vol: T,
    t: T,
)
    requires
        exact(v),
        erfc_reflects(m, v),
        positive_functions(m, v),
        v(forward) > 0real,
        v(strike) >= 0real,
    ensures
        v(price_coin_spec(m, OptionType::Call, forward, strike, vol, t)) <= 1real,
{
    let (one, minus) = (num::<T>(1), num::<T>(-1));
    let f = v(forward);
    let k = v(strike.div_spec(forward));
    lemma_times_comm(k, f);
    lemma_sign_of_factor(f, k);
    if t.is_le(&num::<T>(0)) || vol.is_le(&num::<T>(0)) {
        let gap = v(forward) - v(strike);
        lemma_times_unit(gap);
        let q = v(one.mul_spec(forward.sub_spec(strike)).div_spec(forward));
        lemma_times_sub(f, 1real, k);
        lemma_times_unit(f);
        lemma_times_cancel(q, 1real - k, f);
    } else {
        let (d1, d2) = d1_d2_spec(m, forward, strike, vol, t);
        lemma_times_unit(v(d1));
        law_ncdf_reflects(m, v, one.mul_spec(d1), minus.mul_spec(d1));
        lemma_normal_positive(m, v, minus.mul_spec(d1));
        lemma_normal_positive(m, v, one.mul_spec(d2));
        let n1 = v(ncdf_spec(m, one.mul_spec(d1)));
        let n2 = v(ncdf_spec(m, one.mul_spec(d2)));
        lemma_times_unit(n1);
        lemma_times_unit(k);
        lemma_times_not_negative(k, n2);
    }
}

/// The quotient of two numbers does not change where both are scaled alike.
proof fn lemma_scaled_quotient<T: Number>(
    v: spec_fn(T) -> real,
    a: T,
    b: T,
    a2: T,
    b2: T,
    c: real,
)
    requires
        exact(v),
        c > 0real,
        v(b) != 0real,
        v(a2) == times(c, v(a)),
        v(b2) == times(c, v(b)),
    ensures
        v(a2.div_spec(b2)) == v(a.div_spec(b)),
{
    let (p, q) = (v(a.div_spec(b)), v(a2.div_spec(b2)));
    lemma_times_unit(v(b));
    if v(b2) == 0real {
        lemma_times_comm(c, v(b));
        lemma_times_unit(c);
        lemma_times_cancel(v(b), 0real, c);
    }
    lemma_times_assoc(p, v(b), c);
    lemma_times_comm(v(b), c);
    lemma_times_comm(v(a), c);
    lemma_times_cancel(p, q, v(b2));
}

/// In coin only the ratio of forward and strike matters: scaling both alike changes no price.
pub proof fn law_coin_price_scales<T: Number, M: Elementary<T>>(
    m: M,
    v: spec_fn(T) -> real,
    opt_type: OptionType,
    forward: T,
    strike: T,
    forward2: T,
    strike2: T,
    c: real,
    vol: T,
    t: T,
)
    requires
        exact(v),
        faithful(v),
        c > 0real,
        v(forward) > 0real,
        v(strike) > 0real,
        v(forward2) == times(c, v(forward)),
        v(strike2) == times(c, v(strike)),
    ensures
        price_coin_spec(m, opt_type, forward2, strike2, vol, t) == price_coin_spec(
            m,
            opt_type,
            forward,
            strike,
            vol,
            t,
        ),
{
    let phi = opt_type.sign_spec::<T>();
    lemma_scaled_quotient(v, forward, strike, forward2, strike2, c);
    lemma_scaled_quotient(v, strike, forward, strike2, forward2, c);
    assert(same_value(v, forward2.div_spec(strike2), forward.div_spec(strike)));
    assert(same_value(v, strike2.div_spec(forward2), strike.div_spec(forward)));
    let gap = phi.mul_spec(forward.sub_spec(strike));
    let gap2 = phi.mul_spec(forward2.sub_spec(strike2));
    let d = v(forward) - v(strike);
    assert(v(gap2) == times(c, v(gap))) by {
        lemma_times_comm(c, v(forward));
        lemma_times_comm(c, v(strike));
        lemma_times_sub(c, v(forward), v(strike));
        lemma_times_assoc(v(phi), d, c);
        lemma_times_comm(times(v(phi), d), c);
    }
    lemma_scaled_quotient(v, gap, forward, gap2, forward2, c);
    assert(same_value(v, gap2.div_spec(forward2), gap.div_spec(forward)));
}

} // verus!
