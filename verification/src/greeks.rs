//! Sensitivities by repricing, for models without analytic ones: steps, spans and the
//! differences over them.
use crate::exact::{
    exact, lemma_difference_of_squares, lemma_fraction, lemma_literal, lemma_multiple,
    lemma_times_add, lemma_times_assoc, lemma_times_cancel, lemma_times_comm, lemma_times_neg,
    lemma_times_positive, lemma_times_sub, lemma_times_unit, times,
};
use crate::number::{
    decimal_of, fmax, fmin, frac, larger, lawful, num, ratio, smaller, sqrt_of, whole, Elementary,
    Number,
};
use crate::solver::computes;
use crate::types::{OptionType, PricingResult};
use core::ops::Neg;
use vstd::prelude::*;
use vstd::std_specs::cmp::PartialOrdIs;
use vstd::std_specs::ops::{AddSpec, DivSpec, MulSpec, NegSpec, SubSpec};

verus! {

/// A model with an initial variance that can price an option.
pub trait BumpPriceable<T: Number, M: Elementary<T>>: Copy {
    /// The price of the option.
    spec fn price_spec(
        self,
        m: M,
        spot: T,
        strike: T,
        expiry: T,
        rate: T,
        div_yield: T,
        opt_type: OptionType,
    ) -> T;

    /// The initial variance.
    spec fn v0_spec(self) -> T;

    /// The model with another initial variance.
    spec fn with_v0_spec(self, v0: T) -> Self;

    fn price(
        &self,
        m: M,
        spot: T,
        strike: T,
        expiry: T,
        rate: T,
        div_yield: T,
        opt_type: OptionType,
    ) -> (res: T)
        requires
            lawful::<T, M>(m),
        ensures
            res == self.price_spec(m, spot, strike, expiry, rate, div_yield, opt_type),
    ;

    fn v0(&self) -> (res: T)
        ensures
            res == self.v0_spec(),
    ;

    fn with_v0(&self, v0: T) -> (res: Self)
        ensures
            res == self.with_v0_spec(v0),
    ;
}

/// The step of a bump in volatility: one point, but at most half the level, and at least a
/// hundredth of a point, so that a level near zero still has a span.
pub open spec fn vol_step_spec<T: Number, M: Elementary<T>>(m: M, v_cur: T) -> T {
    larger(
        smaller(frac::<T>(1, 100), v_cur.mul_spec(frac::<T>(1, 2))),
        decimal_of::<T, M>(m, 1, -4),
    )
}

/// The step of a bump in volatility: one point, but at most half the level, and at least a
/// hundredth of a point, so that a level near zero still has a span.
pub fn vol_step<T: Number, M: Elementary<T>>(m: M, v_cur: T) -> (res: T)
    requires
        lawful::<T, M>(m),
    ensures
        res == vol_step_spec(m, v_cur),
{
    fmax(fmin(ratio::<T>(1, 100), v_cur * ratio::<T>(1, 2)), m.decimal(1, -4))
}

/// The volatilities `mult` steps above and below a level, the lower one not below zero, and
/// the distance between the two.
pub open spec fn vol_bump_levels_spec<T: Number, M: Elementary<T>>(
    m: M,
    v_cur: T,
    mult: T,
) -> (T, T, T) {
    let h = mult.mul_spec(vol_step_spec(m, v_cur));
    let up = v_cur.add_spec(h);
    let dn = larger(v_cur.sub_spec(h), num::<T>(0));
    (up, dn, up.sub_spec(dn))
}

/// The volatilities `mult` steps above and below a level, the lower one not below zero, and
/// the distance between the two.
pub fn vol_bump_levels<T: Number, M: Elementary<T>>(m: M, v_cur: T, mult: T) -> (res: (T, T, T))
    requires
        lawful::<T, M>(m),
    ensures
        res == vol_bump_levels_spec(m, v_cur, mult),
{
    let h = mult * vol_step(m, v_cur);
    let up = v_cur + h;
    let dn = fmax(v_cur - h, whole::<T>(0));
    (up, dn, up - dn)
}

/// The step of a bump in time: a day, but at most a quarter of the remaining life.
pub open spec fn time_step_spec<T: Number, M: Elementary<T>>(m: M, expiry: T) -> T {
    larger(
        smaller(frac::<T>(1, 365), expiry.mul_spec(frac::<T>(1, 4))),
        decimal_of::<T, M>(m, 1, -9),
    )
}

/// The step of a bump in time: a day, but at most a quarter of the remaining life.
pub fn time_step<T: Number, M: Elementary<T>>(m: M, expiry: T) -> (res: T)
    requires
        lawful::<T, M>(m),
    ensures
        res == time_step_spec(m, expiry),
{
    fmax(fmin(ratio::<T>(1, 365), expiry * ratio::<T>(1, 4)), m.decimal(1, -9))
}

/// The sensitivity to the passing of time of a price that is `price_at(t)` at expiry `t`:
/// minus the central difference over the time step. At expiry there is none.
pub open spec fn central_theta_spec<T: Number, M: Elementary<T>>(
    m: M,
    expiry: T,
    price_at: spec_fn(T) -> T,
) -> T {
    if expiry.is_le(&decimal_of::<T, M>(m, 1, -8)) {
        num::<T>(0)
    } else {
        let h = time_step_spec(m, expiry);
        let t_hi = expiry.add_spec(h);
        let t_lo = expiry.sub_spec(h);
        price_at(t_hi).sub_spec(price_at(t_lo)).neg_spec().div_spec(t_hi.sub_spec(t_lo))
    }
}

/// The sensitivity to the passing of time.
pub(crate) fn central_theta<T: Number, M: Elementary<T>, F: Fn(T) -> T>(
    m: M,
    expiry: T,
    price_at: F,
    Ghost(spec): Ghost<spec_fn(T) -> T>,
) -> (res: T)
    requires
        lawful::<T, M>(m),
        computes(&price_at, spec),
    ensures
        res == central_theta_spec(m, expiry, spec),
{
    if expiry <= m.decimal(1, -8) {
        return whole::<T>(0);
    }
    let h = time_step(m, expiry);
    let t_hi = expiry + h;
    let t_lo = expiry - h;
    (price_at(t_hi) - price_at(t_lo)).neg() / (t_hi - t_lo)
}

/// The price of the option in the model.
pub open spec fn reprice_spec<T: Number, M: Elementary<T>, P: BumpPriceable<T, M>>(
    m: M,
    p: P,
    spot: T,
    strike: T,
    expiry: T,
    rate: T,
    div_yield: T,
    opt_type: OptionType,
) -> T {
    p.price_spec(m, spot, strike, expiry, rate, div_yield, opt_type)
}

/// The price of the option in the model.
pub fn reprice<T: Number, M: Elementary<T>, P: BumpPriceable<T, M>>(
    m: M,
    p: &P,
    spot: T,
    strike: T,
    expiry: T,
    rate: T,
    div_yield: T,
    opt_type: OptionType,
) -> (res: T)
    requires
        lawful::<T, M>(m),
    ensures
        res == reprice_spec(m, *p, spot, strike, expiry, rate, div_yield, opt_type),
{
    p.price(m, spot, strike, expiry, rate, div_yield, opt_type)
}

/// The central difference of the price in the spot, over a step of `ds`.
pub open spec fn spot_delta_spec<T: Number, M: Elementary<T>, P: BumpPriceable<T, M>>(
    m: M,
    p: P,
    spot: T,
    strike: T,
    expiry: T,
    rate: T,
    div_yield: T,
    opt_type: OptionType,
    ds: T,
) -> T {
    let pu = reprice_spec(m, p, spot.add_spec(ds), strike, expiry, rate, div_yield, opt_type);
    let pd = reprice_spec(m, p, spot.sub_spec(ds), strike, expiry, rate, div_yield, opt_type);
    pu.sub_spec(pd).div_spec(num::<T>(2).mul_spec(ds))
}

/// The central difference of the price in the spot, over a step of `ds`.
pub fn spot_delta<T: Number, M: Elementary<T>, P: BumpPriceable<T, M>>(
    m: M,
    p: &P,
    spot: T,
    strike: T,
    expiry: T,
    rate: T,
    div_yield: T,
    opt_type: OptionType,
    ds: T,
) -> (res: T)
    requires
        lawful::<T, M>(m),
    ensures
        res == spot_delta_spec(m, *p, spot, strike, expiry, rate, div_yield, opt_type, ds),
{
    let pu = reprice(m, p, spot + ds, strike, expiry, rate, div_yield, opt_type);
    let pd = reprice(m, p, spot - ds, strike, expiry, rate, div_yield, opt_type);
    (pu - pd) / (whole::<T>(2) * ds)
}

/// The central difference of the price in the rate, over a step of a basis point.
pub open spec fn rate_rho_spec<T: Number, M: Elementary<T>, P: BumpPriceable<T, M>>(
    m: M,
    p: P,
    spot: T,
    strike: T,
    expiry: T,
    rate: T,
    div_yield: T,
    opt_type: OptionType,
) -> T {
    let dr = frac::<T>(1, 10000);
    let up = reprice_spec(m, p, spot, strike, expiry, rate.add_spec(dr), div_yield, opt_type);
    let dn = reprice_spec(m, p, spot, strike, expiry, rate.sub_spec(dr), div_yield, opt_type);
    up.sub_spec(dn).div_spec(num::<T>(2).mul_spec(dr))
}

/// The central difference of the price in the rate, over a step of a basis point.
pub fn rate_rho<T: Number, M: Elementary<T>, P: BumpPriceable<T, M>>(
    m: M,
    p: &P,
    spot: T,
    strike: T,
    expiry: T,
    rate: T,
    div_yield: T,
    opt_type: OptionType,
) -> (res: T)
    requires
        lawful::<T, M>(m),
    ensures
        res == rate_rho_spec(m, *p, spot, strike, expiry, rate, div_yield, opt_type),
{
    let dr = ratio::<T>(1, 10000);
    let up = reprice(m, p, spot, strike, expiry, rate + dr, div_yield, opt_type);
    let dn = reprice(m, p, spot, strike, expiry, rate - dr, div_yield, opt_type);
    (up - dn) / (whole::<T>(2) * dr)
}

/// The second difference of the price in volatility around the level `v_cur`, over the
/// spans that the levels two steps up and down have; zero where there is no room below.
pub open spec fn vol_volga_spec<T: Number, M: Elementary<T>, P: BumpPriceable<T, M>>(
    m: M,
    p: P,
    spot: T,
    strike: T,
    expiry: T,
    rate: T,
    div_yield: T,
    opt_type: OptionType,
    v_cur: T,
    price: T,
) -> T {
    let (v_up, v_dn, _span) = vol_bump_levels_spec(m, v_cur, num::<T>(2));
    let span_up = v_up.sub_spec(v_cur);
    let span_dn = v_cur.sub_spec(v_dn);
    let p_up = p.with_v0_spec(v_up.mul_spec(v_up));
    let p_dn = p.with_v0_spec(v_dn.mul_spec(v_dn));
    let vega_up = reprice_spec(
        m,
        p_up,
        spot,
        strike,
        expiry,
        rate,
        div_yield,
        opt_type,
    ).sub_spec(price).div_spec(span_up);
    if span_dn.is_gt(&num::<T>(0)) {
        vega_up.sub_spec(
            price.sub_spec(
                reprice_spec(m, p_dn, spot, strike, expiry, rate, div_yield, opt_type),
            ).div_spec(span_dn),
        ).div_spec(frac::<T>(1, 2).mul_spec(span_up.add_spec(span_dn)))
    } else {
        num::<T>(0)
    }
}

/// The second difference of the price in volatility around the level `v_cur`, over the
/// spans that the levels two steps up and down have; zero where there is no room below.
pub fn vol_volga<T: Number, M: Elementary<T>, P: BumpPriceable<T, M>>(
    m: M,
    p: &P,
    spot: T,
    strike: T,
    expiry: T,
    rate: T,
    div_yield: T,
    opt_type: OptionType,
    v_cur: T,
    price: T,
) -> (res: T)
    requires
        lawful::<T, M>(m),
    ensures
        res == vol_volga_spec(m, *p, spot, strike, expiry, rate, div_yield, opt_type, v_cur, price),
{
    let (v_up, v_dn, _span) = vol_bump_levels(m, v_cur, whole::<T>(2));
    let span_up = v_up - v_cur;
    let span_dn = v_cur - v_dn;
    let p_up = p.with_v0(v_up * v_up);
    let p_dn = p.with_v0(v_dn * v_dn);
    let vega_up = (reprice(m, &p_up, spot, strike, expiry, rate, div_yield, opt_type) - price)
        / span_up;
    if span_dn > whole::<T>(0) {
        (
            vega_up
                - (price - reprice(m, &p_dn, spot, strike, expiry, rate, div_yield, opt_type))
                    / span_dn
        )
            / (ratio::<T>(1, 2) * (span_up + span_dn))
    } else {
        whole::<T>(0)
    }
}

/// The price and its sensitivities by repricing. The spot moves by a percent, the rate by a
/// basis point, volatility and time by their steps; vega, vanna and volga are in volatility,
/// whose square is the initial variance.
pub open spec fn bump_and_reprice_greeks_spec<
    T: Number,
    M: Elementary<T>,
    P: BumpPriceable<T, M>,
>(
    m: M,
    spot: T,
    strike: T,
    expiry: T,
    rate: T,
    div_yield: T,
    p: P,
    opt_type: OptionType,
) -> PricingResult<T> {
    let price = reprice_spec(m, p, spot, strike, expiry, rate, div_yield, opt_type);
    let ds = frac::<T>(1, 100).mul_spec(spot);
    let pu = reprice_spec(m, p, spot.add_spec(ds), strike, expiry, rate, div_yield, opt_type);
    let pd = reprice_spec(m, p, spot.sub_spec(ds), strike, expiry, rate, div_yield, opt_type);
    let v_cur = sqrt_of(m, p.v0_spec());
    let (v_up, v_dn, v_span) = vol_bump_levels_spec(m, v_cur, num::<T>(1));
    let p_vup = p.with_v0_spec(v_up.mul_spec(v_up));
    let p_vdn = p.with_v0_spec(v_dn.mul_spec(v_dn));
    PricingResult {
        price,
        delta: pu.sub_spec(pd).div_spec(num::<T>(2).mul_spec(ds)),
        gamma: pu.sub_spec(num::<T>(2).mul_spec(price)).add_spec(pd).div_spec(ds.mul_spec(ds)),
        vega: reprice_spec(m, p_vup, spot, strike, expiry, rate, div_yield, opt_type).sub_spec(
            reprice_spec(m, p_vdn, spot, strike, expiry, rate, div_yield, opt_type),
        ).div_spec(v_span),
        theta: central_theta_spec(
            m,
            expiry,
            |t: T| reprice_spec(m, p, spot, strike, t, rate, div_yield, opt_type),
        ),
        rho: rate_rho_spec(m, p, spot, strike, expiry, rate, div_yield, opt_type),
        vanna: spot_delta_spec(
            m,
            p_vup,
            spot,
            strike,
            expiry,
            rate,
            div_yield,
            opt_type,
            ds,
        ).sub_spec(
            spot_delta_spec(m, p_vdn, spot, strike, expiry, rate, div_yield, opt_type, ds),
        ).div_spec(v_span),
        volga: vol_volga_spec(m, p, spot, strike, expiry, rate, div_yield, opt_type, v_cur, price),
    }
}

/// The price and its sensitivities by repricing.
pub fn bump_and_reprice_greeks<T: Number, M: Elementary<T>, P: BumpPriceable<T, M>>(
    m: M,
    spot: T,
    strike: T,
    expiry: T,
    rate: T,
    div_yield: T,
    p: &P,
    opt_type: OptionType,
) -> (res: PricingResult<T>)
    requires
        lawful::<T, M>(m),
    ensures
        res == bump_and_reprice_greeks_spec(
            m,
            spot,
            strike,
            expiry,
            rate,
            div_yield,
            *p,
            opt_type,
        ),
{
    let price = reprice(m, p, spot, strike, expiry, rate, div_yield, opt_type);
    let ds = ratio::<T>(1, 100) * spot;
    let pu = reprice(m, p, spot + ds, strike, expiry, rate, div_yield, opt_type);
    let pd = reprice(m, p, spot - ds, strike, expiry, rate, div_yield, opt_type);
    let delta = (pu - pd) / (whole::<T>(2) * ds);
    let gamma = (pu - whole::<T>(2) * price + pd) / (ds * ds);
    let v_cur = m.sqrt(p.v0());
    let (v_up, v_dn, v_span) = vol_bump_levels(m, v_cur, whole::<T>(1));
    let p_vup = p.with_v0(v_up * v_up);
    let p_vdn = p.with_v0(v_dn * v_dn);
    let vega = (
        reprice(m, &p_vup, spot, strike, expiry, rate, div_yield, opt_type)
            - reprice(m, &p_vdn, spot, strike, expiry, rate, div_yield, opt_type)
    )
        / v_span;
    let at = |t: T| -> (r: T)
        ensures
            r == reprice_spec(m, *p, spot, strike, t, rate, div_yield, opt_type),
        { reprice(m, p, spot, strike, t, rate, div_yield, opt_type) };
    let theta = central_theta(
        m,
        expiry,
        at,
        Ghost(|t: T| reprice_spec(m, *p, spot, strike, t, rate, div_yield, opt_type)),
    );
    let rho = rate_rho(m, p, spot, strike, expiry, rate, div_yield, opt_type);
    let vanna = (
        spot_delta(m, &p_vup, spot, strike, expiry, rate, div_yield, opt_type, ds)
            - spot_delta(m, &p_vdn, spot, strike, expiry, rate, div_yield, opt_type, ds)
    )
        / v_span;
    let volga = vol_volga(m, p, spot, strike, expiry, rate, div_yield, opt_type, v_cur, price);
    PricingResult { price, delta, gamma, vega, theta, rho, vanna, volga }
}

/// A bump in volatility has a span: without rounding, from a level that is not negative the
/// upper volatility lies above it, the lower one does not lie above it nor below zero, and the
/// two are at least a step apart. From zero it goes up only, by the smallest step.
pub proof fn law_vol_bump_has_span<T: Number, M: Elementary<T>>(
    m: M,
    v: spec_fn(T) -> real,
    v_cur: T,
    mult: T,
)
    requires
        exact(v),
        v(decimal_of::<T, M>(m, 1, -4)) > 0real,
        v(v_cur) >= 0real,
        v(mult) > 0real,
    ensures
        ({
            let (up, dn, span) = vol_bump_levels_spec(m, v_cur, mult);
            &&& v(up) > v(v_cur)
            &&& 0real <= v(dn) <= v(v_cur)
            &&& v(span) == v(up) - v(dn)
            &&& v(span) >= times(v(mult), v(vol_step_spec(m, v_cur))) > 0real
            &&& v(v_cur) == 0real ==> {
                &&& v(dn) == 0real
                &&& v(span) == v(up)
                &&& v(up) == times(v(mult), v(decimal_of::<T, M>(m, 1, -4)))
            }
        }),
{
    lemma_times_positive(v(mult), v(vol_step_spec(m, v_cur)));
    lemma_times_unit(v(frac::<T>(1, 2)));
    lemma_fraction(v, 1, 100);
}

/// A bump in time leaves some life: without rounding, before expiry the shorter life is still
/// positive.
pub proof fn law_time_step_leaves_life<T: Number, M: Elementary<T>>(
    m: M,
    v: spec_fn(T) -> real,
    expiry: T,
)
    requires
        exact(v),
        0real < v(decimal_of::<T, M>(m, 1, -9)) < v(decimal_of::<T, M>(m, 1, -8)),
        v(expiry) > v(decimal_of::<T, M>(m, 1, -8)),
    ensures
        0real < v(time_step_spec(m, expiry)) < v(expiry),
{
    lemma_fraction(v, 1, 4);
    lemma_literal(1real / 4real, v(expiry));
}

/// The times at which theta samples the price lie within a quarter of the remaining life from
/// now, and the difference is exact where the price is quadratic in time.
pub proof fn law_theta_exact_on_quadratics<T: Number, M: Elementary<T>>(
    m: M,
    v: spec_fn(T) -> real,
    expiry: T,
    price_at: spec_fn(T) -> T,
    a: real,
    b: real,
    c: real,
)
    requires
        exact(v),
        0real < v(decimal_of::<T, M>(m, 1, -9)),
        4real * v(decimal_of::<T, M>(m, 1, -9)) <= v(decimal_of::<T, M>(m, 1, -8)),
        v(expiry) > v(decimal_of::<T, M>(m, 1, -8)),
        forall|t: T|
            v(t) > 0real ==> v(#[trigger] price_at(t)) == a + times(b, v(t)) + times(
                c,
                times(v(t), v(t)),
            ),
    ensures
        ({
            let h = time_step_spec(m, expiry);
            &&& 0real < v(h) <= v(expiry) / 4real
            &&& v(central_theta_spec(m, expiry, price_at)) == -(b + 2real * times(c, v(expiry)))
        }),
{
    let h = time_step_spec(m, expiry);
    let (t_hi, t_lo) = (expiry.add_spec(h), expiry.sub_spec(h));
    let (x, k) = (v(expiry), v(h));
    let (p, q) = (v(t_hi), v(t_lo));
    lemma_fraction(v, 1, 4);
    lemma_fraction(v, 1, 365);
    lemma_literal(1real / 4real, x);
    assert(0real < k <= x / 4real);
    let d = 2real * k;
    assert(v(t_hi.sub_spec(t_lo)) == d);
    // The difference of the quadratic is the distance times the slope halfway.
    lemma_times_sub(b, p, q);
    lemma_times_comm(b, p);
    lemma_times_comm(b, q);
    lemma_times_comm(b, p - q);
    lemma_difference_of_squares(p, q);
    lemma_times_comm(c, times(p, p));
    lemma_times_comm(c, times(q, q));
    lemma_times_sub(c, times(p, p), times(q, q));
    let slope = b + 2real * times(c, x);
    assert(times(p, p) - times(q, q) == times(d, 2real * x));
    lemma_times_assoc(d, 2real * x, c);
    lemma_multiple(2real, x, c);
    lemma_times_comm(x, c);
    lemma_times_add(d, b, 2real * times(c, x));
    lemma_times_comm(d, b);
    lemma_times_comm(d, 2real * times(c, x));
    let rise = v(price_at(t_hi)) - v(price_at(t_lo));
    assert(rise == times(slope, d));
    lemma_times_neg(slope, d);
    lemma_times_cancel(v(central_theta_spec(m, expiry, price_at)), -slope, d);
}

/// The price that comes with sensitivities by repricing is the price, to the last rounding, and
/// at expiry there is no theta.
pub proof fn law_repricing_keeps_price<T: Number, M: Elementary<T>, P: BumpPriceable<T, M>>(
    m: M,
    spot: T,
    strike: T,
    expiry: T,
    rate: T,
    div_yield: T,
    p: P,
    opt_type: OptionType,
)
    ensures
        ({
            let g = bump_and_reprice_greeks_spec(
                m,
                spot,
                strike,
                expiry,
                rate,
                div_yield,
                p,
                opt_type,
            );
            &&& g.price == p.price_spec(m, spot, strike, expiry, rate, div_yield, opt_type)
            &&& expiry.is_le(&decimal_of::<T, M>(m, 1, -8)) ==> g.theta == num::<T>(0)
        }),
{
}

/// Two models that give every option the same price.
pub open spec fn price_alike<
    T: Number,
    M: Elementary<T>,
    P: BumpPriceable<T, M>,
    Q: BumpPriceable<T, M>,
>(m: M, p: P, q: Q) -> bool {
    forall|spot: T, strike: T, expiry: T, rate: T, div_yield: T, opt_type: OptionType| #[trigger]
        reprice_spec(m, p, spot, strike, expiry, rate, div_yield, opt_type) == reprice_spec(
            m,
            q,
            spot,
            strike,
            expiry,
            rate,
            div_yield,
            opt_type,
        )
}

/// Models that price alike, at every initial variance, have the same sensitivities by
/// repricing, to the last rounding.
pub proof fn law_alike_models_have_same_greeks<
    T: Number,
    M: Elementary<T>,
    P: BumpPriceable<T, M>,
    Q: BumpPriceable<T, M>,
>(
    m: M,
    spot: T,
    strike: T,
    expiry: T,
    rate: T,
    div_yield: T,
    p: P,
    q: Q,
    opt_type: OptionType,
)
    requires
        p.v0_spec() == q.v0_spec(),
        price_alike::<T, M, P, Q>(m, p, q),
        forall|w: T|
            price_alike::<T, M, P, Q>(m, #[trigger] p.with_v0_spec(w), q.with_v0_spec(w)),
    ensures
        bump_and_reprice_greeks_spec(m, spot, strike, expiry, rate, div_yield, p, opt_type)
            == bump_and_reprice_greeks_spec(
            m,
            spot,
            strike,
            expiry,
            rate,
            div_yield,
            q,
            opt_type,
        ),
{
    assert((|t: T| reprice_spec(m, p, spot, strike, t, rate, div_yield, opt_type)) =~= (|t: T|
        reprice_spec(m, q, spot, strike, t, rate, div_yield, opt_type)));
}

} // verus!
