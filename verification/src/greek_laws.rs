//! What sensitivities by repricing are derivatives of: each is exact, without rounding, where the
//! price is a polynomial of low degree in what it is a sensitivity to.
use crate::ad::{
    ad_vega_spec, at_variance_spec, bates_greeks_ad_spec, forward_pass_spec, heston_greeks_ad5_spec,
    heston_greeks_ad_spec, with_ad_vega_spec, JumpSpec,
};
use crate::ad_laws::{ideal, law_forward_pass_prices, law_joint_pass_is_five_passes, ln_of_root};
use crate::bates::jumps_spec;
use crate::exact::{
    exact, lemma_difference_of_squares, lemma_fraction, lemma_half, lemma_literal, lemma_multiple,
    lemma_times_add, lemma_times_assoc, lemma_times_cancel, lemma_times_comm, lemma_times_positive,
    lemma_times_sub, lemma_times_unit, sqrt_exact, times,
};
use crate::greeks::{
    bump_and_reprice_greeks_spec, law_theta_exact_on_quadratics, law_vol_bump_has_span,
    reprice_spec, spot_delta_spec, vol_bump_levels_spec, vol_step_spec, BumpPriceable,
};
use crate::number::{decimal_of, frac, num, sqrt_of, Elementary, Number};
use crate::types::{BatesParams, HestonParams, OptionType};
use vstd::prelude::*;
use vstd::std_specs::ops::{AddSpec, DivSpec, MulSpec, SubSpec};

verus! {

/// The value at `x` of the quadratic with the given coefficients.
pub open spec fn quadratic(a: real, b: real, c: real, x: real) -> real {
    a + times(b, x) + times(c, times(x, x))
}

/// The difference of a quadratic over an interval is its length times the slope halfway.
pub proof fn lemma_chord_of_quadratic(a: real, b: real, c: real, p: real, q: real)
    ensures
        quadratic(a, b, c, p) - quadratic(a, b, c, q) == times(b + times(c, p + q), p - q),
{
    lemma_times_sub(b, p, q);
    lemma_times_comm(b, p);
    lemma_times_comm(b, q);
    lemma_times_comm(b, p - q);
    lemma_difference_of_squares(p, q);
    lemma_times_comm(p - q, p + q);
    lemma_times_comm(c, times(p, p));
    lemma_times_comm(c, times(q, q));
    lemma_times_comm(c, times(p, p) - times(q, q));
    lemma_times_sub(c, times(p, p), times(q, q));
    lemma_times_assoc(c, p + q, p - q);
    lemma_times_add(p - q, b, times(c, p + q));
}

/// Rho is exact where the price is quadratic in the rate: it is the derivative there.
pub proof fn law_rho_exact_on_quadratics<T: Number, M: Elementary<T>, P: BumpPriceable<T, M>>(
    m: M,
    v: spec_fn(T) -> real,
    spot: T,
    strike: T,
    expiry: T,
    rate: T,
    div_yield: T,
    p: P,
    opt_type: OptionType,
    a: real,
    b: real,
    c: real,
)
    requires
        exact(v),
        forall|r: T|
            v(rate) - 1real <= v(r) <= v(rate) + 1real ==> v(
                #[trigger] reprice_spec(m, p, spot, strike, expiry, r, div_yield, opt_type),
            ) == quadratic(a, b, c, v(r)),
    ensures
        v(
            bump_and_reprice_greeks_spec(
                m,
                spot,
                strike,
                expiry,
                rate,
                div_yield,
                p,
                opt_type,
            ).rho,
        ) == b + 2real * times(c, v(rate)),
{
    let dr = frac::<T>(1, 10000);
    lemma_fraction(v, 1, 10000);
    let (up, dn) = (rate.add_spec(dr), rate.sub_spec(dr));
    let (x, h) = (v(rate), v(dr));
    lemma_chord_of_quadratic(a, b, c, v(up), v(dn));
    lemma_literal(2real, h);
    lemma_multiple(2real, c, x);
    assert(v(up) + v(dn) == 2real * x);
    assert(v(up) - v(dn) == 2real * h);
    let q = v(
        bump_and_reprice_greeks_spec(
            m,
            spot,
            strike,
            expiry,
            rate,
            div_yield,
            p,
            opt_type,
        ).rho,
    );
    let (fu, fd) = (
        reprice_spec(m, p, spot, strike, expiry, up, div_yield, opt_type),
        reprice_spec(m, p, spot, strike, expiry, dn, div_yield, opt_type),
    );
    assert(v(fu) == quadratic(a, b, c, v(up)));
    assert(v(fd) == quadratic(a, b, c, v(dn)));
    assert(times(q, 2real * h) == v(fu) - v(fd));
    lemma_times_cancel(q, b + 2real * times(c, x), 2real * h);
}

/// Delta and gamma are exact where the price is quadratic in the spot: they are its first and
/// second derivative there.
pub proof fn law_delta_and_gamma_exact_on_quadratics<
    T: Number,
    M: Elementary<T>,
    P: BumpPriceable<T, M>,
>(
    m: M,
    v: spec_fn(T) -> real,
    spot: T,
    strike: T,
    expiry: T,
    rate: T,
    div_yield: T,
    p: P,
    opt_type: OptionType,
    a: real,
    b: real,
    c: real,
)
    requires
        exact(v),
        v(spot) > 0real,
        forall|s: T|
            v(s) > 0real ==> v(
                #[trigger] reprice_spec(m, p, s, strike, expiry, rate, div_yield, opt_type),
            ) == quadratic(a, b, c, v(s)),
    ensures
        ({
            let g = bump_and_reprice_greeks_spec(
                m,
                spot,
                strike,
                expiry,
                rate,
                div_yield,
                p,
                opt_type,
            );
            &&& v(g.delta) == b + 2real * times(c, v(spot))
            &&& v(g.gamma) == 2real * c
        }),
{
    let ds = frac::<T>(1, 100).mul_spec(spot);
    lemma_fraction(v, 1, 100);
    lemma_literal(1real / 100real, v(spot));
    let (up, dn) = (spot.add_spec(ds), spot.sub_spec(ds));
    let (x, h) = (v(spot), v(ds));
    let g = bump_and_reprice_greeks_spec(
        m,
        spot,
        strike,
        expiry,
        rate,
        div_yield,
        p,
        opt_type,
    );
    lemma_chord_of_quadratic(a, b, c, v(up), v(dn));
    lemma_chord_of_quadratic(a, b, c, v(up), x);
    lemma_chord_of_quadratic(a, b, c, x, v(dn));
    lemma_literal(2real, h);
    lemma_multiple(2real, c, x);
    assert(v(up) + v(dn) == 2real * x);
    assert(v(up) - v(dn) == 2real * h);
    let (fu, f0, fd) = (
        reprice_spec(m, p, up, strike, expiry, rate, div_yield, opt_type),
        reprice_spec(m, p, spot, strike, expiry, rate, div_yield, opt_type),
        reprice_spec(m, p, dn, strike, expiry, rate, div_yield, opt_type),
    );
    assert(v(fu) == quadratic(a, b, c, v(up)));
    assert(v(f0) == quadratic(a, b, c, x));
    assert(v(fd) == quadratic(a, b, c, v(dn)));
    assert(times(v(g.delta), 2real * h) == v(fu) - v(fd));
    lemma_times_cancel(v(g.delta), b + 2real * times(c, x), 2real * h);
    // The two chords differ by the coefficient times twice the step.
    lemma_literal(2real, v(f0));
    let (s, t) = (b + times(c, v(up) + x), b + times(c, x + v(dn)));
    lemma_times_comm(c, v(up) + x);
    lemma_times_comm(c, x + v(dn));
    lemma_times_sub(c, v(up) + x, x + v(dn));
    lemma_times_comm(c, 2real * h);
    lemma_multiple(2real, h, c);
    lemma_times_sub(h, s, t);
    lemma_times_assoc(h, c, h);
    lemma_times_comm(h, c);
    let hh = times(h, h);
    lemma_times_positive(h, h);
    lemma_multiple(2real, times(c, h), h);
    lemma_times_assoc(c, h, h);
    lemma_multiple(2real, c, hh);
    assert(times(v(g.gamma), hh) == times(2real * c, hh));
    lemma_times_cancel(v(g.gamma), 2real * c, hh);
}

/// Vega is exact where the price is linear in volatility, and where it is quadratic and the lower
/// of the two volatilities is not cut off at zero.
pub proof fn law_vega_exact_on_quadratics<T: Number, M: Elementary<T>, P: BumpPriceable<T, M>>(
    m: M,
    v: spec_fn(T) -> real,
    spot: T,
    strike: T,
    expiry: T,
    rate: T,
    div_yield: T,
    p: P,
    opt_type: OptionType,
    a: real,
    b: real,
    c: real,
)
    requires
        exact(v),
        v(decimal_of::<T, M>(m, 1, -4)) > 0real,
        v(sqrt_of(m, p.v0_spec())) >= 0real,
        c == 0real || v(sqrt_of(m, p.v0_spec())) >= v(
            vol_step_spec(m, sqrt_of(m, p.v0_spec())),
        ),
        forall|x: T|
            v(x) >= 0real ==> v(
                #[trigger] reprice_spec(
                    m,
                    p.with_v0_spec(x.mul_spec(x)),
                    spot,
                    strike,
                    expiry,
                    rate,
                    div_yield,
                    opt_type,
                ),
            ) == quadratic(a, b, c, v(x)),
    ensures
        v(
            bump_and_reprice_greeks_spec(
                m,
                spot,
                strike,
                expiry,
                rate,
                div_yield,
                p,
                opt_type,
            ).vega,
        ) == b + 2real * times(c, v(sqrt_of(m, p.v0_spec()))),
{
    let cur = sqrt_of(m, p.v0_spec());
    let (up, dn, span) = vol_bump_levels_spec(m, cur, num::<T>(1));
    law_vol_bump_has_span(m, v, cur, num::<T>(1));
    lemma_times_unit(v(vol_step_spec(m, cur)));
    lemma_chord_of_quadratic(a, b, c, v(up), v(dn));
    let (fu, fd) = (
        reprice_spec(
            m,
            p.with_v0_spec(up.mul_spec(up)),
            spot,
            strike,
            expiry,
            rate,
            div_yield,
            opt_type,
        ),
        reprice_spec(
            m,
            p.with_v0_spec(dn.mul_spec(dn)),
            spot,
            strike,
            expiry,
            rate,
            div_yield,
            opt_type,
        ),
    );
    assert(v(fu) == quadratic(a, b, c, v(up)));
    assert(v(fd) == quadratic(a, b, c, v(dn)));
    let g = bump_and_reprice_greeks_spec(
        m,
        spot,
        strike,
        expiry,
        rate,
        div_yield,
        p,
        opt_type,
    );
    let slope = b + times(c, v(up) + v(dn));
    lemma_times_cancel(v(g.vega), slope, v(span));
    if c == 0real {
        lemma_times_unit(v(up) + v(dn));
        lemma_times_unit(v(cur));
    } else {
        assert(v(up) + v(dn) == 2real * v(cur));
        lemma_multiple(2real, c, v(cur));
    }
}

/// Volga is exact where the price is quadratic in volatility: it is the second derivative, from
/// every level above zero.
pub proof fn law_volga_exact_on_quadratics<T: Number, M: Elementary<T>, P: BumpPriceable<T, M>>(
    m: M,
    v: spec_fn(T) -> real,
    spot: T,
    strike: T,
    expiry: T,
    rate: T,
    div_yield: T,
    p: P,
    opt_type: OptionType,
    a: real,
    b: real,
    c: real,
)
    requires
        exact(v),
        v(decimal_of::<T, M>(m, 1, -4)) > 0real,
        v(sqrt_of(m, p.v0_spec())) > 0real,
        v(reprice_spec(m, p, spot, strike, expiry, rate, div_yield, opt_type)) == quadratic(
            a,
            b,
            c,
            v(sqrt_of(m, p.v0_spec())),
        ),
        forall|x: T|
            v(x) >= 0real ==> v(
                #[trigger] reprice_spec(
                    m,
                    p.with_v0_spec(x.mul_spec(x)),
                    spot,
                    strike,
                    expiry,
                    rate,
                    div_yield,
                    opt_type,
                ),
            ) == quadratic(a, b, c, v(x)),
    ensures
        v(
            bump_and_reprice_greeks_spec(
                m,
                spot,
                strike,
                expiry,
                rate,
                div_yield,
                p,
                opt_type,
            ).volga,
        ) == 2real * c,
{
    let cur = sqrt_of(m, p.v0_spec());
    let (up, dn, _) = vol_bump_levels_spec(m, cur, num::<T>(2));
    law_vol_bump_has_span(m, v, cur, num::<T>(2));
    let (x, y, z) = (v(up), v(cur), v(dn));
    lemma_chord_of_quadratic(a, b, c, x, y);
    lemma_chord_of_quadratic(a, b, c, y, z);
    let (pu, pd) = (p.with_v0_spec(up.mul_spec(up)), p.with_v0_spec(dn.mul_spec(dn)));
    let f0 = reprice_spec(m, p, spot, strike, expiry, rate, div_yield, opt_type);
    let fu = reprice_spec(m, pu, spot, strike, expiry, rate, div_yield, opt_type);
    let fd = reprice_spec(m, pd, spot, strike, expiry, rate, div_yield, opt_type);
    assert(v(fu) == quadratic(a, b, c, x));
    assert(v(fd) == quadratic(a, b, c, z));
    let (su, sd) = (up.sub_spec(cur), cur.sub_spec(dn));
    assert(v(sd) > 0real);
    let first = fu.sub_spec(f0).div_spec(su);
    let second = f0.sub_spec(fd).div_spec(sd);
    lemma_times_cancel(v(first), b + times(c, x + y), v(su));
    lemma_times_cancel(v(second), b + times(c, y + z), v(sd));
    lemma_times_comm(c, x + y);
    lemma_times_comm(c, y + z);
    lemma_times_sub(c, x + y, y + z);
    lemma_half::<T>(v);
    let den = frac::<T>(1, 2).mul_spec(su.add_spec(sd));
    lemma_literal(1real / 2real, x - z);
    assert(v(den) == (x - z) / 2real);
    assert(v(first) - v(second) == times(x - z, c));
    lemma_multiple(2real, v(den), c);
    lemma_times_comm(2real * c, v(den));
    lemma_multiple(2real, c, v(den));
    lemma_times_comm(c, v(den));
    let g = bump_and_reprice_greeks_spec(
        m,
        spot,
        strike,
        expiry,
        rate,
        div_yield,
        p,
        opt_type,
    );
    assert(times(v(g.volga), v(den)) == v(first) - v(second));
    lemma_times_cancel(v(g.volga), 2real * c, v(den));
}

/// Vanna is exact where the price is a product of the spot and volatility, up to terms in one of
/// them alone: it is the mixed derivative.
pub proof fn law_vanna_exact_on_products<T: Number, M: Elementary<T>, P: BumpPriceable<T, M>>(
    m: M,
    v: spec_fn(T) -> real,
    spot: T,
    strike: T,
    expiry: T,
    rate: T,
    div_yield: T,
    p: P,
    opt_type: OptionType,
    alone: spec_fn(real) -> real,
    b: real,
    c: real,
    d: real,
)
    requires
        exact(v),
        v(decimal_of::<T, M>(m, 1, -4)) > 0real,
        v(sqrt_of(m, p.v0_spec())) >= 0real,
        v(spot) > 0real,
        forall|s: T, x: T|
            v(s) > 0real && v(x) >= 0real ==> v(
                #[trigger] reprice_spec(
                    m,
                    p.with_v0_spec(x.mul_spec(x)),
                    s,
                    strike,
                    expiry,
                    rate,
                    div_yield,
                    opt_type,
                ),
            ) == quadratic(alone(v(x)), b + times(d, v(x)), c, v(s)),
    ensures
        v(
            bump_and_reprice_greeks_spec(
                m,
                spot,
                strike,
                expiry,
                rate,
                div_yield,
                p,
                opt_type,
            ).vanna,
        ) == d,
{
    let cur = sqrt_of(m, p.v0_spec());
    let (up, dn, span) = vol_bump_levels_spec(m, cur, num::<T>(1));
    law_vol_bump_has_span(m, v, cur, num::<T>(1));
    let ds = frac::<T>(1, 100).mul_spec(spot);
    lemma_fraction(v, 1, 100);
    lemma_literal(1real / 100real, v(spot));
    let (pu, pd) = (p.with_v0_spec(up.mul_spec(up)), p.with_v0_spec(dn.mul_spec(dn)));
    let du = spot_delta_spec(m, pu, spot, strike, expiry, rate, div_yield, opt_type, ds);
    let dd = spot_delta_spec(m, pd, spot, strike, expiry, rate, div_yield, opt_type, ds);
    lemma_delta_of_quadratic(
        m,
        v,
        spot,
        strike,
        expiry,
        rate,
        div_yield,
        p,
        opt_type,
        ds,
        up,
        alone(v(up)),
        b + times(d, v(up)),
        c,
    );
    lemma_delta_of_quadratic(
        m,
        v,
        spot,
        strike,
        expiry,
        rate,
        div_yield,
        p,
        opt_type,
        ds,
        dn,
        alone(v(dn)),
        b + times(d, v(dn)),
        c,
    );
    lemma_times_comm(d, v(up));
    lemma_times_comm(d, v(dn));
    lemma_times_comm(d, v(up) - v(dn));
    lemma_times_sub(d, v(up), v(dn));
    let g = bump_and_reprice_greeks_spec(
        m,
        spot,
        strike,
        expiry,
        rate,
        div_yield,
        p,
        opt_type,
    );
    assert(v(du) - v(dd) == times(d, v(up) - v(dn)));
    lemma_times_cancel(v(g.vanna), d, v(span));
}

/// The central difference in the spot at another volatility.
proof fn lemma_delta_of_quadratic<T: Number, M: Elementary<T>, P: BumpPriceable<T, M>>(
    m: M,
    v: spec_fn(T) -> real,
    spot: T,
    strike: T,
    expiry: T,
    rate: T,
    div_yield: T,
    p: P,
    opt_type: OptionType,
    ds: T,
    x: T,
    a: real,
    b: real,
    c: real,
)
    requires
        exact(v),
        0real < v(ds) < v(spot),
        forall|s: T|
            v(s) > 0real ==> v(
                #[trigger] reprice_spec(
                    m,
                    p.with_v0_spec(x.mul_spec(x)),
                    s,
                    strike,
                    expiry,
                    rate,
                    div_yield,
                    opt_type,
                ),
            ) == quadratic(a, b, c, v(s)),
    ensures
        v(
            spot_delta_spec(
                m,
                p.with_v0_spec(x.mul_spec(x)),
                spot,
                strike,
                expiry,
                rate,
                div_yield,
                opt_type,
                ds,
            ),
        ) == b + 2real * times(c, v(spot)),
{
    let q = p.with_v0_spec(x.mul_spec(x));
    let (up, dn) = (spot.add_spec(ds), spot.sub_spec(ds));
    let (s, h) = (v(spot), v(ds));
    lemma_chord_of_quadratic(a, b, c, v(up), v(dn));
    lemma_literal(2real, h);
    lemma_multiple(2real, c, s);
    assert(v(up) + v(dn) == 2real * s);
    assert(v(up) - v(dn) == 2real * h);
    let fu = reprice_spec(m, q, up, strike, expiry, rate, div_yield, opt_type);
    let fd = reprice_spec(m, q, dn, strike, expiry, rate, div_yield, opt_type);
    assert(v(fu) == quadratic(a, b, c, v(up)));
    assert(v(fd) == quadratic(a, b, c, v(dn)));
    let e = v(spot_delta_spec(m, q, spot, strike, expiry, rate, div_yield, opt_type, ds));
    assert(times(e, 2real * h) == v(fu) - v(fd));
    lemma_times_cancel(e, b + 2real * times(c, s), 2real * h);
}

/// Theta among the sensitivities is exact where the price is quadratic in the time to expiry: it
/// is minus the derivative there, for time that passes is life that is lost.
pub proof fn law_bump_theta_exact_on_quadratics<
    T: Number,
    M: Elementary<T>,
    P: BumpPriceable<T, M>,
>(
    m: M,
    v: spec_fn(T) -> real,
    spot: T,
    strike: T,
    expiry: T,
    rate: T,
    div_yield: T,
    p: P,
    opt_type: OptionType,
    a: real,
    b: real,
    c: real,
)
    requires
        exact(v),
        0real < v(decimal_of::<T, M>(m, 1, -9)),
        4real * v(decimal_of::<T, M>(m, 1, -9)) <= v(decimal_of::<T, M>(m, 1, -8)),
        v(expiry) > v(decimal_of::<T, M>(m, 1, -8)),
        forall|t: T|
            v(t) > 0real ==> v(
                #[trigger] reprice_spec(m, p, spot, strike, t, rate, div_yield, opt_type),
            ) == quadratic(a, b, c, v(t)),
    ensures
        v(
            bump_and_reprice_greeks_spec(
                m,
                spot,
                strike,
                expiry,
                rate,
                div_yield,
                p,
                opt_type,
            ).theta,
        ) == -(b + 2real * times(c, v(expiry))),
{
    let f = |t: T| reprice_spec(m, p, spot, strike, t, rate, div_yield, opt_type);
    assert forall|t: T| v(t) > 0real implies v(#[trigger] f(t)) == a + times(b, v(t)) + times(
        c,
        times(v(t), v(t)),
    ) by {
        assert(v(reprice_spec(m, p, spot, strike, t, rate, div_yield, opt_type)) == quadratic(
            a,
            b,
            c,
            v(t),
        ));
    }
    law_theta_exact_on_quadratics(m, v, expiry, f, a, b, c);
}

/// The sensitivities that come with a vega from elsewhere are those by repricing, all but vega
/// and volga, to the last rounding; gamma too where the price is the model's.
proof fn lemma_shared_greeks<T: Number, M: Elementary<T>, P: BumpPriceable<T, M>>(
    m: M,
    spot: T,
    strike: T,
    expiry: T,
    rate: T,
    div_yield: T,
    p: P,
    opt_type: OptionType,
    price: T,
    vega: T,
    volga: T,
)
    ensures
        ({
            let x = bump_and_reprice_greeks_spec(
                m,
                spot,
                strike,
                expiry,
                rate,
                div_yield,
                p,
                opt_type,
            );
            let y = with_ad_vega_spec(
                m,
                spot,
                strike,
                expiry,
                rate,
                div_yield,
                p,
                opt_type,
                price,
                vega,
                volga,
            );
            &&& y.price == price && y.vega == vega && y.volga == volga
            &&& y.delta == x.delta
            &&& y.theta == x.theta
            &&& y.rho == x.rho
            &&& y.vanna == x.vanna
            &&& price == x.price ==> y.gamma == x.gamma
        }),
{
}

/// The sensitivities of Heston's model with a vega by forward passes are those by repricing, all
/// but vega and volga, and so is the price.
pub proof fn law_heston_ad_shares_bumped_greeks<T: Number, M: Elementary<T>>(
    m: M,
    v: spec_fn(T) -> real,
    spot: T,
    strike: T,
    expiry: T,
    rate: T,
    div_yield: T,
    p: HestonParams<T>,
    opt_type: OptionType,
)
    requires
        ideal(m, v),
    ensures
        ({
            let x = bump_and_reprice_greeks_spec(
                m,
                spot,
                strike,
                expiry,
                rate,
                div_yield,
                p,
                opt_type,
            );
            let y = heston_greeks_ad_spec(m, spot, strike, expiry, rate, div_yield, p, opt_type);
            let z = heston_greeks_ad5_spec(m, spot, strike, expiry, rate, div_yield, p, opt_type);
            &&& y.price == x.price && y.delta == x.delta && y.gamma == x.gamma && y.theta
                == x.theta && y.rho == x.rho && y.vanna == x.vanna
            &&& z.delta == x.delta && z.theta == x.theta && z.rho == x.rho && z.vanna == x.vanna
        }),
{
    let off = JumpSpec::<T>::Off;
    let (price, vega, volga) = ad_vega_spec(
        m,
        spot,
        strike,
        expiry,
        rate,
        div_yield,
        p,
        opt_type,
        off,
    );
    let z = heston_greeks_ad5_spec(m, spot, strike, expiry, rate, div_yield, p, opt_type);
    law_forward_pass_prices(m, v, spot, strike, expiry, rate, div_yield, p, opt_type, 0, off);
    lemma_shared_greeks(
        m,
        spot,
        strike,
        expiry,
        rate,
        div_yield,
        p,
        opt_type,
        price,
        vega,
        volga,
    );
    lemma_shared_greeks(
        m,
        spot,
        strike,
        expiry,
        rate,
        div_yield,
        p,
        opt_type,
        z.price,
        z.vega,
        z.volga,
    );
}

/// The sensitivities of Bates's model with a vega by forward passes are those by repricing, all
/// but vega and volga, and so is the price.
pub proof fn law_bates_ad_shares_bumped_greeks<T: Number, M: Elementary<T>>(
    m: M,
    v: spec_fn(T) -> real,
    spot: T,
    strike: T,
    expiry: T,
    rate: T,
    div_yield: T,
    p: BatesParams<T>,
    opt_type: OptionType,
)
    requires
        ideal(m, v),
    ensures
        ({
            let x = bump_and_reprice_greeks_spec(
                m,
                spot,
                strike,
                expiry,
                rate,
                div_yield,
                p,
                opt_type,
            );
            let y = bates_greeks_ad_spec(m, spot, strike, expiry, rate, div_yield, p, opt_type);
            &&& y.price == x.price && y.delta == x.delta && y.gamma == x.gamma && y.theta
                == x.theta && y.rho == x.rho && y.vanna == x.vanna
        }),
{
    let on = JumpSpec::Const(jumps_spec(p));
    let (price, vega, volga) = ad_vega_spec(
        m,
        spot,
        strike,
        expiry,
        rate,
        div_yield,
        p.heston,
        opt_type,
        on,
    );
    law_forward_pass_prices(
        m,
        v,
        spot,
        strike,
        expiry,
        rate,
        div_yield,
        p.heston,
        opt_type,
        0,
        on,
    );
    lemma_shared_greeks(
        m,
        spot,
        strike,
        expiry,
        rate,
        div_yield,
        p,
        opt_type,
        price,
        vega,
        volga,
    );
}

/// Vega by forward passes is the derivative in volatility by the chain rule: the derivative of
/// the price in the initial variance, times twice the volatility. Where that is linear in
/// volatility, volga is its slope.
pub proof fn law_ad_vega_by_chain_rule<T: Number, M: Elementary<T>>(
    m: M,
    v: spec_fn(T) -> real,
    spot: T,
    strike: T,
    expiry: T,
    rate: T,
    div_yield: T,
    p: HestonParams<T>,
    opt_type: OptionType,
    jump: JumpSpec<T>,
    a: real,
    b: real,
)
    requires
        exact(v),
        sqrt_exact(m, v),
        v(decimal_of::<T, M>(m, 1, -4)) > 0real,
        v(p.v0) >= 0real,
        forall|w: T, x: T|
            #![trigger at_variance_spec(p, w), sqrt_of(m, x)]
            times(v(x), v(x)) == v(w) && v(x) >= 0real ==> 2real * times(
                v(
                    forward_pass_spec(
                        m,
                        spot,
                        strike,
                        expiry,
                        rate,
                        div_yield,
                        at_variance_spec(p, w),
                        opt_type,
                        0,
                        jump,
                    ).1,
                ),
                v(x),
            ) == a + times(b, v(x)),
    ensures
        ({
            let (_, vega, volga) = ad_vega_spec(
                m,
                spot,
                strike,
                expiry,
                rate,
                div_yield,
                p,
                opt_type,
                jump,
            );
            &&& v(vega) == a + times(b, v(sqrt_of(m, p.v0)))
            &&& v(volga) == b
        }),
{
    let cur = sqrt_of(m, p.v0);
    let (up, dn, span) = vol_bump_levels_spec(m, cur, num::<T>(1));
    law_vol_bump_has_span(m, v, cur, num::<T>(1));
    assert(at_variance_spec(p, p.v0) == p);
    let (wu, wd) = (up.mul_spec(up), dn.mul_spec(dn));
    let du = forward_pass_spec(
        m,
        spot,
        strike,
        expiry,
        rate,
        div_yield,
        at_variance_spec(p, wu),
        opt_type,
        0,
        jump,
    ).1;
    let dd = forward_pass_spec(
        m,
        spot,
        strike,
        expiry,
        rate,
        div_yield,
        at_variance_spec(p, wd),
        opt_type,
        0,
        jump,
    ).1;
    let d = forward_pass_spec(
        m,
        spot,
        strike,
        expiry,
        rate,
        div_yield,
        p,
        opt_type,
        0,
        jump,
    ).1;
    // The roots of the three variances.
    let (ru, rd, r) = (sqrt_of(m, up), sqrt_of(m, dn), sqrt_of(m, cur));
    assert(2real * times(v(d), v(cur)) == a + times(b, v(cur)));
    assert(2real * times(v(du), v(up)) == a + times(b, v(up)));
    assert(2real * times(v(dd), v(dn)) == a + times(b, v(dn)));
    lemma_literal(2real, v(d));
    lemma_literal(2real, v(du));
    lemma_literal(2real, v(dd));
    lemma_multiple(2real, v(d), v(cur));
    lemma_multiple(2real, v(du), v(up));
    lemma_multiple(2real, v(dd), v(dn));
    lemma_times_comm(b, v(up));
    lemma_times_comm(b, v(dn));
    lemma_times_comm(b, v(up) - v(dn));
    lemma_times_sub(b, v(up), v(dn));
    let (_, vega, volga) = ad_vega_spec(
        m,
        spot,
        strike,
        expiry,
        rate,
        div_yield,
        p,
        opt_type,
        jump,
    );
    lemma_times_cancel(v(volga), b, v(span));
}

/// The sensitivities by joint passes are those by single passes: vega and volga are the same, and
/// so are all that come from repricing alone.
pub proof fn law_joint_greeks_are_single_greeks<T: Number, M: Elementary<T>>(
    m: M,
    v: spec_fn(T) -> real,
    spot: T,
    strike: T,
    expiry: T,
    rate: T,
    div_yield: T,
    p: HestonParams<T>,
    opt_type: OptionType,
)
    requires
        ideal(m, v),
        ln_of_root(m, v),
    ensures
        ({
            let a = heston_greeks_ad_spec(m, spot, strike, expiry, rate, div_yield, p, opt_type);
            let b = heston_greeks_ad5_spec(m, spot, strike, expiry, rate, div_yield, p, opt_type);
            &&& a.vega == b.vega && a.volga == b.volga && a.vanna == b.vanna
            &&& a.delta == b.delta && a.theta == b.theta && a.rho == b.rho
        }),
{
    let vol = sqrt_of(m, p.v0);
    let (v_up, v_dn, _) = vol_bump_levels_spec(m, vol, num::<T>(1));
    let p_up = at_variance_spec(p, v_up.mul_spec(v_up));
    let p_dn = at_variance_spec(p, v_dn.mul_spec(v_dn));
    law_joint_pass_is_five_passes(
        m,
        v,
        spot,
        strike,
        expiry,
        rate,
        div_yield,
        p,
        opt_type,
        0,
    );
    law_joint_pass_is_five_passes(
        m,
        v,
        spot,
        strike,
        expiry,
        rate,
        div_yield,
        p_up,
        opt_type,
        0,
    );
    law_joint_pass_is_five_passes(
        m,
        v,
        spot,
        strike,
        expiry,
        rate,
        div_yield,
        p_dn,
        opt_type,
        0,
    );
}

/// The value at `x` of the cubic with the given coefficients.
pub open spec fn cubic(a: real, b: real, c: real, e: real, x: real) -> real {
    quadratic(a, b, c, x) + times(e, times(x, times(x, x)))
}

/// The cube of a sum and of a difference: their difference.
proof fn lemma_cubes(x: real, h: real)
    ensures
        ({
            let (p, q) = (x + h, x - h);
            times(p, times(p, p)) - times(q, times(q, q)) == times(
                3real * times(x, x) + times(h, h),
                2real * h,
            )
        }),
{
    let (p, q) = (x + h, x - h);
    let (xx, xh, hh) = (times(x, x), times(x, h), times(h, h));
    lemma_times_comm(x, h);
    assert(times(p, p) == xx + 2real * xh + hh) by {
        lemma_times_add(p, x, h);
        lemma_times_add(x, x, h);
        lemma_times_add(h, x, h);
    }
    assert(times(q, q) == xx - 2real * xh + hh) by {
        lemma_times_sub(q, x, h);
        lemma_times_sub(x, x, h);
        lemma_times_sub(h, x, h);
    }
    // The mixed terms are multiples of two products.
    lemma_times_assoc(x, x, h);
    lemma_times_comm(xx, h);
    lemma_times_assoc(h, h, x);
    lemma_times_comm(hh, x);
    assert(times(x, xh) == times(h, xx));
    assert(times(h, xh) == times(x, hh));
    let (pp, qq) = (xx + 2real * xh + hh, xx - 2real * xh + hh);
    lemma_times_add(pp, x, h);
    lemma_times_sub(qq, x, h);
    lemma_times_add(x, xx + 2real * xh, hh);
    lemma_times_add(x, xx, 2real * xh);
    lemma_multiple(2real, x, xh);
    lemma_times_add(h, xx + 2real * xh, hh);
    lemma_times_add(h, xx, 2real * xh);
    lemma_multiple(2real, h, xh);
    lemma_times_add(x, xx - 2real * xh, hh);
    lemma_times_sub(x, xx, 2real * xh);
    lemma_times_add(h, xx - 2real * xh, hh);
    lemma_times_sub(h, xx, 2real * xh);
    // The product on the right, term by term.
    lemma_multiple(2real, 3real * xx + hh, h);
    lemma_times_add(h, 3real * xx, hh);
    lemma_multiple(3real, xx, h);
    lemma_times_comm(h, hh);
}

/// The central difference of a cubic over a step: the derivative, and the coefficient of the cube
/// times the square of the step.
proof fn lemma_central_difference_of_cubic(
    a: real,
    b: real,
    c: real,
    e: real,
    x: real,
    h: real,
)
    ensures
        cubic(a, b, c, e, x + h) - cubic(a, b, c, e, x - h) == times(
            b + 2real * times(c, x) + times(e, 3real * times(x, x) + times(h, h)),
            2real * h,
        ),
{
    lemma_chord_of_quadratic(a, b, c, x + h, x - h);
    lemma_multiple(2real, c, x);
    assert((x + h) + (x - h) == 2real * x);
    assert((x + h) - (x - h) == 2real * h);
    lemma_cubes(x, h);
    let (p, q) = (x + h, x - h);
    let k = 3real * times(x, x) + times(h, h);
    lemma_times_sub(e, times(p, times(p, p)), times(q, times(q, q)));
    lemma_times_assoc(e, k, 2real * h);
    lemma_times_add(2real * h, b + 2real * times(c, x), times(e, k));
}

/// The step of delta is a hundredth of the spot: where the price is cubic in the spot, delta misses
/// the derivative by the coefficient of the cube times the square of that step.
pub proof fn law_delta_on_cubics<T: Number, M: Elementary<T>, P: BumpPriceable<T, M>>(
    m: M,
    v: spec_fn(T) -> real,
    spot: T,
    strike: T,
    expiry: T,
    rate: T,
    div_yield: T,
    p: P,
    opt_type: OptionType,
    a: real,
    b: real,
    c: real,
    e: real,
)
    requires
        exact(v),
        v(spot) > 0real,
        forall|s: T|
            v(s) > 0real ==> v(
                #[trigger] reprice_spec(m, p, s, strike, expiry, rate, div_yield, opt_type),
            ) == cubic(a, b, c, e, v(s)),
    ensures
        v(
            bump_and_reprice_greeks_spec(
                m,
                spot,
                strike,
                expiry,
                rate,
                div_yield,
                p,
                opt_type,
            ).delta,
        ) == b + 2real * times(c, v(spot)) + times(
            e,
            3real * times(v(spot), v(spot)) + times(v(spot) / 100real, v(spot) / 100real),
        ),
{
    let ds = frac::<T>(1, 100).mul_spec(spot);
    lemma_fraction(v, 1, 100);
    lemma_literal(1real / 100real, v(spot));
    let (up, dn) = (spot.add_spec(ds), spot.sub_spec(ds));
    let (x, h) = (v(spot), v(ds));
    assert(h == x / 100real);
    lemma_central_difference_of_cubic(a, b, c, e, x, h);
    lemma_literal(2real, h);
    let q = v(
        bump_and_reprice_greeks_spec(
            m,
            spot,
            strike,
            expiry,
            rate,
            div_yield,
            p,
            opt_type,
        ).delta,
    );
    let (fu, fd) = (
        reprice_spec(m, p, up, strike, expiry, rate, div_yield, opt_type),
        reprice_spec(m, p, dn, strike, expiry, rate, div_yield, opt_type),
    );
    assert(v(fu) == cubic(a, b, c, e, v(up)));
    assert(v(fd) == cubic(a, b, c, e, v(dn)));
    assert(times(q, 2real * h) == v(fu) - v(fd));
    lemma_times_cancel(
        q,
        b + 2real * times(c, x) + times(e, 3real * times(x, x) + times(h, h)),
        2real * h,
    );
}

/// The step of rho is a basis point: where the price is cubic in the rate, rho misses the
/// derivative by the coefficient of the cube times the square of that step.
pub proof fn law_rho_on_cubics<T: Number, M: Elementary<T>, P: BumpPriceable<T, M>>(
    m: M,
    v: spec_fn(T) -> real,
    spot: T,
    strike: T,
    expiry: T,
    rate: T,
    div_yield: T,
    p: P,
    opt_type: OptionType,
    a: real,
    b: real,
    c: real,
    e: real,
)
    requires
        exact(v),
        forall|r: T|
            v(rate) - 1real <= v(r) <= v(rate) + 1real ==> v(
                #[trigger] reprice_spec(m, p, spot, strike, expiry, r, div_yield, opt_type),
            ) == cubic(a, b, c, e, v(r)),
    ensures
        v(
            bump_and_reprice_greeks_spec(
                m,
                spot,
                strike,
                expiry,
                rate,
                div_yield,
                p,
                opt_type,
            ).rho,
        ) == b + 2real * times(c, v(rate)) + times(
            e,
            3real * times(v(rate), v(rate)) + 1real / 100000000real,
        ),
{
    let dr = frac::<T>(1, 10000);
    lemma_fraction(v, 1, 10000);
    let (up, dn) = (rate.add_spec(dr), rate.sub_spec(dr));
    let (x, h) = (v(rate), v(dr));
    lemma_literal(1real / 10000real, h);
    assert(times(h, h) == 1real / 100000000real);
    lemma_central_difference_of_cubic(a, b, c, e, x, h);
    lemma_literal(2real, h);
    let q = v(
        bump_and_reprice_greeks_spec(
            m,
            spot,
            strike,
            expiry,
            rate,
            div_yield,
            p,
            opt_type,
        ).rho,
    );
    let (fu, fd) = (
        reprice_spec(m, p, spot, strike, expiry, up, div_yield, opt_type),
        reprice_spec(m, p, spot, strike, expiry, dn, div_yield, opt_type),
    );
    assert(v(fu) == cubic(a, b, c, e, v(up)));
    assert(v(fd) == cubic(a, b, c, e, v(dn)));
    assert(times(q, 2real * h) == v(fu) - v(fd));
    lemma_times_cancel(
        q,
        b + 2real * times(c, x) + times(e, 3real * times(x, x) + times(h, h)),
        2real * h,
    );
}

} // verus!
