//! How the sensitivities of the closed forms are tied to the price and to each other: the
//! equation that prices obey in time, and what the sensitivities to volatility and to the rate
//! are in terms of the others.
use crate::bsm::{black76_price_and_greeks_spec, bsm_price_and_greeks_spec, d_terms_spec};
use crate::exact::{
    exact, lemma_difference_of_squares, lemma_half, lemma_literal, lemma_multiple,
    lemma_root_positive, lemma_square_of_product, lemma_times_add, lemma_times_assoc,
    lemma_times_cancel, lemma_times_comm, lemma_times_neg, lemma_times_positive, lemma_times_sub,
    lemma_times_unit, sqrt_exact, times,
};
use crate::math::{ncdf_spec, npdf_spec};
use crate::number::{exp_of, frac, ln_of, num, sqrt_of, Elementary, Number};
use crate::types::{OptionContract, OptionType};
use vstd::prelude::*;
use vstd::std_specs::ops::{AddSpec, DivSpec, MulSpec, NegSpec, SubSpec};

verus! {

/// A contract whose closed form is defined: price, strike, expiry and volatility are positive.
pub open spec fn is_live<T>(v: spec_fn(T) -> real, c: OptionContract<T>) -> bool {
    v(c.spot) > 0real && v(c.strike) > 0real && v(c.expiry) > 0real && v(c.vol) > 0real
}

/// The first two of three factors change places.
pub proof fn lemma_swap(a: real, b: real, c: real)
    ensures
        times(a, times(b, c)) == times(b, times(a, c)),
{
    lemma_times_assoc(a, b, c);
    lemma_times_comm(a, b);
    lemma_times_assoc(b, a, c);
}

/// The inner two of four factors change places.
pub proof fn lemma_interchange(a: real, b: real, c: real, d: real)
    ensures
        times(times(a, b), times(c, d)) == times(times(a, c), times(b, d)),
{
    lemma_times_assoc(a, b, times(c, d));
    lemma_swap(b, c, d);
    lemma_times_assoc(a, c, times(b, d));
}

/// The sensitivity to volatility from the second one to the price.
proof fn lemma_vega_gamma(s: real, sig: real, root: real, g: real)
    ensures
        times(times(sig, times(root, root)), times(times(s, s), g)) == times(
            times(s, times(g, times(times(s, sig), root))),
            root,
        ),
{
    let (rr, ss) = (times(root, root), times(s, s));
    let y = times(g, times(sig, root));
    lemma_times_assoc(s, sig, root);
    lemma_swap(g, s, times(sig, root));
    lemma_times_assoc(s, s, y);
    lemma_times_comm(times(ss, y), root);
    lemma_swap(root, ss, y);
    lemma_swap(root, g, times(sig, root));
    lemma_swap(root, sig, root);
    lemma_times_assoc(ss, g, times(sig, rr));
    lemma_times_comm(times(ss, g), times(sig, rr));
}

/// Products with a factor drawn out.
proof fn lemma_draw_out(f: real, a: real, b: real, c: real)
    ensures
        times(f, times(times(a, b), c)) == times(a, times(f, times(b, c))),
        times(times(times(f, a), b), c) == times(a, times(f, times(b, c))),
        times(a, times(times(f, b), c)) == times(f, times(times(a, b), c)),
{
    let bc = times(b, c);
    lemma_times_assoc(a, b, c);
    lemma_swap(f, a, bc);
    lemma_times_assoc(times(f, a), b, c);
    lemma_times_assoc(f, a, bc);
    lemma_times_assoc(f, b, c);
    lemma_swap(a, f, bc);
}

/// Vega is gamma times the square of the price, the volatility and the time to expiry.
pub proof fn law_bsm_vega_from_gamma<T: Number, M: Elementary<T>>(
    m: M,
    v: spec_fn(T) -> real,
    c: OptionContract<T>,
)
    requires
        exact(v),
        sqrt_exact(m, v),
        is_live(v, c),
    ensures
        ({
            let g = bsm_price_and_greeks_spec(m, c);
            v(g.vega) == times(
                times(v(c.vol), v(c.expiry)),
                times(times(v(c.spot), v(c.spot)), v(g.gamma)),
            )
        }),
{
    let g = bsm_price_and_greeks_spec(m, c);
    let (d1, _) = d_terms_spec(m, c.spot, c.strike, c.expiry, c.rate, c.div_yield, c.vol);
    let n = v(npdf_spec(m, d1));
    let e = v(exp_of(m, c.div_yield.neg_spec().mul_spec(c.expiry)));
    let (s, sig) = (v(c.spot), v(c.vol));
    lemma_root_positive(m, v, c.expiry);
    let root = v(sqrt_of(m, c.expiry));
    lemma_times_positive(s, sig);
    lemma_times_positive(times(s, sig), root);
    lemma_vega_gamma(s, sig, root, v(g.gamma));
    lemma_times_assoc(s, e, n);
}

/// The two legs of the price: the price is their difference, delta the first per unit of the
/// price, and rho the second times the time to expiry.
proof fn lemma_bsm_legs<T: Number, M: Elementary<T>>(
    m: M,
    v: spec_fn(T) -> real,
    c: OptionContract<T>,
) -> (legs: (real, real))
    requires
        exact(v),
    ensures
        ({
            let g = bsm_price_and_greeks_spec(m, c);
            let (d1, d2) = d_terms_spec(
                m,
                c.spot,
                c.strike,
                c.expiry,
                c.rate,
                c.div_yield,
                c.vol,
            );
            let phi = c.opt_type.sign_spec::<T>();
            let seq = times(
                v(c.spot),
                v(exp_of(m, c.div_yield.neg_spec().mul_spec(c.expiry))),
            );
            let ker = times(v(c.strike), v(exp_of(m, c.rate.neg_spec().mul_spec(c.expiry))));
            &&& legs.0 == times(v(phi), times(seq, v(ncdf_spec(m, phi.mul_spec(d1)))))
            &&& legs.1 == times(v(phi), times(ker, v(ncdf_spec(m, phi.mul_spec(d2)))))
            &&& v(g.price) == legs.0 - legs.1
            &&& times(v(c.spot), v(g.delta)) == legs.0
            &&& v(g.rho) == times(v(c.expiry), legs.1)
        }),
{
    let (d1, d2) = d_terms_spec(m, c.spot, c.strike, c.expiry, c.rate, c.div_yield, c.vol);
    let sign = c.opt_type.sign_spec::<T>();
    let phi = v(sign);
    let (n1, n2) = (v(ncdf_spec(m, sign.mul_spec(d1))), v(ncdf_spec(m, sign.mul_spec(d2))));
    let e = v(exp_of(m, c.div_yield.neg_spec().mul_spec(c.expiry)));
    let r = v(exp_of(m, c.rate.neg_spec().mul_spec(c.expiry)));
    let (s, k, t) = (v(c.spot), v(c.strike), v(c.expiry));
    let (seq, ker) = (times(s, e), times(k, r));
    lemma_times_sub(phi, times(seq, n1), times(ker, n2));
    lemma_draw_out(phi, s, e, n1);
    lemma_draw_out(times(phi, k), t, r, n2);
    lemma_times_assoc(phi, k, times(r, n2));
    lemma_times_assoc(k, r, n2);
    (times(phi, times(seq, n1)), times(phi, times(ker, n2)))
}

/// Rho is what the option is worth less its position in the price, taken back over the time to
/// expiry: the price times delta, less the price of the option, times the time to expiry.
pub proof fn law_bsm_rho_from_delta<T: Number, M: Elementary<T>>(
    m: M,
    v: spec_fn(T) -> real,
    c: OptionContract<T>,
)
    requires
        exact(v),
    ensures
        ({
            let g = bsm_price_and_greeks_spec(m, c);
            v(g.rho) == times(v(c.expiry), times(v(c.spot), v(g.delta)) - v(g.price))
        }),
{
    let (_, _) = lemma_bsm_legs(m, v, c);
}

/// The equation of Black, Scholes and Merton: the passing of time, the carry of the position in the
/// price and its convexity together earn the rate on the price of the option.
pub proof fn law_bsm_equation<T: Number, M: Elementary<T>>(
    m: M,
    v: spec_fn(T) -> real,
    c: OptionContract<T>,
)
    requires
        exact(v),
        sqrt_exact(m, v),
        is_live(v, c),
    ensures
        ({
            let g = bsm_price_and_greeks_spec(m, c);
            let (s, sig) = (v(c.spot), v(c.vol));
            v(g.theta) + times(v(c.rate) - v(c.div_yield), times(s, v(g.delta))) + times(
                times(sig, sig),
                times(times(s, s), v(g.gamma)),
            ) / 2real == times(v(c.rate), v(g.price))
        }),
{
    let g = bsm_price_and_greeks_spec(m, c);
    let (d1, d2) = d_terms_spec(m, c.spot, c.strike, c.expiry, c.rate, c.div_yield, c.vol);
    let sign = c.opt_type.sign_spec::<T>();
    let phi = v(sign);
    let (n1, n2) = (v(ncdf_spec(m, sign.mul_spec(d1))), v(ncdf_spec(m, sign.mul_spec(d2))));
    let n = v(npdf_spec(m, d1));
    let eq = exp_of(m, c.div_yield.neg_spec().mul_spec(c.expiry));
    let er = exp_of(m, c.rate.neg_spec().mul_spec(c.expiry));
    let seq_t = c.spot.mul_spec(eq);
    let (seq, ker) = (v(seq_t), v(c.strike.mul_spec(er)));
    let (s, sig, t) = (v(c.spot), v(c.vol), v(c.expiry));
    let (r, q) = (v(c.rate), v(c.div_yield));
    let (x, y) = lemma_bsm_legs(m, v, c);
    lemma_root_positive(m, v, c.expiry);
    let root = v(sqrt_of(m, c.expiry));
    // The carry of the two legs.
    let carry = times(phi, times(times(q, seq), n1) - times(times(r, ker), n2));
    assert(carry == times(q, x) - times(r, y)) by {
        lemma_times_sub(phi, times(times(q, seq), n1), times(times(r, ker), n2));
        lemma_draw_out(phi, q, seq, n1);
        lemma_draw_out(phi, r, ker, n2);
    }
    lemma_times_sub(x, r, q);
    lemma_times_sub(r, x, y);
    // The decay and the convexity cancel.
    let decay = v(
        seq_t.neg_spec().mul_spec(npdf_spec(m, d1)).mul_spec(
            c.vol.mul_spec(sqrt_of(m, c.expiry)),
        ).div_spec(num::<T>(2).mul_spec(c.expiry)),
    );
    assert(v(g.theta) == decay + carry);
    let bow = times(times(sig, sig), times(times(s, s), v(g.gamma)));
    assert(decay + bow / 2real == 0real) by {
        law_bsm_vega_from_gamma(m, v, c);
        let gg = times(times(s, s), v(g.gamma));
        lemma_literal(2real, t);
        assert(times(decay, 2real * t) == -times(v(g.vega), sig)) by {
            lemma_times_neg(seq, n);
            lemma_times_neg(times(seq, n), times(sig, root));
            lemma_times_comm(sig, root);
            lemma_times_assoc(times(seq, n), root, sig);
        }
        assert(times(bow / 2real, 2real * t) == times(v(g.vega), sig)) by {
            lemma_multiple(2real, bow / 2real, t);
            lemma_multiple(1real / 2real, bow, t);
            lemma_times_assoc(times(sig, sig), gg, t);
            lemma_times_comm(gg, t);
            lemma_times_assoc(times(sig, sig), t, gg);
            lemma_times_assoc(sig, sig, t);
            lemma_times_assoc(sig, times(sig, t), gg);
            lemma_times_comm(sig, v(g.vega));
            assert(bow / 2real == (1real / 2real) * bow);
        }
        lemma_times_add(2real * t, decay, bow / 2real);
        lemma_times_unit(2real * t);
        lemma_times_cancel(decay + bow / 2real, 0real, 2real * t);
    }
}

/// The second sensitivities to volatility in terms of vega, of total variance, and of the logarithm
/// of the forward over the strike.
proof fn lemma_second_order<T: Number>(
    v: spec_fn(T) -> real,
    s: T,
    vol: T,
    root: T,
    level: real,
    d1: T,
    d2: T,
    en: T,
    vega: T,
    vanna: T,
    volga: T,
)
    requires
        exact(v),
        v(s) > 0real,
        v(vol) > 0real,
        v(root) > 0real,
        ({
            let w = times(times(v(vol), v(root)), times(v(vol), v(root)));
            &&& times(v(d1), times(v(vol), v(root))) == level + w / 2real
            &&& v(d2) == v(d1) - times(v(vol), v(root))
        }),
        v(vega) == times(times(v(s), v(en)), v(root)),
        times(v(vanna), v(vol)) == -times(v(en), v(d2)),
        times(v(volga), v(vol)) == times(times(v(vega), v(d1)), v(d2)),
    ensures
        ({
            let w = times(times(v(vol), v(root)), times(v(vol), v(root)));
            &&& times(times(v(vanna), v(s)), w) == -times(v(vega), level - w / 2real)
            &&& times(times(v(volga), v(vol)), w) == times(
                v(vega),
                times(level, level) - times(w, w) / 4real,
            )
        }),
{
    let vt = times(v(vol), v(root));
    let w = times(vt, vt);
    let (p, q) = (v(d1), v(d2));
    assert(times(q, vt) == level - w / 2real) by {
        lemma_times_sub(vt, p, vt);
    }
    assert(times(times(v(volga), v(vol)), w) == times(v(vega), times(times(p, vt), times(q, vt))))
        by {
        lemma_four(v(vega), p, q, vt);
    }
    assert(times(times(p, vt), times(q, vt)) == times(level, level) - times(w, w) / 4real) by {
        lemma_times_comm(times(p, vt), times(q, vt));
        lemma_difference_of_squares(level, w / 2real);
        lemma_multiple(1real / 2real, w, w / 2real);
        lemma_multiple(1real / 2real, w, w);
        assert(w / 2real == (1real / 2real) * w);
    }
    assert(times(times(v(vanna), v(s)), w) == -times(v(vega), times(q, vt))) by {
        lemma_vanna(v(vanna), v(s), v(vol), v(root), v(en), q);
        lemma_times_neg(times(v(en), q), times(times(v(s), v(root)), vt));
    }
}

/// A product of four in another order.
proof fn lemma_four(a: real, b: real, c: real, d: real)
    ensures
        times(times(times(a, b), c), times(d, d)) == times(a, times(times(b, d), times(c, d))),
{
    let dd = times(d, d);
    lemma_times_assoc(times(a, b), c, dd);
    lemma_times_assoc(a, b, times(c, dd));
    lemma_interchange(b, d, c, d);
    lemma_times_assoc(b, c, dd);
}

/// The products in the cross sensitivity.
proof fn lemma_vanna(va: real, s: real, sig: real, root: real, en: real, q: real)
    ensures
        ({
            let vt = times(sig, root);
            &&& times(times(va, s), times(vt, vt)) == times(
                times(va, sig),
                times(times(s, root), vt),
            )
            &&& times(times(en, q), times(times(s, root), vt)) == times(
                times(times(s, en), root),
                times(q, vt),
            )
        }),
{
    let vt = times(sig, root);
    lemma_times_assoc(sig, root, vt);
    lemma_interchange(va, s, sig, times(root, vt));
    lemma_times_assoc(s, root, vt);
    lemma_interchange(en, q, times(s, root), vt);
    lemma_swap(en, s, root);
    lemma_times_assoc(s, en, root);
}

/// Vanna and volga from vega: with total variance `w`, the square of the volatility times the time
/// to expiry, and the logarithm of the forward over the strike, vanna times the price times `w` is
/// vega times half of `w` less the logarithm, and volga times the volatility times `w` is vega
/// times the square of the logarithm less a quarter of the square of `w`.
pub proof fn law_bsm_vanna_and_volga<T: Number, M: Elementary<T>>(
    m: M,
    v: spec_fn(T) -> real,
    c: OptionContract<T>,
)
    requires
        exact(v),
        sqrt_exact(m, v),
        is_live(v, c),
    ensures
        ({
            let g = bsm_price_and_greeks_spec(m, c);
            let w = times(times(v(c.vol), v(c.vol)), v(c.expiry));
            let level = v(ln_of(m, c.spot.div_spec(c.strike))) + times(
                v(c.rate) - v(c.div_yield),
                v(c.expiry),
            );
            &&& times(times(v(g.vanna), v(c.spot)), w) == times(v(g.vega), w / 2real - level)
            &&& times(times(v(g.volga), v(c.vol)), w) == times(
                v(g.vega),
                times(level, level) - times(w, w) / 4real,
            )
        }),
{
    let g = bsm_price_and_greeks_spec(m, c);
    let (d1, d2) = d_terms_spec(m, c.spot, c.strike, c.expiry, c.rate, c.div_yield, c.vol);
    let root = sqrt_of(m, c.expiry);
    let eq = exp_of(m, c.div_yield.neg_spec().mul_spec(c.expiry));
    let npd1 = npdf_spec(m, d1);
    let en = eq.mul_spec(npd1);
    let (sig, t) = (v(c.vol), v(c.expiry));
    lemma_root_positive(m, v, c.expiry);
    let vt = times(sig, v(root));
    let w = times(times(sig, sig), t);
    let level = v(ln_of(m, c.spot.div_spec(c.strike))) + times(v(c.rate) - v(c.div_yield), t);
    lemma_times_positive(sig, v(root));
    lemma_square_of_product(sig, v(root));
    assert(times(vt, vt) == w);
    assert(times(v(d1), vt) == level + w / 2real) by {
        lemma_half::<T>(v);
        lemma_literal(1real / 2real, sig);
        lemma_multiple(1real / 2real, sig, sig);
        lemma_multiple(1real / 2real, times(sig, sig), t);
        lemma_times_add(t, v(c.rate) - v(c.div_yield), (1real / 2real) * times(sig, sig));
    }
    let (e, n) = (v(eq), v(npd1));
    lemma_times_assoc(v(c.spot), e, n);
    lemma_times_neg(e, n);
    lemma_times_neg(times(e, n), v(d2));
    lemma_second_order(
        v,
        c.spot,
        c.vol,
        root,
        level,
        d1,
        d2,
        en,
        g.vega,
        g.vanna,
        g.volga,
    );
    lemma_times_neg(v(g.vega), level - w / 2real);
}

/// The equation of Black for an option on a forward, and the sensitivities to volatility and to the
/// rate: decay and convexity together earn the rate on the price; vega is gamma times the square of
/// the forward, the volatility and the time to expiry; rho is the price times the time to expiry,
/// taken back.
pub proof fn law_black76_equation<T: Number, M: Elementary<T>>(
    m: M,
    v: spec_fn(T) -> real,
    fwd: T,
    strike: T,
    expiry: T,
    rate: T,
    vol: T,
    opt_type: OptionType,
)
    requires
        exact(v),
        sqrt_exact(m, v),
        v(fwd) > 0real,
        v(expiry) > 0real,
        v(vol) > 0real,
    ensures
        ({
            let g = black76_price_and_greeks_spec(m, fwd, strike, expiry, rate, vol, opt_type);
            let (f, sig, t) = (v(fwd), v(vol), v(expiry));
            let bow = times(times(f, f), v(g.gamma));
            &&& v(g.theta) + times(times(sig, sig), bow) / 2real == times(v(rate), v(g.price))
            &&& v(g.vega) == times(times(sig, t), bow)
            &&& v(g.rho) == -times(t, v(g.price))
        }),
{
    let g = black76_price_and_greeks_spec(m, fwd, strike, expiry, rate, vol, opt_type);
    let (f, sig, t, r) = (v(fwd), v(vol), v(expiry), v(rate));
    let rt = sqrt_of(m, expiry);
    let root = v(rt);
    lemma_root_positive(m, v, expiry);
    let vt = vol.mul_spec(rt);
    let d1 = ln_of(m, fwd.div_spec(strike)).add_spec(
        frac::<T>(1, 2).mul_spec(vol).mul_spec(vol).mul_spec(expiry),
    ).div_spec(vt);
    let d2 = d1.sub_spec(vt);
    let sign = opt_type.sign_spec::<T>();
    let phi = v(sign);
    let e = v(exp_of(m, rate.neg_spec().mul_spec(expiry)));
    let n = v(npdf_spec(m, d1));
    let z = times(f, v(ncdf_spec(m, sign.mul_spec(d1)))) - times(
        v(strike),
        v(ncdf_spec(m, sign.mul_spec(d2))),
    );
    lemma_times_neg(t, v(g.price));
    let bow = times(times(f, f), v(g.gamma));
    assert(v(g.vega) == times(times(sig, t), bow)) by {
        lemma_times_positive(sig, root);
        lemma_times_positive(f, times(sig, root));
        lemma_times_assoc(f, sig, root);
        lemma_vega_gamma(f, sig, root, v(g.gamma));
        lemma_times_assoc(f, e, n);
    }
    let decay_t = fwd.neg_spec().mul_spec(npdf_spec(m, d1)).mul_spec(vol).div_spec(
        num::<T>(2).mul_spec(rt),
    );
    let decay = times(e, v(decay_t));
    let carry = times(times(phi, r), z);
    assert(v(g.theta) == decay + times(e, carry)) by {
        lemma_times_add(e, v(decay_t), carry);
    }
    assert(times(e, carry) == times(r, v(g.price))) by {
        lemma_times_assoc(phi, r, z);
        lemma_times_assoc(e, phi, times(r, z));
        lemma_times_comm(e, phi);
        lemma_times_comm(times(phi, e), times(r, z));
        lemma_times_assoc(r, z, times(phi, e));
        lemma_times_comm(z, times(phi, e));
    }
    assert(decay + times(times(sig, sig), bow) / 2real == 0real) by {
        let half_bow = times(times(sig, sig), bow) / 2real;
        let tt = 2real * t;
        assert(times(decay, tt) == -times(v(g.vega), sig)) by {
            lemma_literal(2real, root);
            assert(times(v(decay_t), 2real * root) == -times(times(f, n), sig)) by {
                lemma_times_neg(f, n);
                lemma_times_neg(times(f, n), sig);
            }
            lemma_decay(e, v(decay_t), root);
            lemma_times_neg(times(times(f, n), sig), times(e, root));
            lemma_decay_legs(f, e, n, root, sig);
        }
        assert(times(half_bow, tt) == times(v(g.vega), sig)) by {
            let b2 = times(times(sig, sig), bow);
            lemma_multiple(2real, b2 / 2real, t);
            lemma_multiple(1real / 2real, b2, t);
            lemma_times_assoc(times(sig, sig), bow, t);
            lemma_times_comm(bow, t);
            lemma_times_assoc(times(sig, sig), t, bow);
            lemma_times_assoc(sig, sig, t);
            lemma_times_assoc(sig, times(sig, t), bow);
            lemma_times_comm(sig, v(g.vega));
            assert(b2 / 2real == (1real / 2real) * b2);
        }
        lemma_times_add(tt, decay, half_bow);
        lemma_times_unit(tt);
        lemma_times_cancel(decay + half_bow, 0real, tt);
    }
}

/// The discounted decay over twice the time.
proof fn lemma_decay(e: real, d: real, root: real)
    ensures
        times(times(e, d), 2real * times(root, root)) == times(
            times(d, 2real * root),
            times(e, root),
        ),
{
    lemma_multiple(2real, root, root);
    lemma_interchange(e, d, root, 2real * root);
    lemma_times_comm(times(e, root), times(d, 2real * root));
}

/// The factors of the decay in another order.
proof fn lemma_decay_legs(f: real, e: real, n: real, root: real, sig: real)
    ensures
        times(times(times(f, n), sig), times(e, root)) == times(
            times(times(times(f, e), n), root),
            sig,
        ),
{
    let fn_ = times(f, n);
    lemma_interchange(fn_, sig, e, root);
    lemma_times_assoc(f, n, e);
    lemma_times_comm(n, e);
    lemma_times_assoc(f, e, n);
    lemma_times_comm(sig, root);
    lemma_times_assoc(times(times(f, e), n), root, sig);
}

/// Vanna and volga of an option on a forward from vega: with total variance `w`, the square of the
/// volatility times the time to expiry, and the logarithm of the forward over the strike.
pub proof fn law_black76_vanna_and_volga<T: Number, M: Elementary<T>>(
    m: M,
    v: spec_fn(T) -> real,
    fwd: T,
    strike: T,
    expiry: T,
    rate: T,
    vol: T,
    opt_type: OptionType,
)
    requires
        exact(v),
        sqrt_exact(m, v),
        v(fwd) > 0real,
        v(expiry) > 0real,
        v(vol) > 0real,
    ensures
        ({
            let g = black76_price_and_greeks_spec(m, fwd, strike, expiry, rate, vol, opt_type);
            let w = times(times(v(vol), v(vol)), v(expiry));
            let level = v(ln_of(m, fwd.div_spec(strike)));
            &&& times(times(v(g.vanna), v(fwd)), w) == times(v(g.vega), w / 2real - level)
            &&& times(times(v(g.volga), v(vol)), w) == times(
                v(g.vega),
                times(level, level) - times(w, w) / 4real,
            )
        }),
{
    let g = black76_price_and_greeks_spec(m, fwd, strike, expiry, rate, vol, opt_type);
    let root = sqrt_of(m, expiry);
    let vt_t = vol.mul_spec(root);
    let d1 = ln_of(m, fwd.div_spec(strike)).add_spec(
        frac::<T>(1, 2).mul_spec(vol).mul_spec(vol).mul_spec(expiry),
    ).div_spec(vt_t);
    let d2 = d1.sub_spec(vt_t);
    let er = exp_of(m, rate.neg_spec().mul_spec(expiry));
    let npd1 = npdf_spec(m, d1);
    let en = er.mul_spec(npd1);
    let (sig, t) = (v(vol), v(expiry));
    lemma_root_positive(m, v, expiry);
    let vt = times(sig, v(root));
    let w = times(times(sig, sig), t);
    let level = v(ln_of(m, fwd.div_spec(strike)));
    lemma_times_positive(sig, v(root));
    lemma_square_of_product(sig, v(root));
    assert(times(vt, vt) == w);
    assert(times(v(d1), vt) == level + w / 2real) by {
        lemma_half::<T>(v);
        lemma_literal(1real / 2real, sig);
        lemma_multiple(1real / 2real, sig, sig);
        lemma_multiple(1real / 2real, times(sig, sig), t);
    }
    let (e, n) = (v(er), v(npd1));
    lemma_times_assoc(v(fwd), e, n);
    lemma_times_neg(e, n);
    lemma_times_neg(times(e, n), v(d2));
    lemma_second_order(v, fwd, vol, root, level, d1, d2, en, g.vega, g.vanna, g.volga);
    lemma_times_neg(v(g.vega), level - w / 2real);
}

} // verus!
