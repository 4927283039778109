//! How rate, yield and the scale of prices enter the prices by inversion, and what a result in
//! coin is worth in money.
use crate::bates::{bates_price_spec, jumps_spec};
use crate::characteristic::{model_cf_spec, JumpParams, RealKit};
use crate::complex::Complex;
use crate::deribit_inverse::mc_result_to_coin_spec;
use crate::exact::{
    exact, exact_at_zero, exp_adds, faithful, lemma_sign_of_factor, lemma_times_add,
    lemma_times_assoc, lemma_times_cancel, lemma_times_comm, lemma_times_neg, lemma_times_positive,
    lemma_times_sub, lemma_times_unit, positive_functions, same_value, times,
};
use crate::heston::{
    exercise_probability_spec, from_call_spec, heston_price_spec, inversion_call_spec,
};
use crate::mc::McResult;
use crate::number::{exp_of, larger, ln_of, num, Elementary, Number};
use crate::sensitivity_laws::lemma_interchange;
use crate::types::{BatesParams, HestonParams, OptionType};
use vstd::prelude::*;
use vstd::std_specs::ops::{AddSpec, DivSpec, MulSpec, NegSpec, SubSpec};

verus! {

/// The discount factors of two markets with the same rate less yield: each yield's times the other
/// rate's.
proof fn lemma_discounts_cross<T: Number, M: Elementary<T>>(
    m: M,
    v: spec_fn(T) -> real,
    t: T,
    r1: T,
    q1: T,
    r2: T,
    q2: T,
)
    requires
        exact(v),
        exp_adds(m, v),
        v(r1) - v(q1) == v(r2) - v(q2),
    ensures
        times(
            v(exp_of(m, q1.neg_spec().mul_spec(t))),
            v(exp_of(m, r2.neg_spec().mul_spec(t))),
        ) == times(
            v(exp_of(m, q2.neg_spec().mul_spec(t))),
            v(exp_of(m, r1.neg_spec().mul_spec(t))),
        ),
{
    let (a, b) = (q1.neg_spec().mul_spec(t), r2.neg_spec().mul_spec(t));
    let (c, d) = (q2.neg_spec().mul_spec(t), r1.neg_spec().mul_spec(t));
    let z = a.add_spec(b);
    lemma_times_add(v(t), -v(q1), -v(r2));
    lemma_times_add(v(t), -v(q2), -v(r1));
    assert(v(z) == v(c) + v(d));
    assert(v(exp_of(m, z)) == times(v(exp_of(m, a)), v(exp_of(m, b))));
    assert(v(exp_of(m, z)) == times(v(exp_of(m, c)), v(exp_of(m, d))));
}

/// Numbers in the ratio of positive factors have the same sign, and are in that ratio where they
/// are cut off at zero.
proof fn lemma_ratio_cut_off<T: Number>(
    v: spec_fn(T) -> real,
    x: T,
    y: T,
    f: real,
    g: real,
)
    requires
        exact(v),
        f > 0real,
        g > 0real,
        times(v(x), f) == times(v(y), g),
    ensures
        times(v(larger(x, num::<T>(0))), f) == times(v(larger(y, num::<T>(0))), g),
{
    lemma_times_unit(f);
    lemma_times_unit(g);
    lemma_times_comm(v(x), f);
    lemma_times_comm(v(y), g);
    lemma_times_neg(f, v(x));
    lemma_times_neg(g, v(y));
    if v(x) > 0real {
        lemma_times_positive(f, v(x));
        lemma_sign_of_factor(g, v(y));
    } else if v(x) < 0real {
        lemma_times_positive(f, -v(x));
        lemma_sign_of_factor(g, -v(y));
    } else {
        lemma_times_cancel(v(y), 0real, g);
    }
}

/// Calls by inversion in two markets with the same rate less yield.
proof fn lemma_calls_are_discounted<T: Number, M: Elementary<T>>(
    m: M,
    v: spec_fn(T) -> real,
    s: T,
    k: T,
    t: T,
    r1: T,
    q1: T,
    r2: T,
    q2: T,
    p: HestonParams<T>,
    jump: Option<JumpParams<T>>,
)
    requires
        exact(v),
        faithful(v),
        exp_adds(m, v),
        positive_functions(m, v),
        v(r1) - v(q1) == v(r2) - v(q2),
    ensures
        times(
            v(inversion_call_spec(m, s, k, t, r1, q1, p, jump)),
            v(exp_of(m, r2.neg_spec().mul_spec(t))),
        ) == times(
            v(inversion_call_spec(m, s, k, t, r2, q2, p, jump)),
            v(exp_of(m, r1.neg_spec().mul_spec(t))),
        ),
{
    let (mu1, mu2) = (r1.sub_spec(q1), r2.sub_spec(q2));
    assert(same_value(v, mu1, mu2));
    lemma_discounts_cross(m, v, t, r1, q1, r2, q2);
    let x = ln_of(m, s.div_spec(k));
    let down = Complex { re: num::<T>(0), im: num::<T>(-1) };
    let kit = RealKit { m };
    let norm = model_cf_spec(kit, down, t, mu1, p, jump);
    let p1 = exercise_probability_spec(m, x, t, mu1, p, jump, Some(norm));
    let p2 = exercise_probability_spec(m, x, t, mu1, p, jump, None);
    let (e1, f1) = (exp_of(m, q1.neg_spec().mul_spec(t)), exp_of(m, r1.neg_spec().mul_spec(t)));
    let (e2, f2) = (exp_of(m, q2.neg_spec().mul_spec(t)), exp_of(m, r2.neg_spec().mul_spec(t)));
    let c1 = s.mul_spec(e1).mul_spec(p1).sub_spec(k.mul_spec(f1).mul_spec(p2));
    let c2 = s.mul_spec(e2).mul_spec(p1).sub_spec(k.mul_spec(f2).mul_spec(p2));
    assert(times(v(c1), v(f2)) == times(v(c2), v(f1))) by {
        let (a1, b1) = (times(times(v(s), v(e1)), v(p1)), times(times(v(k), v(f1)), v(p2)));
        let (a2, b2) = (times(times(v(s), v(e2)), v(p1)), times(times(v(k), v(f2)), v(p2)));
        lemma_times_sub(v(f2), a1, b1);
        lemma_times_sub(v(f1), a2, b2);
        lemma_leg(v(s), v(e1), v(p1), v(f2));
        lemma_leg(v(s), v(e2), v(p1), v(f1));
        lemma_leg(v(k), v(f1), v(p2), v(f2));
        lemma_leg(v(k), v(f2), v(p2), v(f1));
        lemma_times_comm(v(f1), v(f2));
    }
    lemma_ratio_cut_off(v, c1, c2, v(f2), v(f1));
}

/// A leg of the price times a discount factor.
proof fn lemma_leg(s: real, e: real, p: real, f: real)
    ensures
        times(times(times(s, e), p), f) == times(times(s, p), times(e, f)),
{
    lemma_times_assoc(times(s, e), p, f);
    lemma_interchange(s, e, p, f);
}

/// An option from its call, in two markets with the same rate less yield.
proof fn lemma_options_are_discounted<T: Number, M: Elementary<T>>(
    m: M,
    v: spec_fn(T) -> real,
    call1: T,
    call2: T,
    s: T,
    k: T,
    t: T,
    r1: T,
    q1: T,
    r2: T,
    q2: T,
    opt_type: OptionType,
)
    requires
        exact(v),
        exp_adds(m, v),
        v(r1) - v(q1) == v(r2) - v(q2),
        times(v(call1), v(exp_of(m, r2.neg_spec().mul_spec(t)))) == times(
            v(call2),
            v(exp_of(m, r1.neg_spec().mul_spec(t))),
        ),
    ensures
        times(
            v(from_call_spec(m, call1, s, k, t, r1, q1, opt_type)),
            v(exp_of(m, r2.neg_spec().mul_spec(t))),
        ) == times(
            v(from_call_spec(m, call2, s, k, t, r2, q2, opt_type)),
            v(exp_of(m, r1.neg_spec().mul_spec(t))),
        ),
{
    lemma_discounts_cross(m, v, t, r1, q1, r2, q2);
    let (e1, f1) = (
        v(exp_of(m, q1.neg_spec().mul_spec(t))),
        v(exp_of(m, r1.neg_spec().mul_spec(t))),
    );
    let (e2, f2) = (
        v(exp_of(m, q2.neg_spec().mul_spec(t))),
        v(exp_of(m, r2.neg_spec().mul_spec(t))),
    );
    let (a, b) = (v(s), v(k));
    lemma_times_add(f2, v(call1) - times(a, e1), times(b, f1));
    lemma_times_sub(f2, v(call1), times(a, e1));
    lemma_times_add(f1, v(call2) - times(a, e2), times(b, f2));
    lemma_times_sub(f1, v(call2), times(a, e2));
    lemma_times_assoc(a, e1, f2);
    lemma_times_assoc(a, e2, f1);
    lemma_times_assoc(b, f1, f2);
    lemma_times_assoc(b, f2, f1);
    lemma_times_comm(f1, f2);
}

/// In Heston's model rate and yield enter a price by their difference, which moves the price, and
/// by the discount at the rate: in two markets with the same rate less yield prices are in the
/// ratio of the discount factors.
pub proof fn law_heston_price_is_discounted<T: Number, M: Elementary<T>>(
    m: M,
    v: spec_fn(T) -> real,
    s: T,
    k: T,
    t: T,
    r1: T,
    q1: T,
    r2: T,
    q2: T,
    p: HestonParams<T>,
    opt_type: OptionType,
)
    requires
        exact(v),
        faithful(v),
        exp_adds(m, v),
        positive_functions(m, v),
        v(r1) - v(q1) == v(r2) - v(q2),
    ensures
        times(
            v(heston_price_spec(m, s, k, t, r1, q1, p, opt_type)),
            v(exp_of(m, r2.neg_spec().mul_spec(t))),
        ) == times(
            v(heston_price_spec(m, s, k, t, r2, q2, p, opt_type)),
            v(exp_of(m, r1.neg_spec().mul_spec(t))),
        ),
{
    lemma_calls_are_discounted(m, v, s, k, t, r1, q1, r2, q2, p, None);
    let c1 = inversion_call_spec(m, s, k, t, r1, q1, p, None);
    let c2 = inversion_call_spec(m, s, k, t, r2, q2, p, None);
    lemma_options_are_discounted(m, v, c1, c2, s, k, t, r1, q1, r2, q2, opt_type);
}

/// In Bates's model rate and yield enter a price by their difference, which moves the price, and by
/// the discount at the rate: in two markets with the same rate less yield prices are in the ratio
/// of the discount factors.
pub proof fn law_bates_price_is_discounted<T: Number, M: Elementary<T>>(
    m: M,
    v: spec_fn(T) -> real,
    s: T,
    k: T,
    t: T,
    r1: T,
    q1: T,
    r2: T,
    q2: T,
    p: BatesParams<T>,
    opt_type: OptionType,
)
    requires
        exact(v),
        faithful(v),
        exp_adds(m, v),
        positive_functions(m, v),
        v(r1) - v(q1) == v(r2) - v(q2),
    ensures
        times(
            v(bates_price_spec(m, s, k, t, r1, q1, p, opt_type)),
            v(exp_of(m, r2.neg_spec().mul_spec(t))),
        ) == times(
            v(bates_price_spec(m, s, k, t, r2, q2, p, opt_type)),
            v(exp_of(m, r1.neg_spec().mul_spec(t))),
        ),
{
    let j = Some(jumps_spec(p));
    lemma_calls_are_discounted(m, v, s, k, t, r1, q1, r2, q2, p.heston, j);
    let c1 = inversion_call_spec(m, s, k, t, r1, q1, p.heston, j);
    let c2 = inversion_call_spec(m, s, k, t, r2, q2, p.heston, j);
    lemma_options_are_discounted(m, v, c1, c2, s, k, t, r1, q1, r2, q2, opt_type);
}

/// Calls by inversion on prices and strikes in the same ratio.
proof fn lemma_calls_scale<T: Number, M: Elementary<T>>(
    m: M,
    v: spec_fn(T) -> real,
    s1: T,
    k1: T,
    s2: T,
    k2: T,
    t: T,
    r: T,
    q: T,
    p: HestonParams<T>,
    jump: Option<JumpParams<T>>,
)
    requires
        exact(v),
        faithful(v),
        v(k1) > 0real,
        v(k2) > 0real,
        times(v(s1), v(k2)) == times(v(s2), v(k1)),
    ensures
        times(v(inversion_call_spec(m, s1, k1, t, r, q, p, jump)), v(k2)) == times(
            v(inversion_call_spec(m, s2, k2, t, r, q, p, jump)),
            v(k1),
        ),
{
    let (x1, x2) = (s1.div_spec(k1), s2.div_spec(k2));
    assert(same_value(v, x1, x2)) by {
        let kk = times(v(k1), v(k2));
        lemma_times_assoc(v(x1), v(k1), v(k2));
        lemma_times_assoc(v(x2), v(k2), v(k1));
        lemma_times_comm(v(k1), v(k2));
        lemma_times_positive(v(k1), v(k2));
        lemma_times_cancel(v(x1), v(x2), kk);
    }
    let mu = r.sub_spec(q);
    let x = ln_of(m, x1);
    let down = Complex { re: num::<T>(0), im: num::<T>(-1) };
    let kit = RealKit { m };
    let norm = model_cf_spec(kit, down, t, mu, p, jump);
    let p1 = exercise_probability_spec(m, x, t, mu, p, jump, Some(norm));
    let p2 = exercise_probability_spec(m, x, t, mu, p, jump, None);
    let (e, f) = (exp_of(m, q.neg_spec().mul_spec(t)), exp_of(m, r.neg_spec().mul_spec(t)));
    let c1 = s1.mul_spec(e).mul_spec(p1).sub_spec(k1.mul_spec(f).mul_spec(p2));
    let c2 = s2.mul_spec(e).mul_spec(p1).sub_spec(k2.mul_spec(f).mul_spec(p2));
    assert(times(v(c1), v(k2)) == times(v(c2), v(k1))) by {
        let (a1, b1) = (times(times(v(s1), v(e)), v(p1)), times(times(v(k1), v(f)), v(p2)));
        let (a2, b2) = (times(times(v(s2), v(e)), v(p1)), times(times(v(k2), v(f)), v(p2)));
        lemma_times_sub(v(k2), a1, b1);
        lemma_times_sub(v(k1), a2, b2);
        lemma_scaled_leg(v(s1), v(e), v(p1), v(k2));
        lemma_scaled_leg(v(s2), v(e), v(p1), v(k1));
        lemma_scaled_leg(v(k1), v(f), v(p2), v(k2));
        lemma_scaled_leg(v(k2), v(f), v(p2), v(k1));
        lemma_times_comm(v(k1), v(k2));
    }
    lemma_ratio_cut_off(v, c1, c2, v(k2), v(k1));
}

/// A leg of the price times a strike.
proof fn lemma_scaled_leg(s: real, e: real, p: real, k: real)
    ensures
        times(times(times(s, e), p), k) == times(times(s, k), times(e, p)),
{
    lemma_times_assoc(s, e, p);
    lemma_times_assoc(s, times(e, p), k);
    lemma_times_comm(times(e, p), k);
    lemma_times_assoc(s, k, times(e, p));
}

/// Calls and puts in Heston's model, and in Bates's, scale with the price and the strike: where
/// those of two options are in the same ratio, so are the prices.
pub proof fn law_inversion_price_scales<T: Number, M: Elementary<T>>(
    m: M,
    v: spec_fn(T) -> real,
    s1: T,
    k1: T,
    s2: T,
    k2: T,
    t: T,
    r: T,
    q: T,
    p: BatesParams<T>,
    opt_type: OptionType,
)
    requires
        exact(v),
        faithful(v),
        v(k1) > 0real,
        v(k2) > 0real,
        times(v(s1), v(k2)) == times(v(s2), v(k1)),
    ensures
        times(v(heston_price_spec(m, s1, k1, t, r, q, p.heston, opt_type)), v(k2)) == times(
            v(heston_price_spec(m, s2, k2, t, r, q, p.heston, opt_type)),
            v(k1),
        ),
        times(v(bates_price_spec(m, s1, k1, t, r, q, p, opt_type)), v(k2)) == times(
            v(bates_price_spec(m, s2, k2, t, r, q, p, opt_type)),
            v(k1),
        ),
{
    lemma_calls_scale(m, v, s1, k1, s2, k2, t, r, q, p.heston, None);
    lemma_calls_scale(m, v, s1, k1, s2, k2, t, r, q, p.heston, Some(jumps_spec(p)));
    let none = None::<JumpParams<T>>;
    lemma_options_scale(
        m,
        v,
        inversion_call_spec(m, s1, k1, t, r, q, p.heston, none),
        inversion_call_spec(m, s2, k2, t, r, q, p.heston, none),
        s1,
        k1,
        s2,
        k2,
        t,
        r,
        q,
        opt_type,
    );
    lemma_options_scale(
        m,
        v,
        inversion_call_spec(m, s1, k1, t, r, q, p.heston, Some(jumps_spec(p))),
        inversion_call_spec(m, s2, k2, t, r, q, p.heston, Some(jumps_spec(p))),
        s1,
        k1,
        s2,
        k2,
        t,
        r,
        q,
        opt_type,
    );
}

/// An option from its call, on prices and strikes in the same ratio.
proof fn lemma_options_scale<T: Number, M: Elementary<T>>(
    m: M,
    v: spec_fn(T) -> real,
    call1: T,
    call2: T,
    s1: T,
    k1: T,
    s2: T,
    k2: T,
    t: T,
    r: T,
    q: T,
    opt_type: OptionType,
)
    requires
        exact(v),
        times(v(s1), v(k2)) == times(v(s2), v(k1)),
        times(v(call1), v(k2)) == times(v(call2), v(k1)),
    ensures
        times(v(from_call_spec(m, call1, s1, k1, t, r, q, opt_type)), v(k2)) == times(
            v(from_call_spec(m, call2, s2, k2, t, r, q, opt_type)),
            v(k1),
        ),
{
    let (e, f) = (
        v(exp_of(m, q.neg_spec().mul_spec(t))),
        v(exp_of(m, r.neg_spec().mul_spec(t))),
    );
    let (a1, b1, a2, b2) = (v(s1), v(k1), v(s2), v(k2));
    lemma_times_add(b2, v(call1) - times(a1, e), times(b1, f));
    lemma_times_sub(b2, v(call1), times(a1, e));
    lemma_times_add(b1, v(call2) - times(a2, e), times(b2, f));
    lemma_times_sub(b1, v(call2), times(a2, e));
    lemma_times_assoc(a1, e, b2);
    lemma_times_comm(e, b2);
    lemma_times_assoc(a1, b2, e);
    lemma_times_assoc(a2, e, b1);
    lemma_times_comm(e, b1);
    lemma_times_assoc(a2, b1, e);
    lemma_times_assoc(b1, f, b2);
    lemma_times_comm(f, b2);
    lemma_times_assoc(b1, b2, f);
    lemma_times_assoc(b2, f, b1);
    lemma_times_comm(f, b1);
    lemma_times_assoc(b2, b1, f);
    lemma_times_comm(b1, b2);
}

/// A result in coin is the result in money: at the forward, the spot grown at the rate less the
/// yield, and discounted at the rate, it is worth what was simulated, and so is its error.
pub proof fn law_coin_result_in_money<T: Number, M: Elementary<T>>(
    m: M,
    v: spec_fn(T) -> real,
    r: McResult<T>,
    spot: T,
    rate: T,
    div_yield: T,
    expiry: T,
    growth: T,
    discount: T,
)
    requires
        exact(v),
        faithful(v),
        exp_adds(m, v),
        exact_at_zero(m, v),
        v(spot) > 0real,
        v(growth) == times(v(rate) - v(div_yield), v(expiry)),
        v(discount) == -times(v(rate), v(expiry)),
    ensures
        ({
            let c = mc_result_to_coin_spec(m, r, spot, div_yield, expiry);
            let forward = times(v(spot), v(exp_of(m, growth)));
            let df = v(exp_of(m, discount));
            &&& times(v(c.price), times(forward, df)) == v(r.price)
            &&& times(v(c.std_error), times(forward, df)) == v(r.std_error)
        }),
{
    let carry = div_yield.mul_spec(expiry);
    let (e, g, d) = (v(exp_of(m, carry)), v(exp_of(m, growth)), v(exp_of(m, discount)));
    let scale = v(exp_of(m, carry).div_spec(spot));
    let s = v(spot);
    let both = growth.add_spec(discount);
    lemma_times_sub(v(expiry), v(rate), v(div_yield));
    assert(v(exp_of(m, both)) == times(g, d));
    let none = carry.add_spec(both);
    assert(same_value(v, none, num::<T>(0)));
    assert(v(exp_of(m, none)) == times(e, v(exp_of(m, both))));
    assert(times(e, times(g, d)) == 1real);
    // The scale times the discounted forward is one.
    let fd = times(times(s, g), d);
    assert(times(scale, fd) == 1real) by {
        lemma_times_assoc(s, g, d);
        lemma_times_assoc(scale, s, times(g, d));
    }
    lemma_times_assoc(v(r.price), scale, fd);
    lemma_times_assoc(v(r.std_error), scale, fd);
    lemma_times_unit(v(r.price));
    lemma_times_unit(v(r.std_error));
}

} // verus!
