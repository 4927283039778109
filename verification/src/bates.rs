//! Bates's model: Heston's with lognormal jumps in the price.
use crate::characteristic::{
    complex_exp_spec, jump_cf_spec, model_cf_spec, real_part_spec, stable_cf_spec, unit_i_spec,
    ComplexKit, JumpParams, RealKit,
};
use crate::complex::{scale_spec, Complex};
use crate::exact::{exact, exact_at_zero, faithful, lemma_times_unit, same_value, times};
use crate::greeks::{
    bump_and_reprice_greeks, bump_and_reprice_greeks_spec, law_alike_models_have_same_greeks,
    price_alike, reprice_spec, BumpPriceable,
};
use crate::heston::{
    from_call, from_call_spec, heston_price_spec, inversion_call, inversion_call_spec, kernel,
};
use crate::number::{exp_of, is_finite_of, lawful, ln_of, num, Elementary, Number};
use crate::types::{BatesParams, HestonParams, OptionType, PricingResult};
use vstd::prelude::*;
use vstd::std_specs::ops::{AddSpec, DivSpec, MulSpec, NegSpec, SubSpec};

verus! {

/// The jumps of the model.
pub open spec fn jumps_spec<T>(p: BatesParams<T>) -> JumpParams<T> {
    JumpParams { lambda: p.lambda, mu_j: p.mu_j, sigma_j: p.sigma_j }
}

/// The jumps of the model.
pub fn jumps<T: Copy>(p: &BatesParams<T>) -> (res: JumpParams<T>)
    ensures
        res == jumps_spec(*p),
{
    JumpParams { lambda: p.lambda, mu_j: p.mu_j, sigma_j: p.sigma_j }
}

/// The price of an option in Bates's model.
pub open spec fn bates_price_spec<T: Number, M: Elementary<T>>(
    m: M,
    spot: T,
    strike: T,
    expiry: T,
    rate: T,
    div_yield: T,
    params: BatesParams<T>,
    opt_type: OptionType,
) -> T {
    let call = inversion_call_spec(
        m,
        spot,
        strike,
        expiry,
        rate,
        div_yield,
        params.heston,
        Some(jumps_spec(params)),
    );
    from_call_spec(m, call, spot, strike, expiry, rate, div_yield, opt_type)
}

/// The price of an option in Bates's model.
pub fn bates_price<T: Number, M: Elementary<T>>(
    m: M,
    spot: T,
    strike: T,
    expiry: T,
    rate: T,
    div_yield: T,
    params: &BatesParams<T>,
    opt_type: OptionType,
) -> (res: T)
    requires
        lawful::<T, M>(m),
    ensures
        res == bates_price_spec(m, spot, strike, expiry, rate, div_yield, *params, opt_type),
{
    let call = inversion_call(
        m,
        spot,
        strike,
        expiry,
        rate,
        div_yield,
        params.heston,
        Some(jumps(params)),
    );
    from_call(m, call, spot, strike, expiry, rate, div_yield, opt_type)
}

impl<T: Number, M: Elementary<T>> BumpPriceable<T, M> for BatesParams<T> {
    open spec fn price_spec(
        self,
        m: M,
        spot: T,
        strike: T,
        expiry: T,
        rate: T,
        div_yield: T,
        opt_type: OptionType,
    ) -> T {
        bates_price_spec(m, spot, strike, expiry, rate, div_yield, self, opt_type)
    }

    open spec fn v0_spec(self) -> T {
        self.heston.v0
    }

    open spec fn with_v0_spec(self, v0: T) -> BatesParams<T> {
        BatesParams { heston: HestonParams { v0, ..self.heston }, ..self }
    }

    fn price(
        &self,
        m: M,
        spot: T,
        strike: T,
        expiry: T,
        rate: T,
        div_yield: T,
        opt_type: OptionType,
    ) -> (res: T) {
        bates_price(m, spot, strike, expiry, rate, div_yield, self, opt_type)
    }

    fn v0(&self) -> (res: T) {
        self.heston.v0
    }

    fn with_v0(&self, v0: T) -> (res: BatesParams<T>) {
        BatesParams {
            heston: HestonParams {
                v0,
                kappa: self.heston.kappa,
                theta: self.heston.theta,
                sigma: self.heston.sigma,
                rho: self.heston.rho,
            },
            lambda: self.lambda,
            mu_j: self.mu_j,
            sigma_j: self.sigma_j,
        }
    }
}

/// The price of an option in Bates's model and its sensitivities by repricing.
pub fn bates_price_and_greeks<T: Number, M: Elementary<T>>(
    m: M,
    spot: T,
    strike: T,
    expiry: T,
    rate: T,
    div_yield: T,
    params: &BatesParams<T>,
    opt_type: OptionType,
) -> (res: PricingResult<T>)
    requires
        lawful::<T, M>(m),
    ensures
        res == bump_and_reprice_greeks_spec(
            m,
            spot,
            strike,
            expiry,
            rate,
            div_yield,
            *params,
            opt_type,
        ),
{
    bump_and_reprice_greeks(m, spot, strike, expiry, rate, div_yield, params, opt_type)
}

/// Puts and calls are in parity in Bates's model: without rounding, a call less the put on
/// the same terms is the discounted spot less the discounted strike.
pub proof fn law_bates_put_call_parity<T: Number, M: Elementary<T>>(
    m: M,
    v: spec_fn(T) -> real,
    spot: T,
    strike: T,
    expiry: T,
    rate: T,
    div_yield: T,
    params: BatesParams<T>,
)
    requires
        exact(v),
    ensures
        v(
            bates_price_spec(
                m,
                spot,
                strike,
                expiry,
                rate,
                div_yield,
                params,
                OptionType::Call,
            ),
        ) - v(
            bates_price_spec(
                m,
                spot,
                strike,
                expiry,
                rate,
                div_yield,
                params,
                OptionType::Put,
            ),
        ) == times(v(spot), v(exp_of(m, div_yield.neg_spec().mul_spec(expiry)))) - times(
            v(strike),
            v(exp_of(m, rate.neg_spec().mul_spec(expiry))),
        ),
{
}

/// A call is never worth less than nothing.
pub proof fn law_bates_call_not_negative<T: Number, M: Elementary<T>>(
    m: M,
    v: spec_fn(T) -> real,
    spot: T,
    strike: T,
    expiry: T,
    rate: T,
    div_yield: T,
    params: BatesParams<T>,
)
    requires
        exact(v),
    ensures
        v(
            bates_price_spec(
                m,
                spot,
                strike,
                expiry,
                rate,
                div_yield,
                params,
                OptionType::Call,
            ),
        ) >= 0real,
{
}

/// Bates's model without jumps is Heston's: where the intensity is zero, the prices are the
/// same number.
pub proof fn law_bates_without_jumps<T: Number, M: Elementary<T>>(
    m: M,
    v: spec_fn(T) -> real,
    spot: T,
    strike: T,
    expiry: T,
    rate: T,
    div_yield: T,
    params: BatesParams<T>,
    opt_type: OptionType,
)
    requires
        exact(v),
        faithful(v),
        exact_at_zero(m, v),
        is_finite_of(m, num::<T>(0)),
        v(params.lambda) == 0real,
    ensures
        bates_price_spec(m, spot, strike, expiry, rate, div_yield, params, opt_type)
            == heston_price_spec(
            m,
            spot,
            strike,
            expiry,
            rate,
            div_yield,
            params.heston,
            opt_type,
        ),
{
    let kit = RealKit { m };
    let j = jumps_spec(params);
    let h = params.heston;
    let mu = rate.sub_spec(div_yield);
    assert forall|phi: Complex<T>| #[trigger]
        model_cf_spec(kit, phi, expiry, mu, h, Some(j)) == model_cf_spec(
            kit,
            phi,
            expiry,
            mu,
            h,
            None,
        ) by {
        lemma_factor_without_jumps(m, v, phi, expiry, mu, h, j);
    }
    let x = ln_of(m, spot.div_spec(strike));
    let norm = model_cf_spec(
        kit,
        Complex { re: num::<T>(0), im: num::<T>(-1) },
        expiry,
        mu,
        h,
        None,
    );
    assert(kernel(m, x, expiry, mu, h, Some(j), Some(norm)) =~= kernel(
        m,
        x,
        expiry,
        mu,
        h,
        None,
        Some(norm),
    ));
    assert(kernel(m, x, expiry, mu, h, Some(j), None) =~= kernel(m, x, expiry, mu, h, None, None));
}

/// Without jumps the sensitivities are Heston's too.
pub proof fn law_bates_greeks_without_jumps<T: Number, M: Elementary<T>>(
    m: M,
    v: spec_fn(T) -> real,
    spot: T,
    strike: T,
    expiry: T,
    rate: T,
    div_yield: T,
    params: BatesParams<T>,
    opt_type: OptionType,
)
    requires
        exact(v),
        faithful(v),
        exact_at_zero(m, v),
        is_finite_of(m, num::<T>(0)),
        v(params.lambda) == 0real,
    ensures
        bump_and_reprice_greeks_spec(m, spot, strike, expiry, rate, div_yield, params, opt_type)
            == bump_and_reprice_greeks_spec(
            m,
            spot,
            strike,
            expiry,
            rate,
            div_yield,
            params.heston,
            opt_type,
        ),
{
    assert forall|b: BatesParams<T>| v(b.lambda) == 0real implies #[trigger] price_alike::<
        T,
        M,
        BatesParams<T>,
        HestonParams<T>,
    >(m, b, b.heston) by {
        assert forall|
            s: T,
            k: T,
            t: T,
            r: T,
            d: T,
            o: OptionType,
        | #[trigger] reprice_spec(m, b, s, k, t, r, d, o) == reprice_spec(
            m,
            b.heston,
            s,
            k,
            t,
            r,
            d,
            o,
        ) by {
            law_bates_without_jumps(m, v, s, k, t, r, d, b, o);
        }
    }
    assert forall|w: T| price_alike::<T, M, BatesParams<T>, HestonParams<T>>(
        m,
        #[trigger] <BatesParams<T> as BumpPriceable<T, M>>::with_v0_spec(params, w),
        <HestonParams<T> as BumpPriceable<T, M>>::with_v0_spec(params.heston, w),
    ) by {
        let b = <BatesParams<T> as BumpPriceable<T, M>>::with_v0_spec(params, w);
        assert(b.heston == <HestonParams<T> as BumpPriceable<T, M>>::with_v0_spec(
            params.heston,
            w,
        ));
        assert(price_alike::<T, M, BatesParams<T>, HestonParams<T>>(m, b, b.heston));
    }
    law_alike_models_have_same_greeks(
        m,
        spot,
        strike,
        expiry,
        rate,
        div_yield,
        params,
        params.heston,
        opt_type,
    );
}

/// The characteristic function does not change by the factor of jumps that never come.
proof fn lemma_factor_without_jumps<T: Number, M: Elementary<T>>(
    m: M,
    v: spec_fn(T) -> real,
    phi: Complex<T>,
    t: T,
    mu: T,
    h: HestonParams<T>,
    j: JumpParams<T>,
)
    requires
        exact(v),
        faithful(v),
        exact_at_zero(m, v),
        is_finite_of(m, num::<T>(0)),
        v(j.lambda) == 0real,
    ensures
        model_cf_spec(RealKit { m }, phi, t, mu, h, Some(j)) == model_cf_spec(
            RealKit { m },
            phi,
            t,
            mu,
            h,
            None,
        ),
{
    let kit = RealKit { m };
    let zero = num::<T>(0);
    let cf = stable_cf_spec(kit, phi, t, mu, h);
    let f = jump_cf_spec(kit, phi, t, j);
    let i = unit_i_spec(kit);
    let one = real_part_spec(kit, kit.whole_spec(1));
    let comp = kit.exp_spec(
        j.mu_j.add_spec(kit.ratio_spec(1, 2).mul_spec(j.sigma_j).mul_spec(j.sigma_j)),
    ).sub_spec(kit.whole_spec(1));
    let spread = scale_spec(
        j.sigma_j,
        scale_spec(j.sigma_j, scale_spec(kit.ratio_spec(1, 2), phi).mul_spec(phi)),
    );
    let jump = kit.cexp_spec(scale_spec(j.mu_j, phi.mul_spec(i)).sub_spec(spread));
    let w = jump.sub_spec(one).sub_spec(scale_spec(comp, i.mul_spec(phi)));
    let lt = j.lambda.mul_spec(t);
    let z = scale_spec(lt, w);
    assert(f == complex_exp_spec(m, z));
    lemma_times_unit(v(t));
    lemma_times_unit(v(w.re));
    lemma_times_unit(v(w.im));
    assert(same_value(v, z.re, zero));
    assert(same_value(v, z.im, zero));
    lemma_times_unit(1real);
    assert(v(f.re) == 1real && v(f.im) == 0real);
    lemma_times_unit(v(cf.re));
    lemma_times_unit(v(cf.im));
    let all = cf.mul_spec(f);
    assert(same_value(v, all.re, cf.re));
    assert(same_value(v, all.im, cf.im));
}

} // verus!
