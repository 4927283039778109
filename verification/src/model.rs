//! What the calibration asks of a model: a vector of parameters, a price, bounds and steps;
//! and the residuals and derivatives of a model against quoted volatilities.
use crate::ad::{bates_jump_sensitivities_ad_spec, forward_pass, JumpSpec};
use crate::bates::{bates_price, bates_price_spec, jumps};
use crate::bsm::{bsm_price_and_greeks, bsm_price_and_greeks_spec};
use crate::heston::{heston_price, heston_price_spec};
use crate::iv::{at_vol, at_vol_spec, implied_vol, implied_vol_spec};
use crate::linalg::{copy_vec, entries, has_shape};
use crate::number::{
    abs, decimal_of, fmax, fmin, frac, larger, lawful, magnitude, num, ratio, smaller, sqrt_of,
    whole, Elementary, Number,
};
use crate::random::{steady, within_of, RandomSource};
use crate::types::{BatesParams, HestonParams, IvProblem, OptionContract};
use vstd::prelude::*;
use vstd::std_specs::cmp::PartialOrdIs;
use vstd::std_specs::ops::{AddSpec, DivSpec, MulSpec, SubSpec};

verus! {

/// A quoted volatility and its weight in the fit.
#[derive(Debug, Clone, Copy)]
pub struct CalibInput<'a, T> {
    pub contract: &'a OptionContract<T>,
    pub iv_market: T,
    pub weight: T,
}

/// A model that can be fitted: a vector of parameters of fixed length, a price, bounds and
/// scales.
pub trait CalibModel<T: Number, M: Elementary<T>>: Copy {
    /// The number of parameters.
    spec fn dim_spec() -> int;

    /// The parameters in order.
    spec fn to_seq(self) -> Seq<T>;

    /// The model with the given parameters.
    spec fn from_seq(v: Seq<T>) -> Self;

    /// The price of a contract.
    spec fn price_spec(self, m: M, c: OptionContract<T>) -> T;

    /// Whether the parameters may be used.
    spec fn bounds_ok_spec(self, m: M) -> bool;

    /// The steps of the finite differences, one for each parameter.
    spec fn bump_sizes_spec(m: M) -> Seq<T>;

    /// The range of each parameter.
    spec fn param_bounds_spec(m: M) -> Seq<(T, T)>;

    /// The exact derivative of the price in parameter `col`, where the model has one.
    spec fn ad_price_derivative_spec(self, m: M, c: OptionContract<T>, col: int) -> Option<T>;

    /// A typical size of each parameter.
    spec fn regularization_scale_spec(m: M) -> Seq<T>;

    /// The vectors have one element for each parameter, and there is at least one.
    proof fn lemma_shape(m: M)
        ensures
            1 <= Self::dim_spec() <= 64,
            Self::bump_sizes_spec(m).len() == Self::dim_spec(),
            Self::param_bounds_spec(m).len() == Self::dim_spec(),
            Self::regularization_scale_spec(m).len() == Self::dim_spec(),
    ;

    /// A model is its parameters.
    proof fn lemma_vector(self, v: Seq<T>)
        ensures
            self.to_seq().len() == Self::dim_spec(),
            v.len() == Self::dim_spec() ==> Self::from_seq(v).to_seq() == v,
            Self::from_seq(self.to_seq()) == self,
    ;

    fn dim() -> (res: usize)
        ensures
            res == Self::dim_spec(),
    ;

    fn to_vec(&self) -> (res: Vec<T>)
        ensures
            res@ == self.to_seq(),
    ;

    fn from_vec(v: &Vec<T>) -> (res: Self)
        requires
            v@.len() == Self::dim_spec(),
        ensures
            res == Self::from_seq(v@),
    ;

    fn price(&self, m: M, c: &OptionContract<T>) -> (res: T)
        requires
            lawful::<T, M>(m),
        ensures
            res == self.price_spec(m, *c),
    ;

    fn bounds_ok(&self, m: M) -> (res: bool)
        requires
            lawful::<T, M>(m),
        ensures
            res == self.bounds_ok_spec(m),
    ;

    fn bump_sizes(m: M) -> (res: Vec<T>)
        requires
            lawful::<T, M>(m),
        ensures
            res@ == Self::bump_sizes_spec(m),
    ;

    fn param_bounds(m: M) -> (res: Vec<(T, T)>)
        requires
            lawful::<T, M>(m),
        ensures
            res@ == Self::param_bounds_spec(m),
    ;

    fn ad_price_derivative(&self, m: M, c: &OptionContract<T>, col: usize) -> (res: Option<T>)
        requires
            lawful::<T, M>(m),
            col < Self::dim_spec(),
        ensures
            res == self.ad_price_derivative_spec(m, *c, col as int),
    ;

    fn regularization_scale(m: M) -> (res: Vec<T>)
        requires
            lawful::<T, M>(m),
        ensures
            res@ == Self::regularization_scale_spec(m),
    ;
}

/// A model that a fit can start at random from a stream of draws.
pub trait RandomStart<T: Number, M: Elementary<T>, S: RandomSource<T>>: CalibModel<T, M> {
    /// A random start, and the rest of the stream.
    spec fn random_guess_spec(m: M, src: S) -> (Self, S);

    fn random_guess(m: M, src: S) -> (res: (Self, S))
        requires
            lawful::<T, M>(m),
            steady::<T, S>(),
        ensures
            res == Self::random_guess_spec(m, src),
    ;
}

/// The parameters of Heston's model are inside their ranges and satisfy Feller's condition.
pub open spec fn heston_bounds_ok_spec<T: Number, M: Elementary<T>>(
    m: M,
    p: HestonParams<T>,
) -> bool {
    p.feller_ok_spec() && p.v0.is_gt(&decimal_of::<T, M>(m, 1, -8)) && p.v0.is_lt(&num::<T>(5))
        && p.kappa.is_gt(&decimal_of::<T, M>(m, 1, -6)) && p.kappa.is_lt(&num::<T>(50))
        && p.theta.is_gt(&decimal_of::<T, M>(m, 1, -8)) && p.theta.is_lt(&num::<T>(5))
        && p.sigma.is_gt(&decimal_of::<T, M>(m, 1, -6)) && p.sigma.is_lt(&num::<T>(10))
        && p.rho.is_gt(&frac::<T>(-9999, 10000)) && p.rho.is_lt(&frac::<T>(9999, 10000))
}

/// The parameters of Heston's model are inside their ranges and satisfy Feller's condition.
pub fn heston_bounds_ok<T: Number, M: Elementary<T>>(m: M, p: &HestonParams<T>) -> (res: bool)
    requires
        lawful::<T, M>(m),
    ensures
        res == heston_bounds_ok_spec(m, *p),
{
    p.feller_ok() && p.v0 > m.decimal(1, -8) && p.v0 < whole::<T>(5) && p.kappa > m.decimal(1, -6)
        && p.kappa < whole::<T>(50) && p.theta > m.decimal(1, -8) && p.theta < whole::<T>(5)
        && p.sigma > m.decimal(1, -6) && p.sigma < whole::<T>(10)
        && p.rho > ratio::<T>(-9999, 10000) && p.rho < ratio::<T>(9999, 10000)
}

/// The parameters of Bates's model are inside their ranges.
pub open spec fn bates_bounds_ok_spec<T: Number, M: Elementary<T>>(
    m: M,
    p: BatesParams<T>,
) -> bool {
    heston_bounds_ok_spec(m, p.heston) && p.lambda.is_ge(&num::<T>(0))
        && p.lambda.is_lt(&num::<T>(10)) && magnitude(p.mu_j).is_lt(&num::<T>(2))
        && p.sigma_j.is_gt(&decimal_of::<T, M>(m, 1, -6)) && p.sigma_j.is_lt(&num::<T>(2))
}

/// The parameters of Bates's model are inside their ranges.
pub fn bates_bounds_ok<T: Number, M: Elementary<T>>(m: M, p: &BatesParams<T>) -> (res: bool)
    requires
        lawful::<T, M>(m),
    ensures
        res == bates_bounds_ok_spec(m, *p),
{
    heston_bounds_ok(m, &p.heston) && p.lambda >= whole::<T>(0) && p.lambda < whole::<T>(10)
        && abs(p.mu_j) < whole::<T>(2) && p.sigma_j > m.decimal(1, -6) && p.sigma_j < whole::<T>(2)
}

/// The largest volatility of variance that a random start draws: nine tenths of the one at
/// which Feller's condition fails, and at least a twentieth.
pub open spec fn sigma_cap_spec<T: Number, M: Elementary<T>>(m: M, kappa: T, theta: T) -> T {
    larger(
        sqrt_of(m, num::<T>(2).mul_spec(kappa).mul_spec(theta)).mul_spec(frac::<T>(9, 10)),
        frac::<T>(1, 20),
    )
}

/// The largest volatility of variance that a random start draws: nine tenths of the one at
/// which Feller's condition fails, and at least a twentieth.
pub fn sigma_cap<T: Number, M: Elementary<T>>(m: M, kappa: T, theta: T) -> (res: T)
    requires
        lawful::<T, M>(m),
    ensures
        res == sigma_cap_spec(m, kappa, theta),
{
    fmax(m.sqrt(whole::<T>(2) * kappa * theta) * ratio::<T>(9, 10), ratio::<T>(1, 20))
}

impl<T: Number, M: Elementary<T>> CalibModel<T, M> for HestonParams<T> {
    open spec fn dim_spec() -> int {
        5
    }

    open spec fn to_seq(self) -> Seq<T> {
        seq![self.v0, self.kappa, self.theta, self.sigma, self.rho]
    }

    open spec fn from_seq(v: Seq<T>) -> HestonParams<T> {
        HestonParams { v0: v[0], kappa: v[1], theta: v[2], sigma: v[3], rho: v[4] }
    }

    open spec fn price_spec(self, m: M, c: OptionContract<T>) -> T {
        heston_price_spec(
            m,
            c.spot,
            c.strike,
            c.expiry,
            c.rate,
            c.div_yield,
            self,
            c.opt_type,
        )
    }

    open spec fn bounds_ok_spec(self, m: M) -> bool {
        heston_bounds_ok_spec(m, self)
    }

    open spec fn bump_sizes_spec(m: M) -> Seq<T> {
        seq![
            decimal_of::<T, M>(m, 1, -4),
            decimal_of::<T, M>(m, 1, -3),
            decimal_of::<T, M>(m, 1, -4),
            decimal_of::<T, M>(m, 1, -3),
            decimal_of::<T, M>(m, 1, -4),
        ]
    }

    open spec fn param_bounds_spec(m: M) -> Seq<(T, T)> {
        seq![
            (decimal_of::<T, M>(m, 1, -8), num::<T>(5)),
            (decimal_of::<T, M>(m, 1, -6), num::<T>(50)),
            (decimal_of::<T, M>(m, 1, -8), num::<T>(5)),
            (decimal_of::<T, M>(m, 1, -6), num::<T>(10)),
            (frac::<T>(-9999, 10000), frac::<T>(9999, 10000)),
        ]
    }

    open spec fn ad_price_derivative_spec(self, m: M, c: OptionContract<T>, col: int) -> Option<T> {
        None
    }

    open spec fn regularization_scale_spec(m: M) -> Seq<T> {
        seq![frac::<T>(4, 100), num::<T>(2), frac::<T>(4, 100), frac::<T>(3, 10), frac::<T>(3, 10)]
    }

    proof fn lemma_shape(m: M) {
    }

    proof fn lemma_vector(self, v: Seq<T>) {
        if v.len() == 5 {
            assert(seq![v[0], v[1], v[2], v[3], v[4]] =~= v);
        }
    }

    fn dim() -> (res: usize) {
        5
    }

    fn to_vec(&self) -> (res: Vec<T>) {
        let r: Vec<T> = vec![self.v0, self.kappa, self.theta, self.sigma, self.rho];
        r
    }

    fn from_vec(v: &Vec<T>) -> (res: HestonParams<T>) {
        HestonParams { v0: v[0], kappa: v[1], theta: v[2], sigma: v[3], rho: v[4] }
    }

    fn price(&self, m: M, c: &OptionContract<T>) -> (res: T) {
        heston_price(
            m,
            c.spot,
            c.strike,
            c.expiry,
            c.rate,
            c.div_yield,
            self,
            c.opt_type,
        )
    }

    fn bounds_ok(&self, m: M) -> (res: bool) {
        heston_bounds_ok(m, self)
    }

    fn bump_sizes(m: M) -> (res: Vec<T>) {
        let r: Vec<T> = vec![
            m.decimal(1, -4),
            m.decimal(1, -3),
            m.decimal(1, -4),
            m.decimal(1, -3),
            m.decimal(1, -4),
        ];
        r
    }

    fn param_bounds(m: M) -> (res: Vec<(T, T)>) {
        let r: Vec<(T, T)> = vec![
            (m.decimal(1, -8), whole::<T>(5)),
            (m.decimal(1, -6), whole::<T>(50)),
            (m.decimal(1, -8), whole::<T>(5)),
            (m.decimal(1, -6), whole::<T>(10)),
            (ratio::<T>(-9999, 10000), ratio::<T>(9999, 10000)),
        ];
        r
    }

    fn ad_price_derivative(&self, m: M, c: &OptionContract<T>, col: usize) -> (res: Option<T>) {
        None
    }

    fn regularization_scale(m: M) -> (res: Vec<T>) {
        let r: Vec<T> = vec![
            ratio::<T>(4, 100),
            whole::<T>(2),
            ratio::<T>(4, 100),
            ratio::<T>(3, 10),
            ratio::<T>(3, 10),
        ];
        r
    }
}

impl<T: Number, M: Elementary<T>> CalibModel<T, M> for BatesParams<T> {
    open spec fn dim_spec() -> int {
        8
    }

    open spec fn to_seq(self) -> Seq<T> {
        seq![
            self.heston.v0,
            self.heston.kappa,
            self.heston.theta,
            self.heston.sigma,
            self.heston.rho,
            self.lambda,
            self.mu_j,
            self.sigma_j,
        ]
    }

    open spec fn from_seq(v: Seq<T>) -> BatesParams<T> {
        BatesParams {
            heston: HestonParams { v0: v[0], kappa: v[1], theta: v[2], sigma: v[3], rho: v[4] },
            lambda: v[5],
            mu_j: v[6],
            sigma_j: v[7],
        }
    }

    open spec fn price_spec(self, m: M, c: OptionContract<T>) -> T {
        bates_price_spec(
            m,
            c.spot,
            c.strike,
            c.expiry,
            c.rate,
            c.div_yield,
            self,
            c.opt_type,
        )
    }

    open spec fn bounds_ok_spec(self, m: M) -> bool {
        bates_bounds_ok_spec(m, self)
    }

    open spec fn bump_sizes_spec(m: M) -> Seq<T> {
        <HestonParams<T> as CalibModel<T, M>>::bump_sizes_spec(m) + seq![
            decimal_of::<T, M>(m, 1, -4),
            decimal_of::<T, M>(m, 1, -4),
            decimal_of::<T, M>(m, 1, -4),
        ]
    }

    open spec fn param_bounds_spec(m: M) -> Seq<(T, T)> {
        <HestonParams<T> as CalibModel<T, M>>::param_bounds_spec(m) + seq![
            (num::<T>(0), num::<T>(10)),
            (num::<T>(-2), num::<T>(2)),
            (decimal_of::<T, M>(m, 1, -6), num::<T>(2)),
        ]
    }

    open spec fn ad_price_derivative_spec(self, m: M, c: OptionContract<T>, col: int) -> Option<T> {
        let sens = bates_jump_sensitivities_ad_spec(
            m,
            c.spot,
            c.strike,
            c.expiry,
            c.rate,
            c.div_yield,
            self,
            c.opt_type,
        );
        if col < 5 {
            None
        } else if col == 5 {
            Some(sens.d_lambda)
        } else if col == 6 {
            Some(sens.d_mu_j)
        } else {
            Some(sens.d_sigma_j)
        }
    }

    open spec fn regularization_scale_spec(m: M) -> Seq<T> {
        <HestonParams<T> as CalibModel<T, M>>::regularization_scale_spec(m) + seq![
            frac::<T>(1, 2),
            frac::<T>(1, 10),
            frac::<T>(15, 100),
        ]
    }

    proof fn lemma_shape(m: M) {
    }

    proof fn lemma_vector(self, v: Seq<T>) {
        if v.len() == 8 {
            assert(seq![v[0], v[1], v[2], v[3], v[4], v[5], v[6], v[7]] =~= v);
        }
    }

    fn dim() -> (res: usize) {
        8
    }

    fn to_vec(&self) -> (res: Vec<T>) {
        let h = self.heston;
        let r: Vec<T> = vec![
            h.v0,
            h.kappa,
            h.theta,
            h.sigma,
            h.rho,
            self.lambda,
            self.mu_j,
            self.sigma_j,
        ];
        r
    }

    fn from_vec(v: &Vec<T>) -> (res: BatesParams<T>) {
        BatesParams {
            heston: HestonParams { v0: v[0], kappa: v[1], theta: v[2], sigma: v[3], rho: v[4] },
            lambda: v[5],
            mu_j: v[6],
            sigma_j: v[7],
        }
    }

    fn price(&self, m: M, c: &OptionContract<T>) -> (res: T) {
        bates_price(
            m,
            c.spot,
            c.strike,
            c.expiry,
            c.rate,
            c.div_yield,
            self,
            c.opt_type,
        )
    }

    fn bounds_ok(&self, m: M) -> (res: bool) {
        bates_bounds_ok(m, self)
    }

    fn bump_sizes(m: M) -> (res: Vec<T>) {
        let mut r = <HestonParams<T> as CalibModel<T, M>>::bump_sizes(m);
        r.push(m.decimal(1, -4));
        r.push(m.decimal(1, -4));
        r.push(m.decimal(1, -4));
        proof {
            assert(r@ =~= Self::bump_sizes_spec(m));
        }
        r
    }

    fn param_bounds(m: M) -> (res: Vec<(T, T)>) {
        let mut r = <HestonParams<T> as CalibModel<T, M>>::param_bounds(m);
        r.push((whole::<T>(0), whole::<T>(10)));
        r.push((whole::<T>(-2), whole::<T>(2)));
        r.push((m.decimal(1, -6), whole::<T>(2)));
        proof {
            assert(r@ =~= Self::param_bounds_spec(m));
        }
        r
    }

    fn ad_price_derivative(&self, m: M, c: &OptionContract<T>, col: usize) -> (res: Option<T>) {
        if col < 5 {
            return None;
        }
        let active: usize = col - 5;
        let (_price, d) = forward_pass(
            m,
            c.spot,
            c.strike,
            c.expiry,
            c.rate,
            c.div_yield,
            &self.heston,
            c.opt_type,
            usize::MAX,
            JumpSpec::Active(jumps(self), active),
        );
        Some(d)
    }

    fn regularization_scale(m: M) -> (res: Vec<T>) {
        let mut r = <HestonParams<T> as CalibModel<T, M>>::regularization_scale(m);
        r.push(ratio::<T>(1, 2));
        r.push(ratio::<T>(1, 10));
        r.push(ratio::<T>(15, 100));
        proof {
            assert(r@ =~= Self::regularization_scale_spec(m));
        }
        r
    }
}

/// A random start for Heston's model. The volatility of variance is drawn from a range that
/// ends at `sigma_cap`, so that Feller's condition holds without rejection.
impl<T: Number, M: Elementary<T>, S: RandomSource<T>> RandomStart<T, M, S> for HestonParams<T> {
    open spec fn random_guess_spec(m: M, src: S) -> (HestonParams<T>, S) {
        let (v0, s1) = within_of(src, frac::<T>(5, 1000), frac::<T>(1, 2));
        let (kappa, s2) = within_of(s1, frac::<T>(3, 10), num::<T>(8));
        let (theta, s3) = within_of(s2, frac::<T>(5, 1000), frac::<T>(1, 2));
        let (sigma, s4) = within_of(s3, frac::<T>(2, 100), sigma_cap_spec(m, kappa, theta));
        let (rho, s5) = within_of(s4, frac::<T>(-9, 10), frac::<T>(9, 10));
        (HestonParams { v0, kappa, theta, sigma, rho }, s5)
    }

    fn random_guess(m: M, src: S) -> (res: (HestonParams<T>, S)) {
        let (v0, src) = src.within(ratio::<T>(5, 1000), ratio::<T>(1, 2));
        let (kappa, src) = src.within(ratio::<T>(3, 10), whole::<T>(8));
        let (theta, src) = src.within(ratio::<T>(5, 1000), ratio::<T>(1, 2));
        let cap = sigma_cap(m, kappa, theta);
        let (sigma, src) = src.within(ratio::<T>(2, 100), cap);
        let (rho, src) = src.within(ratio::<T>(-9, 10), ratio::<T>(9, 10));
        (HestonParams { v0, kappa, theta, sigma, rho }, src)
    }
}

/// A random start for Bates's model: one for Heston's, then the jumps.
impl<T: Number, M: Elementary<T>, S: RandomSource<T>> RandomStart<T, M, S> for BatesParams<T> {
    open spec fn random_guess_spec(m: M, src: S) -> (BatesParams<T>, S) {
        let (heston, s1): (HestonParams<T>, S) = HestonParams::random_guess_spec(m, src);
        let (lambda, s2) = within_of(s1, num::<T>(0), num::<T>(2));
        let (mu_j, s3) = within_of(s2, frac::<T>(-3, 10), frac::<T>(1, 10));
        let (sigma_j, s4) = within_of(s3, frac::<T>(2, 100), frac::<T>(4, 10));
        (BatesParams { heston, lambda, mu_j, sigma_j }, s4)
    }

    fn random_guess(m: M, src: S) -> (res: (BatesParams<T>, S)) {
        let (heston, src): (HestonParams<T>, S) = HestonParams::random_guess(m, src);
        let (lambda, src) = src.within(whole::<T>(0), whole::<T>(2));
        let (mu_j, src) = src.within(ratio::<T>(-3, 10), ratio::<T>(1, 10));
        let (sigma_j, src) = src.within(ratio::<T>(2, 100), ratio::<T>(4, 10));
        (BatesParams { heston, lambda, mu_j, sigma_j }, src)
    }
}

/// By how much the model's volatility for a contract exceeds the quoted one; zero where the
/// model's price has no volatility.
pub open spec fn single_residual_spec<T: Number, M: Elementary<T>, P: CalibModel<T, M>>(
    m: M,
    c: OptionContract<T>,
    iv_mkt: T,
    p: P,
) -> T {
    let prob = IvProblem { contract: at_vol_spec(c, iv_mkt), market_price: p.price_spec(m, c) };
    match implied_vol_spec(m, prob) {
        Some(iv) => iv.sub_spec(iv_mkt),
        None => num::<T>(0),
    }
}

/// By how much the model's volatility for a contract exceeds the quoted one.
pub fn single_residual<T: Number, M: Elementary<T>, P: CalibModel<T, M>>(
    m: M,
    c: &OptionContract<T>,
    iv_mkt: T,
    p: &P,
) -> (res: T)
    requires
        lawful::<T, M>(m),
    ensures
        res == single_residual_spec(m, *c, iv_mkt, *p),
{
    let prob = IvProblem { contract: at_vol(c, iv_mkt), market_price: p.price(m, c) };
    match implied_vol(m, &prob) {
        Some(iv) => iv - iv_mkt,
        None => whole::<T>(0),
    }
}

/// The residuals of the quotes.
pub open spec fn residuals_spec<T: Number, M: Elementary<T>, P: CalibModel<T, M>>(
    m: M,
    quotes: Seq<CalibInput<T>>,
    p: P,
) -> Seq<T> {
    Seq::new(
        quotes.len(),
        |i: int| single_residual_spec(m, *quotes[i].contract, quotes[i].iv_market, p),
    )
}

/// The residuals of the quotes.
pub fn residuals<T: Number, M: Elementary<T>, P: CalibModel<T, M>>(
    m: M,
    quotes: &Vec<CalibInput<T>>,
    p: &P,
) -> (res: Vec<T>)
    requires
        lawful::<T, M>(m),
    ensures
        res@ == residuals_spec(m, quotes@, *p),
{
    let mut r: Vec<T> = Vec::new();
    while r.len() < quotes.len()
        invariant
            lawful::<T, M>(m),
            r@.len() <= quotes@.len(),
            forall|i: int|
                0 <= i < r@.len() ==> (#[trigger] r@[i]) == residuals_spec(m, quotes@, *p)[i],
        decreases quotes@.len() - r@.len(),
    {
        let i: usize = r.len();
        let x = single_residual(m, quotes[i].contract, quotes[i].iv_market, p);
        r.push(x);
    }
    proof {
        assert(r@ =~= residuals_spec(m, quotes@, *p));
    }
    r
}

/// The model's volatility for a contract and the vega there.
pub open spec fn model_iv_and_vega_spec<T: Number, M: Elementary<T>, P: CalibModel<T, M>>(
    m: M,
    c: OptionContract<T>,
    iv_seed: T,
    p: P,
) -> Option<(T, T)> {
    let prob = IvProblem { contract: at_vol_spec(c, iv_seed), market_price: p.price_spec(m, c) };
    match implied_vol_spec(m, prob) {
        Some(iv) => Some((iv, bsm_price_and_greeks_spec(m, at_vol_spec(c, iv)).vega)),
        None => None,
    }
}

/// The model's volatility for a contract and the vega there.
pub fn model_iv_and_vega<T: Number, M: Elementary<T>, P: CalibModel<T, M>>(
    m: M,
    c: &OptionContract<T>,
    iv_seed: T,
    p: &P,
) -> (res: Option<(T, T)>)
    requires
        lawful::<T, M>(m),
    ensures
        res == model_iv_and_vega_spec(m, *c, iv_seed, *p),
{
    let prob = IvProblem { contract: at_vol(c, iv_seed), market_price: p.price(m, c) };
    match implied_vol(m, &prob) {
        Some(iv) => Some((iv, bsm_price_and_greeks(m, &at_vol(c, iv)).vega)),
        None => None,
    }
}

/// The exact derivative of a residual in parameter `col`: that of the price over vega;
/// `None` where the model has none, its price has no volatility, or vega vanishes.
pub open spec fn ad_entry_spec<T: Number, M: Elementary<T>, P: CalibModel<T, M>>(
    m: M,
    q: CalibInput<T>,
    p: P,
    col: int,
) -> Option<T> {
    match p.ad_price_derivative_spec(m, *q.contract, col) {
        None => None,
        Some(d_price) => match model_iv_and_vega_spec(m, *q.contract, q.iv_market, p) {
            None => None,
            Some((_iv, vega)) => if magnitude(vega).is_lt(&decimal_of::<T, M>(m, 1, -10)) {
                None
            } else {
                Some(d_price.div_spec(vega))
            },
        },
    }
}

/// The exact derivative of a residual in parameter `col`.
pub fn ad_entry<T: Number, M: Elementary<T>, P: CalibModel<T, M>>(
    m: M,
    q: &CalibInput<T>,
    p: &P,
    col: usize,
) -> (res: Option<T>)
    requires
        lawful::<T, M>(m),
        col < P::dim_spec(),
    ensures
        res == ad_entry_spec(m, *q, *p, col as int),
{
    match p.ad_price_derivative(m, q.contract, col) {
        None => None,
        Some(d_price) => match model_iv_and_vega(m, q.contract, q.iv_market, p) {
            None => None,
            Some((_iv, vega)) => if abs(vega) < m.decimal(1, -10) {
                None
            } else {
                Some(d_price / vega)
            },
        },
    }
}

/// Whether column `col` of the Jacobian is exact: every quote has an exact derivative.
pub open spec fn column_is_exact<T: Number, M: Elementary<T>, P: CalibModel<T, M>>(
    m: M,
    quotes: Seq<CalibInput<T>>,
    p: P,
    col: int,
) -> bool {
    forall|i: int| 0 <= i < quotes.len() ==> ad_entry_spec(m, #[trigger] quotes[i], p, col) is Some
}

/// The parameters with parameter `col` moved up by its step, but not out of its range.
pub open spec fn bumped_up<T: Number, M: Elementary<T>, P: CalibModel<T, M>>(
    m: M,
    p: P,
    col: int,
) -> Seq<T> {
    p.to_seq().update(
        col,
        smaller(
            p.to_seq()[col].add_spec(P::bump_sizes_spec(m)[col]),
            P::param_bounds_spec(m)[col].1,
        ),
    )
}

/// The parameters with parameter `col` moved down by its step, but not out of its range.
pub open spec fn bumped_down<T: Number, M: Elementary<T>, P: CalibModel<T, M>>(
    m: M,
    p: P,
    col: int,
) -> Seq<T> {
    p.to_seq().update(
        col,
        larger(
            p.to_seq()[col].sub_spec(P::bump_sizes_spec(m)[col]),
            P::param_bounds_spec(m)[col].0,
        ),
    )
}

/// Column `col` of the Jacobian: the exact derivatives if all quotes have one, else the
/// differences of the residuals over the distance that the parameter was really moved; zero
/// where it could not be moved.
pub open spec fn jacobian_column<T: Number, M: Elementary<T>, P: CalibModel<T, M>>(
    m: M,
    quotes: Seq<CalibInput<T>>,
    p: P,
    col: int,
) -> Seq<T> {
    let up = bumped_up(m, p, col);
    let dn = bumped_down(m, p, col);
    let h = up[col].sub_spec(dn[col]);
    let ru = residuals_spec(m, quotes, P::from_seq(up));
    let rd = residuals_spec(m, quotes, P::from_seq(dn));
    Seq::new(
        quotes.len(),
        |row: int|
            if column_is_exact(m, quotes, p, col) {
                ad_entry_spec(m, quotes[row], p, col)->0
            } else if h.is_le(&num::<T>(0)) {
                num::<T>(0)
            } else {
                ru[row].sub_spec(rd[row]).div_spec(h)
            },
    )
}

/// The Jacobian of the residuals: one row for each quote, one column for each parameter.
pub open spec fn jacobian_spec<T: Number, M: Elementary<T>, P: CalibModel<T, M>>(
    m: M,
    quotes: Seq<CalibInput<T>>,
    p: P,
) -> Seq<Seq<T>> {
    Seq::new(
        quotes.len(),
        |row: int|
            Seq::new(P::dim_spec() as nat, |col: int| jacobian_column(m, quotes, p, col)[row]),
    )
}

/// The exact derivatives of the residuals in parameter `col`, if all quotes have one.
fn exact_column<T: Number, M: Elementary<T>, P: CalibModel<T, M>>(
    m: M,
    quotes: &Vec<CalibInput<T>>,
    p: &P,
    col: usize,
) -> (res: Option<Vec<T>>)
    requires
        lawful::<T, M>(m),
        col < P::dim_spec(),
    ensures
        res is Some <==> column_is_exact(m, quotes@, *p, col as int),
        res matches Some(v) ==> v@ == jacobian_column(m, quotes@, *p, col as int),
{
    let mut v: Vec<T> = Vec::new();
    while v.len() < quotes.len()
        invariant
            lawful::<T, M>(m),
            col < P::dim_spec(),
            v@.len() <= quotes@.len(),
            forall|i: int|
                0 <= i < v@.len() ==> ad_entry_spec(m, #[trigger] quotes@[i], *p, col as int)
                    == Some(v@[i]),
        decreases quotes@.len() - v@.len(),
    {
        let i: usize = v.len();
        match ad_entry(m, &quotes[i], p, col) {
            None => {
                proof {
                    assert(ad_entry_spec(m, quotes@[i as int], *p, col as int) is None);
                }
                return None;
            },
            Some(x) => {
                v.push(x);
            },
        }
    }
    proof {
        assert(column_is_exact(m, quotes@, *p, col as int));
        assert(v@ =~= jacobian_column(m, quotes@, *p, col as int));
    }
    Some(v)
}

/// Column `col` of the Jacobian.
fn compute_column<T: Number, M: Elementary<T>, P: CalibModel<T, M>>(
    m: M,
    quotes: &Vec<CalibInput<T>>,
    p: &P,
    col: usize,
) -> (res: Vec<T>)
    requires
        lawful::<T, M>(m),
        col < P::dim_spec(),
    ensures
        res@ == jacobian_column(m, quotes@, *p, col as int),
{
    proof {
        P::lemma_shape(m);
        p.lemma_vector(Seq::empty());
    }
    match exact_column(m, quotes, p, col) {
        Some(v) => {
            return v;
        },
        None => {},
    }
    let base = p.to_vec();
    let bumps = P::bump_sizes(m);
    let bounds = P::param_bounds(m);
    let (lo, hi) = bounds[col];
    let mut vu = copy_vec(&base);
    vu.set(col, fmin(base[col] + bumps[col], hi));
    let mut vd = copy_vec(&base);
    vd.set(col, fmax(base[col] - bumps[col], lo));
    proof {
        assert(vu@ =~= bumped_up(m, *p, col as int));
        assert(vd@ =~= bumped_down(m, *p, col as int));
    }
    let h = vu[col] - vd[col];
    let zero = whole::<T>(0);
    let stuck = h <= zero;
    let mut out: Vec<T> = Vec::new();
    if stuck {
        while out.len() < quotes.len()
            invariant
                zero == num::<T>(0),
                out@.len() <= quotes@.len(),
                forall|i: int| 0 <= i < out@.len() ==> (#[trigger] out@[i]) == zero,
            decreases quotes@.len() - out@.len(),
        {
            out.push(zero);
        }
    } else {
        let ru = residuals(m, quotes, &P::from_vec(&vu));
        let rd = residuals(m, quotes, &P::from_vec(&vd));
        while out.len() < quotes.len()
            invariant
                lawful::<T, M>(m),
                ru@.len() == quotes@.len(),
                rd@.len() == quotes@.len(),
                out@.len() <= quotes@.len(),
                forall|i: int|
                    0 <= i < out@.len() ==> (#[trigger] out@[i]) == ru@[i].sub_spec(
                        rd@[i],
                    ).div_spec(h),
            decreases quotes@.len() - out@.len(),
        {
            let i: usize = out.len();
            out.push((ru[i] - rd[i]) / h);
        }
    }
    proof {
        assert(out@ =~= jacobian_column(m, quotes@, *p, col as int));
    }
    out
}

/// The Jacobian of the residuals.
pub fn jacobian<T: Number, M: Elementary<T>, P: CalibModel<T, M>>(
    m: M,
    quotes: &Vec<CalibInput<T>>,
    p: &P,
) -> (res: Vec<Vec<T>>)
    requires
        lawful::<T, M>(m),
    ensures
        entries(res@) == jacobian_spec(m, quotes@, *p),
        has_shape(entries(res@), quotes@.len() as int, P::dim_spec()),
{
    let n: usize = P::dim();
    proof {
        P::lemma_shape(m);
    }
    let mut cols: Vec<Vec<T>> = Vec::new();
    while cols.len() < n
        invariant
            lawful::<T, M>(m),
            n == P::dim_spec(),
            cols@.len() <= n,
            forall|c: int|
                0 <= c < cols@.len() ==> (#[trigger] cols@[c])@ == jacobian_column(
                    m,
                    quotes@,
                    *p,
                    c,
                ),
        decreases n - cols@.len(),
    {
        let col = compute_column(m, quotes, p, cols.len());
        cols.push(col);
    }
    let mut out: Vec<Vec<T>> = Vec::new();
    while out.len() < quotes.len()
        invariant
            n == P::dim_spec(),
            cols@.len() == n,
            forall|c: int|
                0 <= c < n ==> (#[trigger] cols@[c])@ == jacobian_column(m, quotes@, *p, c),
            out@.len() <= quotes@.len(),
            forall|r: int|
                0 <= r < out@.len() ==> (#[trigger] out@[r])@ == jacobian_spec(m, quotes@, *p)[r],
        decreases quotes@.len() - out@.len(),
    {
        let r: usize = out.len();
        let mut row: Vec<T> = Vec::new();
        while row.len() < n
            invariant
                n == P::dim_spec(),
                r < quotes@.len(),
                cols@.len() == n,
                forall|c: int|
                    0 <= c < n ==> (#[trigger] cols@[c])@ == jacobian_column(m, quotes@, *p, c),
                row@.len() <= n,
                forall|c: int|
                    0 <= c < row@.len() ==> (#[trigger] row@[c]) == jacobian_column(
                        m,
                        quotes@,
                        *p,
                        c,
                    )[r as int],
            decreases n - row@.len(),
        {
            let c: usize = row.len();
            proof {
                assert(cols@[c as int]@.len() == quotes@.len());
            }
            row.push(cols[c][r]);
        }
        proof {
            assert(row@ =~= jacobian_spec(m, quotes@, *p)[r as int]);
        }
        out.push(row);
    }
    proof {
        assert(entries(out@) =~= jacobian_spec(m, quotes@, *p));
    }
    out
}

} // verus!
