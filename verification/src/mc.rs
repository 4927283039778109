//! Monte Carlo for payoffs that depend on the path: discretisations of the variance,
//! antithetic pairs, and the division of the work into chunks with streams of their own.
use crate::characteristic::JumpParams;
use crate::math::{ncdf, ncdf_spec};
use crate::number::{
    cos_of, count_of, decimal_of, exp_of, fmax, frac, larger, lawful, ln_of, num, ratio, regular,
    sin_of, sqrt_of, whole, Elementary, Number,
};
use crate::random::{
    chunk_seed, chunk_seed_spec, made_by, positive_unit_of, steady, steady_maker, unit_of,
    RandomSource,
};
pub use crate::rough::mc_rough_bergomi;
use crate::types::{HestonParams, OptionType};
use core::ops::Neg;
use vstd::prelude::*;
use vstd::std_specs::cmp::PartialOrdIs;
use vstd::std_specs::ops::{AddSpec, DivSpec, MulSpec, NegSpec, SubSpec};

verus! {

/// An estimate and its standard error.
#[derive(Debug, Clone, Copy)]
pub struct McResult<T> {
    pub price: T,
    pub std_error: T,
}

/// How a step of the variance is taken.
#[derive(Debug, Clone, Copy, PartialEq, Eq, Structural)]
pub enum VarianceScheme {
    /// An Euler step with the variance cut off at zero wherever it is read.
    FullTruncationEuler,
    /// A draw from a distribution with the moments of the exact one.
    QuadraticExponential,
}

/// The size of a simulation and the way it is run.
#[derive(Debug, Clone, Copy)]
pub struct McConfig {
    pub n_paths: usize,
    pub n_steps: usize,
    pub seed: u64,
    pub antithetic: bool,
    pub scheme: VarianceScheme,
}

impl Default for McConfig {
    fn default() -> (res: McConfig)
        ensures
            res == (McConfig {
                n_paths: 200_000,
                n_steps: 252,
                seed: 0xC0FFEE,
                antithetic: true,
                scheme: VarianceScheme::FullTruncationEuler,
            }),
    {
        McConfig {
            n_paths: 200_000,
            n_steps: 252,
            seed: 0xC0FFEE,
            antithetic: true,
            scheme: VarianceScheme::FullTruncationEuler,
        }
    }
}

/// What a path pays.
#[derive(Debug, Clone, Copy)]
pub enum Payoff<T> {
    European { strike: T, opt_type: OptionType },
    AsianArithmetic { strike: T, opt_type: OptionType },
    /// The rebate is paid as soon as the barrier is reached.
    UpAndOut { strike: T, barrier: T, rebate: T, opt_type: OptionType },
}

/// What exercising is worth at a price of `s`.
pub open spec fn intrinsic_spec<T: Number>(s: T, k: T, opt_type: OptionType) -> T {
    if opt_type is Call {
        larger(s.sub_spec(k), num::<T>(0))
    } else {
        larger(k.sub_spec(s), num::<T>(0))
    }
}

/// What exercising is worth at a price of `s`.
pub fn intrinsic<T: Number>(s: T, k: T, opt_type: OptionType) -> (res: T)
    requires
        regular::<T>(),
    ensures
        res == intrinsic_spec(s, k, opt_type),
{
    if matches!(opt_type, OptionType::Call) {
        fmax(s - k, whole::<T>(0))
    } else {
        fmax(k - s, whole::<T>(0))
    }
}

impl<T: Number> Payoff<T> {
    /// What is paid on a path with the given last price, sum of prices, largest price and
    /// number of steps: the exercise value of the last price, that of the average price, or
    /// that of the last price unless the largest has reached the barrier, and then the
    /// rebate.
    pub open spec fn eval_spec<M: Elementary<T>>(
        self,
        m: M,
        terminal: T,
        running_sum: T,
        running_max: T,
        n_steps: usize,
    ) -> T {
        match self {
            Payoff::European { strike, opt_type } => intrinsic_spec(terminal, strike, opt_type),
            Payoff::AsianArithmetic { strike, opt_type } => intrinsic_spec(
                running_sum.div_spec(count_of(m, n_steps)),
                strike,
                opt_type,
            ),
            Payoff::UpAndOut { strike, barrier, rebate, opt_type } => if running_max.is_ge(
                &barrier,
            ) {
                rebate
            } else {
                intrinsic_spec(terminal, strike, opt_type)
            },
        }
    }

    /// What is paid on a path.
    pub fn eval<M: Elementary<T>>(
        &self,
        m: M,
        terminal: T,
        running_sum: T,
        running_max: T,
        n_steps: usize,
    ) -> (res: T)
        requires
            lawful::<T, M>(m),
        ensures
            res == self.eval_spec(m, terminal, running_sum, running_max, n_steps),
    {
        match *self {
            Payoff::European { strike, opt_type } => intrinsic(terminal, strike, opt_type),
            Payoff::AsianArithmetic { strike, opt_type } => intrinsic(
                running_sum / m.count(n_steps),
                strike,
                opt_type,
            ),
            Payoff::UpAndOut { strike, barrier, rebate, opt_type } => if running_max >= barrier {
                rebate
            } else {
                intrinsic(terminal, strike, opt_type)
            },
        }
    }
}

impl<T: Number> Payoff<T> {
    /// Whether a path whose largest price so far is `running_max` has reached the barrier.
    pub open spec fn is_breached_spec(self, running_max: T) -> bool {
        match self {
            Payoff::UpAndOut { barrier, .. } => running_max.is_ge(&barrier),
            _ => false,
        }
    }

    /// Whether a path whose largest price so far is `running_max` has reached the barrier.
    pub fn is_breached(&self, running_max: T) -> (res: bool)
        requires
            regular::<T>(),
        ensures
            res == self.is_breached_spec(running_max),
    {
        match *self {
            Payoff::UpAndOut { barrier, .. } => running_max >= barrier,
            _ => false,
        }
    }

    /// What is paid when the barrier is reached; zero without a barrier.
    pub open spec fn rebate_spec(self) -> T {
        match self {
            Payoff::UpAndOut { rebate, .. } => rebate,
            _ => num::<T>(0),
        }
    }

    /// What is paid when the barrier is reached; zero without a barrier.
    pub fn rebate(&self) -> (res: T)
        requires
            regular::<T>(),
        ensures
            res == self.rebate_spec(),
    {
        match *self {
            Payoff::UpAndOut { rebate, .. } => rebate,
            _ => whole::<T>(0),
        }
    }
}

/// The number of steps after which a path first has reached the barrier, among its first `n`
/// and the start; `top` gives the largest price up to each step.
pub open spec fn first_breach<T: Number>(
    payoff: Payoff<T>,
    top: spec_fn(int) -> T,
    n: int,
) -> Option<int>
    decreases n + 1,
{
    if n < 0 {
        None
    } else if first_breach(payoff, top, n - 1) is Some {
        first_breach(payoff, top, n - 1)
    } else if payoff.is_breached_spec(top(n)) {
        Some(n)
    } else {
        None
    }
}

/// The time at which a rebate is paid: that of the step at which the barrier was reached, the
/// start where the path began at it or beyond.
pub open spec fn breach_time_spec<T: Number, M: Elementary<T>>(m: M, step: int, dt: T) -> T {
    if step == 0 {
        num::<T>(0)
    } else {
        count_of::<T, M>(m, step as usize).mul_spec(dt)
    }
}

/// What a path is worth today. If it reached the barrier, the rebate, discounted from then;
/// else what the payoff pays at expiry, discounted from there.
pub open spec fn present_value_spec<T: Number, M: Elementary<T>>(
    m: M,
    payoff: Payoff<T>,
    breach: Option<int>,
    terminal: T,
    running_sum: T,
    running_max: T,
    n_steps: usize,
    dt: T,
    rate: T,
    expiry: T,
) -> T {
    match breach {
        Some(step) => exp_of(m, rate.neg_spec().mul_spec(breach_time_spec(m, step, dt))).mul_spec(
            payoff.rebate_spec(),
        ),
        None => exp_of(m, rate.neg_spec().mul_spec(expiry)).mul_spec(
            payoff.eval_spec(m, terminal, running_sum, running_max, n_steps),
        ),
    }
}

/// The step of a breach as a mathematical number.
pub open spec fn breach_view(breach: Option<usize>) -> Option<int> {
    match breach {
        Some(step) => Some(step as int),
        None => None,
    }
}

/// What a path is worth today.
pub fn present_value<T: Number, M: Elementary<T>>(
    m: M,
    payoff: &Payoff<T>,
    breach: Option<usize>,
    terminal: T,
    running_sum: T,
    running_max: T,
    n_steps: usize,
    dt: T,
    rate: T,
    expiry: T,
) -> (res: T)
    requires
        lawful::<T, M>(m),
    ensures
        res == present_value_spec(
            m,
            *payoff,
            breach_view(breach),
            terminal,
            running_sum,
            running_max,
            n_steps,
            dt,
            rate,
            expiry,
        ),
{
    match breach {
        Some(step) => {
            let t = if step == 0 {
                whole::<T>(0)
            } else {
                m.count(step) * dt
            };
            m.exp(rate.neg() * t) * payoff.rebate()
        },
        None => m.exp(rate.neg() * expiry)
            * payoff.eval(m, terminal, running_sum, running_max, n_steps),
    }
}

/// The randomness of one step: two independent normals, and the sum of the jumps in it.
#[derive(Debug, Clone, Copy)]
pub struct StepDraw<T> {
    pub za: T,
    pub zb: T,
    pub jump_sum: T,
}

/// Two independent standard normals from two uniforms, by the method of Box and Muller.
pub open spec fn normal_pair_spec<T: Number, M: Elementary<T>>(m: M, u1: T, u2: T) -> (T, T) {
    let r = sqrt_of(m, num::<T>(-2).mul_spec(ln_of(m, u1)));
    let theta = decimal_of::<T, M>(m, 6283185307179586, -15).mul_spec(u2);
    (r.mul_spec(cos_of(m, theta)), r.mul_spec(sin_of(m, theta)))
}

/// Two independent standard normals from two uniforms, by the method of Box and Muller.
pub fn normal_pair<T: Number, M: Elementary<T>>(m: M, u1: T, u2: T) -> (res: (T, T))
    requires
        lawful::<T, M>(m),
    ensures
        res == normal_pair_spec(m, u1, u2),
{
    let r = m.sqrt(whole::<T>(-2) * m.ln(u1));
    let theta = m.decimal(6283185307179586, -15) * u2;
    (r * m.cos(theta), r * m.sin(theta))
}

/// Two independent standard normals from a stream, and the rest of it.
pub open spec fn box_muller_spec<T: Number, M: Elementary<T>, S: RandomSource<T>>(
    m: M,
    src: S,
) -> ((T, T), S) {
    let (u1, s1) = positive_unit_of(src);
    let (u2, s2) = unit_of(s1);
    (normal_pair_spec(m, u1, u2), s2)
}

/// Two independent standard normals from a stream, and the rest of it.
pub fn box_muller<T: Number, M: Elementary<T>, S: RandomSource<T>>(m: M, src: S) -> (res: (
    (T, T),
    S,
))
    requires
        lawful::<T, M>(m),
        steady::<T, S>(),
    ensures
        res == box_muller_spec(m, src),
{
    let (u1, src) = src.positive_unit();
    let (u2, src) = src.unit();
    (normal_pair(m, u1, u2), src)
}

/// What is left of a stream after `n` draws from the unit interval.
pub open spec fn after_units<T: Number, S: RandomSource<T>>(src: S, n: int) -> S
    decreases n,
{
    if n <= 0 {
        src
    } else {
        unit_of::<T, S>(after_units::<T, S>(src, n - 1)).1
    }
}

/// The product of the first `n` draws from the unit interval.
pub open spec fn unit_product<T: Number, S: RandomSource<T>>(src: S, n: int) -> T
    decreases n,
{
    if n <= 0 {
        num::<T>(1)
    } else {
        unit_product::<T, S>(src, n - 1).mul_spec(
            unit_of::<T, S>(after_units::<T, S>(src, n - 1)).0,
        )
    }
}

/// Knuth's count on a stream: one less than the number of draws whose product is the first
/// not to exceed `l`.
pub open spec fn knuth_count<T: Number, S: RandomSource<T>>(src: S, l: T, k: u32) -> bool {
    &&& unit_product::<T, S>(src, k + 1).is_le(&l)
    &&& forall|j: int| 1 <= j <= k ==> !(#[trigger] unit_product::<T, S>(src, j)).is_le(&l)
}

/// Knuth's count on a stream that has one.
pub open spec fn count_on<T: Number, S: RandomSource<T>>(src: S, l: T) -> u32 {
    choose|k: u32| k < u32::MAX && #[trigger] knuth_count(src, l, k)
}

/// A draw from the Poisson distribution with the given mean, by Knuth's method, and the rest
/// of the stream: zero for a mean that is not positive, which takes no draw; else the count
/// on the stream, cut off at the largest value of its type.
pub open spec fn sample_poisson_spec<T: Number, M: Elementary<T>, S: RandomSource<T>>(
    m: M,
    src: S,
    mean: T,
) -> (u32, S) {
    let l = exp_of(m, mean.neg_spec());
    if mean.is_le(&num::<T>(0)) {
        (0, src)
    } else if exists|k: u32| k < u32::MAX && #[trigger] knuth_count(src, l, k) {
        let k = count_on(src, l);
        (k, after_units::<T, S>(src, k + 1))
    } else {
        (u32::MAX, after_units::<T, S>(src, u32::MAX as int))
    }
}

/// A draw from the Poisson distribution with the given mean, by Knuth's method, and the rest
/// of the stream: the number of uniforms beyond the first that it takes for their product to
/// fall to e to the power minus the mean.
pub fn sample_poisson<T: Number, M: Elementary<T>, S: RandomSource<T>>(
    m: M,
    src: S,
    mean: T,
) -> (res: (u32, S))
    requires
        lawful::<T, M>(m),
        steady::<T, S>(),
    ensures
        res == sample_poisson_spec(m, src, mean),
{
    if mean <= whole::<T>(0) {
        return (0, src);
    }
    let l = m.exp(mean.neg());
    let mut k: u32 = 0;
    let mut p = whole::<T>(1);
    let mut rest = src;
    while k < u32::MAX
        invariant
            lawful::<T, M>(m),
            steady::<T, S>(),
            !mean.is_le(&num::<T>(0)),
            l == exp_of(m, mean.neg_spec()),
            rest == after_units::<T, S>(src, k as int),
            p == unit_product::<T, S>(src, k as int),
            forall|j: int|
                1 <= j <= k ==> !(#[trigger] unit_product::<T, S>(src, j)).is_le(&l),
        decreases u32::MAX - k,
    {
        let (u, left) = rest.unit();
        rest = left;
        p = p * u;
        if p <= l {
            proof {
                assert(knuth_count(src, l, k));
                let c = count_on(src, l);
                assert(c == k) by {
                    assert(unit_product::<T, S>(src, c + 1).is_le(&l));
                    assert(unit_product::<T, S>(src, k + 1).is_le(&l));
                }
                assert(rest == after_units::<T, S>(src, k + 1));
            }
            return (k, rest);
        }
        k = k + 1;
    }
    proof {
        assert forall|c: u32| c < u32::MAX implies !#[trigger] knuth_count(src, l, c) by {
            assert(!unit_product::<T, S>(src, c + 1).is_le(&l));
        }
    }
    (k, rest)
}

/// The sum of `n` jumps of the given distribution: a normal of `n` times the mean and the
/// variance, from the standard normal `u`.
pub open spec fn jump_total_spec<T: Number, M: Elementary<T>>(
    m: M,
    j: JumpParams<T>,
    n: u32,
    u: T,
) -> T {
    if n == 0 {
        num::<T>(0)
    } else {
        let c = count_of::<T, M>(m, n as usize);
        j.mu_j.mul_spec(c).add_spec(j.sigma_j.mul_spec(sqrt_of(m, c)).mul_spec(u))
    }
}

/// The randomness of one step of length `dt`, and the rest of the stream: a pair of normals,
/// and where there are jumps the sum of as many as a Poisson draw gives, by the first of
/// another pair.
pub open spec fn draw_step_spec<T: Number, M: Elementary<T>, S: RandomSource<T>>(
    m: M,
    src: S,
    jumps: Option<JumpParams<T>>,
    dt: T,
) -> (StepDraw<T>, S) {
    let ((za, zb), s1) = box_muller_spec(m, src);
    match jumps {
        None => (StepDraw { za, zb, jump_sum: num::<T>(0) }, s1),
        Some(j) => {
            let (n, s2) = sample_poisson_spec(m, s1, j.lambda.mul_spec(dt));
            if n == 0 {
                (StepDraw { za, zb, jump_sum: num::<T>(0) }, s2)
            } else {
                let (u, s3) = box_muller_spec(m, s2);
                (StepDraw { za, zb, jump_sum: jump_total_spec(m, j, n, u.0) }, s3)
            }
        },
    }
}

/// The randomness of one step of length `dt`, and the rest of the stream.
pub fn draw_step<T: Number, M: Elementary<T>, S: RandomSource<T>>(
    m: M,
    src: S,
    jumps: Option<JumpParams<T>>,
    dt: T,
) -> (res: (StepDraw<T>, S))
    requires
        lawful::<T, M>(m),
        steady::<T, S>(),
    ensures
        res == draw_step_spec(m, src, jumps, dt),
{
    let ((za, zb), src) = box_muller(m, src);
    match jumps {
        None => (StepDraw { za, zb, jump_sum: whole::<T>(0) }, src),
        Some(j) => {
            let (n, src) = sample_poisson(m, src, j.lambda * dt);
            if n == 0 {
                return (StepDraw { za, zb, jump_sum: whole::<T>(0) }, src);
            }
            let ((u, _), src) = box_muller(m, src);
            let c = m.count(n as usize);
            (StepDraw { za, zb, jump_sum: j.mu_j * c + j.sigma_j * m.sqrt(c) * u }, src)
        },
    }
}

/// The coefficients of the price update that goes with the quadratic-exponential step, with
/// the variance taken half before and half after it.
#[derive(Debug, Clone, Copy)]
pub struct QeCoeffs<T> {
    pub k0: T,
    pub k1: T,
    pub k2: T,
    pub k3: T,
    pub k4: T,
}

/// The coefficients of the price update.
pub open spec fn qe_coeffs_spec<T: Number>(hp: HestonParams<T>, dt: T) -> QeCoeffs<T> {
    let tilt = frac::<T>(1, 2).mul_spec(dt).mul_spec(
        hp.kappa.mul_spec(hp.rho).div_spec(hp.sigma).sub_spec(frac::<T>(1, 2)),
    );
    let half = frac::<T>(1, 2).mul_spec(dt).mul_spec(num::<T>(1).sub_spec(hp.rho.mul_spec(hp.rho)));
    QeCoeffs {
        k0: hp.rho.neg_spec().mul_spec(hp.kappa).mul_spec(hp.theta).mul_spec(dt).div_spec(hp.sigma),
        k1: tilt.sub_spec(hp.rho.div_spec(hp.sigma)),
        k2: tilt.add_spec(hp.rho.div_spec(hp.sigma)),
        k3: half,
        k4: half,
    }
}

/// The coefficients of the price update.
pub fn qe_coeffs<T: Number>(hp: &HestonParams<T>, dt: T) -> (res: QeCoeffs<T>)
    requires
        regular::<T>(),
    ensures
        res == qe_coeffs_spec(*hp, dt),
{
    let tilt = ratio::<T>(1, 2) * dt * (hp.kappa * hp.rho / hp.sigma - ratio::<T>(1, 2));
    let half = ratio::<T>(1, 2) * dt * (whole::<T>(1) - hp.rho * hp.rho);
    QeCoeffs {
        k0: hp.rho.neg() * hp.kappa * hp.theta * dt / hp.sigma,
        k1: tilt - hp.rho / hp.sigma,
        k2: tilt + hp.rho / hp.sigma,
        k3: half,
        k4: half,
    }
}

/// The mean and the variance of the variance a time `dt` after it was `v_t`.
pub open spec fn qe_moments_spec<T: Number, M: Elementary<T>>(
    m: M,
    v_t: T,
    kappa: T,
    theta: T,
    sigma: T,
    dt: T,
) -> (T, T) {
    let ekt = exp_of(m, kappa.neg_spec().mul_spec(dt));
    let gap = num::<T>(1).sub_spec(ekt);
    let first = v_t.mul_spec(sigma).mul_spec(sigma).mul_spec(ekt).div_spec(kappa).mul_spec(gap);
    let second = theta.mul_spec(sigma).mul_spec(sigma).div_spec(
        num::<T>(2).mul_spec(kappa),
    ).mul_spec(gap.mul_spec(gap));
    (theta.add_spec(v_t.sub_spec(theta).mul_spec(ekt)), first.add_spec(second))
}

/// The mean and the variance of the variance a time `dt` after it was `v_t`.
pub fn qe_moments<T: Number, M: Elementary<T>>(
    m: M,
    v_t: T,
    kappa: T,
    theta: T,
    sigma: T,
    dt: T,
) -> (res: (T, T))
    requires
        lawful::<T, M>(m),
    ensures
        res == qe_moments_spec(m, v_t, kappa, theta, sigma, dt),
{
    let ekt = m.exp(kappa.neg() * dt);
    let gap = whole::<T>(1) - ekt;
    let first = v_t * sigma * sigma * ekt / kappa * gap;
    let second = theta * sigma * sigma / (whole::<T>(2) * kappa) * (gap * gap);
    (theta + (v_t - theta) * ekt, first + second)
}

/// The ratio of the variance to the squared mean, kept away from zero.
pub open spec fn qe_psi_spec<T: Number, M: Elementary<T>>(m: M, mean: T, s2: T) -> T {
    let square = larger(mean.mul_spec(mean), decimal_of::<T, M>(m, 1, -300));
    larger(s2.div_spec(square), decimal_of::<T, M>(m, 1, -12))
}

/// The ratio of the variance to the squared mean, kept away from zero.
pub fn qe_psi<T: Number, M: Elementary<T>>(m: M, mean: T, s2: T) -> (res: T)
    requires
        lawful::<T, M>(m),
    ensures
        res == qe_psi_spec(m, mean, s2),
{
    let square = fmax(mean * mean, m.decimal(1, -300));
    fmax(s2 / square, m.decimal(1, -12))
}

/// The factor and the squared shift of the square of a shifted normal with the mean `mean`
/// and the ratio `psi` of variance to squared mean.
pub open spec fn qe_quadratic_spec<T: Number, M: Elementary<T>>(m: M, psi: T, mean: T) -> (T, T) {
    let two = num::<T>(2).mul_spec(num::<T>(1).div_spec(psi));
    let less = two.sub_spec(num::<T>(1));
    let b2 = less.add_spec(sqrt_of(m, larger(two.mul_spec(less), num::<T>(0))));
    (mean.div_spec(num::<T>(1).add_spec(b2)), b2)
}

/// The factor and the squared shift of the square of a shifted normal.
pub fn qe_quadratic<T: Number, M: Elementary<T>>(m: M, psi: T, mean: T) -> (res: (T, T))
    requires
        lawful::<T, M>(m),
    ensures
        res == qe_quadratic_spec(m, psi, mean),
{
    let two = whole::<T>(2) * (whole::<T>(1) / psi);
    let less = two - whole::<T>(1);
    let b2 = less + m.sqrt(fmax(two * less, whole::<T>(0)));
    (mean / (whole::<T>(1) + b2), b2)
}

/// The probability of zero and the rate of the exponential otherwise, for the mean `mean` and
/// the ratio `psi` of variance to squared mean.
pub open spec fn qe_exponential_spec<T: Number, M: Elementary<T>>(m: M, psi: T, mean: T) -> (T, T) {
    let p = psi.sub_spec(num::<T>(1)).div_spec(psi.add_spec(num::<T>(1)));
    (p, num::<T>(1).sub_spec(p).div_spec(larger(mean, decimal_of::<T, M>(m, 1, -300))))
}

/// The probability of zero and the rate of the exponential otherwise.
pub fn qe_exponential<T: Number, M: Elementary<T>>(m: M, psi: T, mean: T) -> (res: (T, T))
    requires
        lawful::<T, M>(m),
    ensures
        res == qe_exponential_spec(m, psi, mean),
{
    let p = (psi - whole::<T>(1)) / (psi + whole::<T>(1));
    (p, (whole::<T>(1) - p) / fmax(mean, m.decimal(1, -300)))
}

/// One quadratic-exponential step of the variance from `v_t`: the square of a shifted
/// normal where the ratio of variance to squared mean is small, else zero or an exponential
/// draw, both with the mean and the variance of the exact distribution.
pub open spec fn qe_variance_step_spec<T: Number, M: Elementary<T>>(
    m: M,
    v_t: T,
    kappa: T,
    theta: T,
    sigma: T,
    dt: T,
    z: T,
) -> T {
    let (mean, s2) = qe_moments_spec(m, v_t, kappa, theta, sigma, dt);
    let psi = qe_psi_spec(m, mean, s2);
    if psi.is_le(&frac::<T>(3, 2)) {
        let (a, b2) = qe_quadratic_spec(m, psi, mean);
        let shifted = sqrt_of(m, b2).add_spec(z);
        a.mul_spec(shifted.mul_spec(shifted))
    } else {
        let (p, beta) = qe_exponential_spec(m, psi, mean);
        let u = ncdf_spec(m, z);
        if u.is_le(&p) {
            num::<T>(0)
        } else {
            let tail = num::<T>(1).sub_spec(p).div_spec(num::<T>(1).sub_spec(u));
            num::<T>(1).div_spec(beta).mul_spec(ln_of(m, tail))
        }
    }
}

/// One quadratic-exponential step of the variance.
pub fn qe_variance_step<T: Number, M: Elementary<T>>(
    m: M,
    v_t: T,
    kappa: T,
    theta: T,
    sigma: T,
    dt: T,
    z: T,
) -> (res: T)
    requires
        lawful::<T, M>(m),
    ensures
        res == qe_variance_step_spec(m, v_t, kappa, theta, sigma, dt, z),
{
    let (mean, s2) = qe_moments(m, v_t, kappa, theta, sigma, dt);
    let psi = qe_psi(m, mean, s2);
    if psi <= ratio::<T>(3, 2) {
        let (a, b2) = qe_quadratic(m, psi, mean);
        let shifted = m.sqrt(b2) + z;
        a * (shifted * shifted)
    } else {
        let (p, beta) = qe_exponential(m, psi, mean);
        let u = ncdf(m, z);
        if u <= p {
            whole::<T>(0)
        } else {
            let tail = (whole::<T>(1) - p) / (whole::<T>(1) - u);
            whole::<T>(1) / beta * m.ln(tail)
        }
    }
}

/// What a path is driven by, apart from its draws.
#[derive(Debug, Clone, Copy)]
pub struct PathSetup<T> {
    pub spot: T,
    pub drift: T,
    pub hp: HestonParams<T>,
    pub dt: T,
    pub sqdt: T,
    pub scheme: VarianceScheme,
}

/// Where a path has got to: the logarithm of the price, the variance, and the sum and the
/// largest of the prices on the way.
#[derive(Debug, Clone, Copy)]
pub struct PathState<T> {
    pub ln_s: T,
    pub v: T,
    pub running_sum: T,
    pub running_max: T,
}

/// The path at its start.
pub open spec fn path_start_spec<T: Number, M: Elementary<T>>(
    m: M,
    setup: PathSetup<T>,
) -> PathState<T> {
    PathState {
        ln_s: ln_of(m, setup.spot),
        v: setup.hp.v0,
        running_sum: num::<T>(0),
        running_max: setup.spot,
    }
}

/// The path at its start.
pub fn path_start<T: Number, M: Elementary<T>>(m: M, setup: &PathSetup<T>) -> (res: PathState<T>)
    requires
        lawful::<T, M>(m),
    ensures
        res == path_start_spec(m, *setup),
{
    PathState {
        ln_s: m.ln(setup.spot),
        v: setup.hp.v0,
        running_sum: whole::<T>(0),
        running_max: setup.spot,
    }
}

/// The logarithm of the price and the variance after an Euler step: the variance before the
/// step, cut off at zero, drives both.
pub open spec fn euler_step_spec<T: Number, M: Elementary<T>>(
    m: M,
    setup: PathSetup<T>,
    ln_s: T,
    v: T,
    za: T,
    zb: T,
    jump_sum: T,
) -> (T, T) {
    let hp = setup.hp;
    let dt = setup.dt;
    let sqdt = setup.sqdt;
    let v_pos = larger(v, num::<T>(0));
    let z2 = hp.rho.mul_spec(za).add_spec(
        sqrt_of(m, num::<T>(1).sub_spec(hp.rho.mul_spec(hp.rho))).mul_spec(zb),
    );
    let root = sqrt_of(m, v_pos);
    (
        ln_s.add_spec(
            setup.drift.sub_spec(frac::<T>(1, 2).mul_spec(v_pos)).mul_spec(dt).add_spec(
                root.mul_spec(sqdt).mul_spec(za),
            ).add_spec(jump_sum),
        ),
        larger(
            v.add_spec(hp.kappa.mul_spec(hp.theta.sub_spec(v_pos)).mul_spec(dt)).add_spec(
                hp.sigma.mul_spec(root).mul_spec(sqdt).mul_spec(z2),
            ),
            num::<T>(0),
        ),
    )
}

/// The logarithm of the price and the variance after an Euler step: the variance before the
/// step, cut off at zero, drives both.
pub fn euler_step<T: Number, M: Elementary<T>>(
    m: M,
    setup: &PathSetup<T>,
    ln_s: T,
    v: T,
    za: T,
    zb: T,
    jump_sum: T,
) -> (res: (T, T))
    requires
        lawful::<T, M>(m),
    ensures
        res == euler_step_spec(m, *setup, ln_s, v, za, zb, jump_sum),
{
    let hp = setup.hp;
    let dt = setup.dt;
    let sqdt = setup.sqdt;
    let v_pos = fmax(v, whole::<T>(0));
    let z2 = hp.rho * za + m.sqrt(whole::<T>(1) - hp.rho * hp.rho) * zb;
    let root = m.sqrt(v_pos);
    (
        ln_s + ((setup.drift - ratio::<T>(1, 2) * v_pos) * dt + root * sqdt * za + jump_sum),
        fmax(v + hp.kappa * (hp.theta - v_pos) * dt + hp.sigma * root * sqdt * z2, whole::<T>(0)),
    )
}

/// The logarithm of the price and the variance after a quadratic-exponential step: the
/// variance first, and the price from the variance before and after and a normal of its
/// own.
pub open spec fn qe_step_spec<T: Number, M: Elementary<T>>(
    m: M,
    setup: PathSetup<T>,
    k: QeCoeffs<T>,
    ln_s: T,
    v: T,
    za: T,
    zb: T,
    jump_sum: T,
) -> (T, T) {
    let hp = setup.hp;
    let v_pos = larger(v, num::<T>(0));
    let v_new = qe_variance_step_spec(m, v_pos, hp.kappa, hp.theta, hp.sigma, setup.dt, za);
    let var_term = larger(k.k3.mul_spec(v_pos).add_spec(k.k4.mul_spec(v_new)), num::<T>(0));
    (
        ln_s.add_spec(
            setup.drift.mul_spec(setup.dt).add_spec(k.k0).add_spec(k.k1.mul_spec(v_pos)).add_spec(
                k.k2.mul_spec(v_new),
            ).add_spec(
                sqrt_of(m, var_term).mul_spec(zb),
            ).add_spec(jump_sum),
        ),
        v_new,
    )
}

/// The logarithm of the price and the variance after a quadratic-exponential step: the
/// variance first, and the price from the variance before and after and a normal of its
/// own.
pub fn qe_step<T: Number, M: Elementary<T>>(
    m: M,
    setup: &PathSetup<T>,
    k: &QeCoeffs<T>,
    ln_s: T,
    v: T,
    za: T,
    zb: T,
    jump_sum: T,
) -> (res: (T, T))
    requires
        lawful::<T, M>(m),
    ensures
        res == qe_step_spec(m, *setup, *k, ln_s, v, za, zb, jump_sum),
{
    let hp = setup.hp;
    let v_pos = fmax(v, whole::<T>(0));
    let v_new = qe_variance_step(m, v_pos, hp.kappa, hp.theta, hp.sigma, setup.dt, za);
    let var_term = fmax(k.k3 * v_pos + k.k4 * v_new, whole::<T>(0));
    (
        ln_s
            + (
                setup.drift * setup.dt + k.k0 + k.k1 * v_pos + k.k2 * v_new + m.sqrt(var_term) * zb
                    + jump_sum
            ),
        v_new,
    )
}

/// The path one step on. The antithetic sibling takes the negative of both normals and the
/// same jumps.
pub open spec fn path_step_spec<T: Number, M: Elementary<T>>(
    m: M,
    setup: PathSetup<T>,
    st: PathState<T>,
    d: StepDraw<T>,
    antithetic: bool,
) -> PathState<T> {
    let za = if antithetic {
        d.za.neg_spec()
    } else {
        d.za
    };
    let zb = if antithetic {
        d.zb.neg_spec()
    } else {
        d.zb
    };
    let (ln_s, v) = match setup.scheme {
        VarianceScheme::FullTruncationEuler => euler_step_spec(
            m,
            setup,
            st.ln_s,
            st.v,
            za,
            zb,
            d.jump_sum,
        ),
        VarianceScheme::QuadraticExponential => qe_step_spec(
            m,
            setup,
            qe_coeffs_spec(setup.hp, setup.dt),
            st.ln_s,
            st.v,
            za,
            zb,
            d.jump_sum,
        ),
    };
    let s = exp_of(m, ln_s);
    PathState {
        ln_s,
        v,
        running_sum: st.running_sum.add_spec(s),
        running_max: larger(st.running_max, s),
    }
}

/// The path one step on.
pub fn path_step<T: Number, M: Elementary<T>>(
    m: M,
    setup: &PathSetup<T>,
    k: &QeCoeffs<T>,
    st: PathState<T>,
    d: &StepDraw<T>,
    antithetic: bool,
) -> (res: PathState<T>)
    requires
        lawful::<T, M>(m),
        *k == qe_coeffs_spec(setup.hp, setup.dt),
    ensures
        res == path_step_spec(m, *setup, st, *d, antithetic),
{
    let za = if antithetic {
        d.za.neg()
    } else {
        d.za
    };
    let zb = if antithetic {
        d.zb.neg()
    } else {
        d.zb
    };
    let (ln_s, v) = match setup.scheme {
        VarianceScheme::FullTruncationEuler => euler_step(
            m,
            setup,
            st.ln_s,
            st.v,
            za,
            zb,
            d.jump_sum,
        ),
        VarianceScheme::QuadraticExponential => qe_step(
            m,
            setup,
            k,
            st.ln_s,
            st.v,
            za,
            zb,
            d.jump_sum,
        ),
    };
    let s = m.exp(ln_s);
    PathState {
        ln_s,
        v,
        running_sum: st.running_sum + s,
        running_max: fmax(st.running_max, s),
    }
}

/// The path after its first `n` steps.
pub open spec fn path_after<T: Number, M: Elementary<T>>(
    m: M,
    setup: PathSetup<T>,
    steps: Seq<StepDraw<T>>,
    antithetic: bool,
    n: int,
) -> PathState<T>
    decreases n,
{
    if n <= 0 {
        path_start_spec(m, setup)
    } else {
        path_step_spec(
            m,
            setup,
            path_after(m, setup, steps, antithetic, n - 1),
            steps[n - 1],
            antithetic,
        )
    }
}

/// The largest price of a path up to each of its steps.
pub open spec fn path_tops<T: Number, M: Elementary<T>>(
    m: M,
    setup: PathSetup<T>,
    steps: Seq<StepDraw<T>>,
    antithetic: bool,
) -> spec_fn(int) -> T {
    |n: int| path_after(m, setup, steps, antithetic, n).running_max
}

/// What a path through the given steps is worth today.
pub open spec fn run_path_spec<T: Number, M: Elementary<T>>(
    m: M,
    setup: PathSetup<T>,
    steps: Seq<StepDraw<T>>,
    antithetic: bool,
    payoff: Payoff<T>,
    rate: T,
    expiry: T,
) -> T {
    let n = steps.len() as int;
    let st = path_after(m, setup, steps, antithetic, n);
    present_value_spec(
        m,
        payoff,
        first_breach(payoff, path_tops(m, setup, steps, antithetic), n),
        exp_of(m, st.ln_s),
        st.running_sum,
        st.running_max,
        steps.len() as usize,
        setup.dt,
        rate,
        expiry,
    )
}

/// What a path through the given steps is worth today.
pub fn run_path<T: Number, M: Elementary<T>>(
    m: M,
    setup: &PathSetup<T>,
    steps: &Vec<StepDraw<T>>,
    antithetic: bool,
    payoff: &Payoff<T>,
    rate: T,
    expiry: T,
) -> (res: T)
    requires
        lawful::<T, M>(m),
    ensures
        res == run_path_spec(m, *setup, steps@, antithetic, *payoff, rate, expiry),
{
    let k = qe_coeffs(&setup.hp, setup.dt);
    let ghost tops = path_tops(m, *setup, steps@, antithetic);
    let mut st = path_start(m, setup);
    let mut breach: Option<usize> = if payoff.is_breached(st.running_max) {
        Some(0)
    } else {
        None
    };
    let mut i: usize = 0;
    proof {
        assert(first_breach(*payoff, tops, -1) is None);
    }
    while i < steps.len()
        invariant
            lawful::<T, M>(m),
            k == qe_coeffs_spec(setup.hp, setup.dt),
            i <= steps@.len(),
            st == path_after(m, *setup, steps@, antithetic, i as int),
            tops == path_tops(m, *setup, steps@, antithetic),
            breach_view(breach) == first_breach(*payoff, tops, i as int),
        decreases steps@.len() - i,
    {
        st = path_step(m, setup, &k, st, &steps[i], antithetic);
        i = i + 1;
        if breach.is_none() && payoff.is_breached(st.running_max) {
            breach = Some(i);
        }
    }
    present_value(
        m,
        payoff,
        breach,
        m.exp(st.ln_s),
        st.running_sum,
        st.running_max,
        steps.len(),
        setup.dt,
        rate,
        expiry,
    )
}

/// A number of payoffs, their sum and the sum of their squares.
#[derive(Debug, Clone, Copy)]
pub struct Tally<T> {
    pub sum: T,
    pub sum_sq: T,
    pub count: usize,
}

/// No payoffs.
pub open spec fn no_payoffs_spec<T: Number>() -> Tally<T> {
    Tally { sum: num::<T>(0), sum_sq: num::<T>(0), count: 0 }
}

/// The tally with one more payoff.
pub open spec fn add_payoff_spec<T: Number>(t: Tally<T>, x: T) -> Tally<T> {
    Tally {
        sum: t.sum.add_spec(x),
        sum_sq: t.sum_sq.add_spec(x.mul_spec(x)),
        count: (t.count + 1) as usize,
    }
}

/// The two tallies together.
pub open spec fn merge_spec<T: Number>(a: Tally<T>, b: Tally<T>) -> Tally<T> {
    Tally {
        sum: a.sum.add_spec(b.sum),
        sum_sq: a.sum_sq.add_spec(b.sum_sq),
        count: (a.count + b.count) as usize,
    }
}

/// The tally with one more payoff.
pub fn add_payoff<T: Number>(t: Tally<T>, x: T) -> (res: Tally<T>)
    requires
        regular::<T>(),
        t.count < usize::MAX,
    ensures
        res == add_payoff_spec(t, x),
{
    Tally { sum: t.sum + x, sum_sq: t.sum_sq + x * x, count: t.count + 1 }
}

/// The two tallies together.
pub fn merge<T: Number>(a: Tally<T>, b: Tally<T>) -> (res: Tally<T>)
    requires
        regular::<T>(),
        a.count + b.count <= usize::MAX,
    ensures
        res == merge_spec(a, b),
{
    Tally { sum: a.sum + b.sum, sum_sq: a.sum_sq + b.sum_sq, count: a.count + b.count }
}

/// The mean of the payoffs and its standard error: the root of the variance, not below
/// zero, over their number.
pub open spec fn summary_spec<T: Number, M: Elementary<T>>(m: M, t: Tally<T>) -> McResult<T> {
    let n = count_of::<T, M>(m, t.count);
    let mean = t.sum.div_spec(n);
    let var = larger(t.sum_sq.div_spec(n).sub_spec(mean.mul_spec(mean)), num::<T>(0));
    McResult { price: mean, std_error: sqrt_of(m, var.div_spec(n)) }
}

/// The mean of the payoffs and its standard error: the root of the variance, not below
/// zero, over their number.
pub fn summary<T: Number, M: Elementary<T>>(m: M, t: Tally<T>) -> (res: McResult<T>)
    requires
        lawful::<T, M>(m),
    ensures
        res == summary_spec(m, t),
{
    let n = m.count(t.count);
    let mean = t.sum / n;
    let var = fmax(t.sum_sq / n - mean * mean, whole::<T>(0));
    McResult { price: mean, std_error: m.sqrt(var / n) }
}

/// The number of pairs of paths in all chunks but the last.
pub open spec fn chunk_size(n_pairs: int, n_chunks: int) -> int {
    if n_pairs / n_chunks > 1 {
        n_pairs / n_chunks
    } else {
        1
    }
}

/// The pair with which chunk `i` begins; past the last chunk, the number of pairs.
pub open spec fn chunk_boundary(n_pairs: int, n_chunks: int, i: int) -> int {
    let start = i * chunk_size(n_pairs, n_chunks);
    if i >= n_chunks || start > n_pairs {
        n_pairs
    } else {
        start
    }
}

/// The chunks begin at the first pair, end at the last, and follow one another: each pair
/// lies in one chunk and no other.
pub proof fn law_chunks_partition(n_pairs: int, n_chunks: int, pair: int)
    requires
        0 <= pair < n_pairs,
        0 < n_chunks,
    ensures
        chunk_boundary(n_pairs, n_chunks, 0) == 0,
        chunk_boundary(n_pairs, n_chunks, n_chunks) == n_pairs,
        exists|i: int|
            0 <= i < n_chunks && #[trigger] chunk_boundary(n_pairs, n_chunks, i) <= pair
                < chunk_boundary(n_pairs, n_chunks, i + 1),
        forall|i: int, j: int|
            0 <= i < n_chunks && 0 <= j < n_chunks && #[trigger] chunk_boundary(
                n_pairs,
                n_chunks,
                i,
            ) <= pair < chunk_boundary(n_pairs, n_chunks, i + 1) && #[trigger] chunk_boundary(
                n_pairs,
                n_chunks,
                j,
            ) <= pair < chunk_boundary(n_pairs, n_chunks, j + 1) ==> i == j,
{
    let cs = chunk_size(n_pairs, n_chunks);
    assert(0 * cs == 0);
    let q = pair / cs;
    assert(q * cs <= pair < (q + 1) * cs) by (nonlinear_arith)
        requires
            cs > 0,
            q == pair / cs,
    ;
    assert(0 <= q) by (nonlinear_arith)
        requires
            cs > 0,
            pair >= 0,
            q == pair / cs,
    ;
    let i = if q < n_chunks {
        q
    } else {
        n_chunks - 1
    };
    assert(i * cs <= q * cs) by (nonlinear_arith)
        requires
            i <= q,
            cs > 0,
    ;
    assert(chunk_boundary(n_pairs, n_chunks, i) <= pair < chunk_boundary(n_pairs, n_chunks, i + 1));
    assert forall|i: int, j: int|
        0 <= i < n_chunks && 0 <= j < n_chunks && #[trigger] chunk_boundary(n_pairs, n_chunks, i)
            <= pair < chunk_boundary(n_pairs, n_chunks, i + 1) && #[trigger] chunk_boundary(
            n_pairs,
            n_chunks,
            j,
        ) <= pair < chunk_boundary(n_pairs, n_chunks, j + 1) implies i == j by {
        lemma_boundaries_grow(n_pairs, n_chunks, i + 1, j);
        lemma_boundaries_grow(n_pairs, n_chunks, j + 1, i);
    }
}

/// A later chunk does not begin earlier.
pub proof fn lemma_boundaries_grow(n_pairs: int, n_chunks: int, i: int, j: int)
    requires
        0 <= n_pairs,
        0 < n_chunks,
        0 <= i,
        0 <= j,
    ensures
        i <= j ==> chunk_boundary(n_pairs, n_chunks, i) <= chunk_boundary(n_pairs, n_chunks, j),
        0 <= chunk_boundary(n_pairs, n_chunks, i) <= n_pairs,
{
    let cs = chunk_size(n_pairs, n_chunks);
    assert(0 <= i * cs) by (nonlinear_arith)
        requires
            0 <= i,
            0 < cs,
    ;
    if i <= j {
        assert(i * cs <= j * cs) by (nonlinear_arith)
            requires
                i <= j,
                0 < cs,
        ;
    }
}

/// The pairs of chunk `i`: where they begin and where they end.
pub fn chunk_range(n_pairs: usize, n_chunks: usize, i: usize) -> (res: (usize, usize))
    requires
        i < n_chunks,
    ensures
        res.0 == chunk_boundary(n_pairs as int, n_chunks as int, i as int),
        res.1 == chunk_boundary(n_pairs as int, n_chunks as int, i + 1),
        res.0 <= res.1 <= n_pairs,
{
    let whole_size: usize = n_pairs / n_chunks;
    let size: usize = if whole_size > 1 {
        whole_size
    } else {
        1
    };
    proof {
        lemma_boundaries_grow(n_pairs as int, n_chunks as int, i as int, i + 1);
        lemma_boundaries_grow(n_pairs as int, n_chunks as int, i + 1, i + 1);
        lemma_chunk_product(n_pairs as int, n_chunks as int, i as int);
    }
    let start: usize = i * size;
    if start >= n_pairs {
        proof {
            assert((i + 1) * size >= i * size) by (nonlinear_arith)
                requires
                    size >= 0,
            ;
        }
        return (n_pairs, n_pairs);
    }
    if i == n_chunks - 1 {
        return (start, n_pairs);
    }
    proof {
        assert((i + 1) * size == i * size + size) by (nonlinear_arith);
    }
    if size >= n_pairs - start {
        (start, n_pairs)
    } else {
        (start, start + size)
    }
}

/// The start of a chunk does not overflow.
proof fn lemma_chunk_product(n_pairs: int, n_chunks: int, i: int)
    requires
        0 <= n_pairs,
        0 <= i < n_chunks,
    ensures
        i * chunk_size(n_pairs, n_chunks) <= n_pairs || i * chunk_size(n_pairs, n_chunks) == i,
{
    let c = n_pairs / n_chunks;
    assert(c * n_chunks <= n_pairs) by (nonlinear_arith)
        requires
            0 < n_chunks,
            c == n_pairs / n_chunks,
    ;
    assert(i * c <= c * n_chunks) by (nonlinear_arith)
        requires
            0 <= i <= n_chunks,
            0 <= c,
    ;
}

/// The tally with the payoffs of one set of draws: that of the path, and where paths come
/// in antithetic pairs that of its sibling.
pub open spec fn add_pair_spec<T: Number, M: Elementary<T>>(
    m: M,
    t: Tally<T>,
    setup: PathSetup<T>,
    steps: Seq<StepDraw<T>>,
    antithetic: bool,
    payoff: Payoff<T>,
    rate: T,
    expiry: T,
) -> Tally<T> {
    let t1 = add_payoff_spec(t, run_path_spec(m, setup, steps, false, payoff, rate, expiry));
    if antithetic {
        add_payoff_spec(t1, run_path_spec(m, setup, steps, true, payoff, rate, expiry))
    } else {
        t1
    }
}

/// The tally with the payoffs of one set of draws.
pub fn add_pair<T: Number, M: Elementary<T>>(
    m: M,
    t: Tally<T>,
    setup: &PathSetup<T>,
    steps: &Vec<StepDraw<T>>,
    antithetic: bool,
    payoff: &Payoff<T>,
    rate: T,
    expiry: T,
) -> (res: Tally<T>)
    requires
        lawful::<T, M>(m),
        t.count + 2 <= usize::MAX || !antithetic && t.count + 1 <= usize::MAX,
    ensures
        res == add_pair_spec(m, t, *setup, steps@, antithetic, *payoff, rate, expiry),
{
    let t1 = add_payoff(t, run_path(m, setup, steps, false, payoff, rate, expiry));
    if antithetic {
        add_payoff(t1, run_path(m, setup, steps, true, payoff, rate, expiry))
    } else {
        t1
    }
}

/// The number of paths that one set of draws gives.
pub open spec fn paths_per_pair(antithetic: bool) -> int {
    if antithetic {
        2
    } else {
        1
    }
}

/// The draws for a path of `n` steps, and the rest of the stream.
pub open spec fn draw_path_spec<T: Number, M: Elementary<T>, S: RandomSource<T>>(
    m: M,
    src: S,
    jumps: Option<JumpParams<T>>,
    dt: T,
    n: int,
) -> (Seq<StepDraw<T>>, S)
    decreases n,
{
    if n <= 0 {
        (Seq::empty(), src)
    } else {
        let (steps, s1) = draw_path_spec(m, src, jumps, dt, n - 1);
        let (d, s2) = draw_step_spec(m, s1, jumps, dt);
        (steps.push(d), s2)
    }
}

/// The draws for a path, and the rest of the stream.
pub fn draw_path<T: Number, M: Elementary<T>, S: RandomSource<T>>(
    m: M,
    src: S,
    jumps: Option<JumpParams<T>>,
    dt: T,
    n_steps: usize,
) -> (res: (Vec<StepDraw<T>>, S))
    requires
        lawful::<T, M>(m),
        steady::<T, S>(),
    ensures
        (res.0@, res.1) == draw_path_spec(m, src, jumps, dt, n_steps as int),
{
    let mut rest = src;
    let mut steps: Vec<StepDraw<T>> = Vec::new();
    while steps.len() < n_steps
        invariant
            lawful::<T, M>(m),
            steady::<T, S>(),
            steps@.len() <= n_steps,
            (steps@, rest) == draw_path_spec(m, src, jumps, dt, steps@.len() as int),
        decreases n_steps - steps@.len(),
    {
        let (d, left) = draw_step(m, rest, jumps, dt);
        rest = left;
        steps.push(d);
    }
    (steps, rest)
}

/// The tally of `n` sets of draws from one stream, and the rest of the stream.
pub open spec fn mc_chunk_spec<T: Number, M: Elementary<T>, S: RandomSource<T>>(
    m: M,
    src: S,
    setup: PathSetup<T>,
    jumps: Option<JumpParams<T>>,
    payoff: Payoff<T>,
    rate: T,
    expiry: T,
    n: int,
    n_steps: int,
    antithetic: bool,
) -> (Tally<T>, S)
    decreases n,
{
    if n <= 0 {
        (no_payoffs_spec(), src)
    } else {
        let (t, s1) = mc_chunk_spec(
            m,
            src,
            setup,
            jumps,
            payoff,
            rate,
            expiry,
            n - 1,
            n_steps,
            antithetic,
        );
        let (steps, s2) = draw_path_spec(m, s1, jumps, setup.dt, n_steps);
        (add_pair_spec(m, t, setup, steps, antithetic, payoff, rate, expiry), s2)
    }
}

/// The tally of `n` sets of draws from one stream, and the rest of the stream.
pub fn mc_chunk<T: Number, M: Elementary<T>, S: RandomSource<T>>(
    m: M,
    src: S,
    setup: &PathSetup<T>,
    jumps: Option<JumpParams<T>>,
    payoff: &Payoff<T>,
    rate: T,
    expiry: T,
    n: usize,
    n_steps: usize,
    antithetic: bool,
) -> (res: (Tally<T>, S))
    requires
        lawful::<T, M>(m),
        steady::<T, S>(),
        n * paths_per_pair(antithetic) <= usize::MAX,
    ensures
        res.0.count == n * paths_per_pair(antithetic),
        res == mc_chunk_spec(
            m,
            src,
            *setup,
            jumps,
            *payoff,
            rate,
            expiry,
            n as int,
            n_steps as int,
            antithetic,
        ),
{
    let mut t = Tally { sum: whole::<T>(0), sum_sq: whole::<T>(0), count: 0 };
    let mut i: usize = 0;
    let mut rest = src;
    while i < n
        invariant
            lawful::<T, M>(m),
            steady::<T, S>(),
            n * paths_per_pair(antithetic) <= usize::MAX,
            i <= n,
            t.count == i * paths_per_pair(antithetic),
            (t, rest) == mc_chunk_spec(
                m,
                src,
                *setup,
                jumps,
                *payoff,
                rate,
                expiry,
                i as int,
                n_steps as int,
                antithetic,
            ),
        decreases n - i,
    {
        proof {
            assert(i * paths_per_pair(antithetic) + paths_per_pair(antithetic) == (i + 1)
                * paths_per_pair(antithetic)) by (nonlinear_arith);
            assert((i + 1) * paths_per_pair(antithetic) <= n * paths_per_pair(antithetic))
                by (nonlinear_arith)
                requires
                    i + 1 <= n,
                    0 <= paths_per_pair(antithetic),
            ;
        }
        let (steps, left) = draw_path(m, rest, jumps, setup.dt, n_steps);
        rest = left;
        t = add_pair(m, t, setup, &steps, antithetic, payoff, rate, expiry);
        i = i + 1;
    }
    (t, rest)
}

/// The tallies of the first `n` chunks together. Each chunk has a stream of its own, made
/// from its seed.
pub open spec fn mc_total<T: Number, M: Elementary<T>, S: RandomSource<T>, F: Fn(u64) -> S>(
    m: M,
    make: F,
    setup: PathSetup<T>,
    jumps: Option<JumpParams<T>>,
    payoff: Payoff<T>,
    rate: T,
    expiry: T,
    cfg: McConfig,
    n_chunks: int,
    n: int,
) -> Tally<T>
    decreases n,
{
    if n <= 0 {
        no_payoffs_spec()
    } else {
        let n_pairs = cfg.n_paths as int / paths_per_pair(cfg.antithetic);
        merge_spec(
            mc_total(m, make, setup, jumps, payoff, rate, expiry, cfg, n_chunks, n - 1),
            mc_chunk_spec(
                m,
                made_by(make, chunk_seed_spec(cfg.seed, (n - 1) as u64)),
                setup,
                jumps,
                payoff,
                rate,
                expiry,
                chunk_boundary(n_pairs, n_chunks, n) - chunk_boundary(n_pairs, n_chunks, n - 1),
                cfg.n_steps as int,
                cfg.antithetic,
            ).0,
        )
    }
}

/// What drives the paths of a simulation: steps of equal length, and the drift of the
/// logarithm of the price, less what the jumps add on average.
pub open spec fn path_setup_spec<T: Number, M: Elementary<T>>(
    m: M,
    spot: T,
    expiry: T,
    rate: T,
    div_yield: T,
    hp: HestonParams<T>,
    jumps: Option<JumpParams<T>>,
    n_steps: usize,
    scheme: VarianceScheme,
) -> PathSetup<T> {
    let dt = expiry.div_spec(count_of(m, n_steps));
    let extra = match jumps {
        None => num::<T>(0),
        Some(j) => j.lambda.mul_spec(
            exp_of(
                m,
                j.mu_j.add_spec(frac::<T>(1, 2).mul_spec(j.sigma_j).mul_spec(j.sigma_j)),
            ).sub_spec(num::<T>(1)),
        ),
    };
    PathSetup {
        spot,
        drift: rate.sub_spec(div_yield).sub_spec(extra),
        hp,
        dt,
        sqdt: sqrt_of(m, dt),
        scheme,
    }
}

/// What drives the paths of a simulation.
pub fn path_setup<T: Number, M: Elementary<T>>(
    m: M,
    spot: T,
    expiry: T,
    rate: T,
    div_yield: T,
    hp: &HestonParams<T>,
    jumps: Option<JumpParams<T>>,
    n_steps: usize,
    scheme: VarianceScheme,
) -> (res: PathSetup<T>)
    requires
        lawful::<T, M>(m),
    ensures
        res == path_setup_spec(m, spot, expiry, rate, div_yield, *hp, jumps, n_steps, scheme),
{
    let dt = expiry / m.count(n_steps);
    let extra = match jumps {
        None => whole::<T>(0),
        Some(j) => j.lambda
            * (m.exp(j.mu_j + ratio::<T>(1, 2) * j.sigma_j * j.sigma_j) - whole::<T>(1)),
    };
    PathSetup {
        spot,
        drift: rate - div_yield - extra,
        hp: *hp,
        dt,
        sqdt: m.sqrt(dt),
        scheme,
    }
}

/// The simulation of a payoff in Heston's model, with jumps or without, in the given number
/// of chunks: the mean and the standard error of the payoffs of all of them.
pub open spec fn mc_price_spec<T: Number, M: Elementary<T>, S: RandomSource<T>, F: Fn(u64) -> S>(
    m: M,
    make: F,
    spot: T,
    expiry: T,
    rate: T,
    div_yield: T,
    hp: HestonParams<T>,
    jumps: Option<JumpParams<T>>,
    payoff: Payoff<T>,
    cfg: McConfig,
    n_chunks: int,
) -> McResult<T> {
    let setup = path_setup_spec(
        m,
        spot,
        expiry,
        rate,
        div_yield,
        hp,
        jumps,
        cfg.n_steps,
        cfg.scheme,
    );
    summary_spec(
        m,
        mc_total(m, make, setup, jumps, payoff, rate, expiry, cfg, n_chunks, n_chunks),
    )
}

/// The simulation of a payoff in Heston's model, with jumps or without, in the given number
/// of chunks. The streams are made by `make`, which is called on the seeds of the chunks
/// and on nothing else.
pub fn mc_price<T: Number, M: Elementary<T>, S: RandomSource<T>, F: Fn(u64) -> S>(
    m: M,
    make: F,
    spot: T,
    expiry: T,
    rate: T,
    div_yield: T,
    hp: &HestonParams<T>,
    jumps: Option<JumpParams<T>>,
    payoff: &Payoff<T>,
    cfg: &McConfig,
    n_chunks: usize,
) -> (res: McResult<T>)
    requires
        lawful::<T, M>(m),
        steady::<T, S>(),
        steady_maker(make),
        n_chunks > 0,
        forall|i: u64| i < n_chunks
            ==> call_requires(make, (#[trigger] chunk_seed_spec(cfg.seed, i),)),
    ensures
        res == mc_price_spec(
            m,
            make,
            spot,
            expiry,
            rate,
            div_yield,
            *hp,
            jumps,
            *payoff,
            *cfg,
            n_chunks as int,
        ),
{
    let setup = path_setup(
        m,
        spot,
        expiry,
        rate,
        div_yield,
        hp,
        jumps,
        cfg.n_steps,
        cfg.scheme,
    );
    let per_pair: usize = if cfg.antithetic {
        2
    } else {
        1
    };
    let n_pairs: usize = cfg.n_paths / per_pair;
    proof {
        assert(n_pairs * per_pair <= cfg.n_paths) by (nonlinear_arith)
            requires
                n_pairs == cfg.n_paths / per_pair,
                per_pair > 0,
        ;
    }
    let mut total = Tally { sum: whole::<T>(0), sum_sq: whole::<T>(0), count: 0 };
    let mut i: usize = 0;
    proof {
        assert(chunk_boundary(n_pairs as int, n_chunks as int, 0) == 0) by {
            assert(0 * chunk_size(n_pairs as int, n_chunks as int) == 0);
        }
    }
    while i < n_chunks
        invariant
            lawful::<T, M>(m),
            steady::<T, S>(),
            steady_maker(make),
            forall|i: u64|
                i < n_chunks ==> call_requires(make, (#[trigger] chunk_seed_spec(cfg.seed, i),)),
            per_pair == paths_per_pair(cfg.antithetic),
            n_pairs == cfg.n_paths as int / paths_per_pair(cfg.antithetic),
            n_pairs * per_pair <= usize::MAX,
            i <= n_chunks,
            total.count == chunk_boundary(n_pairs as int, n_chunks as int, i as int) * per_pair,
            total == mc_total(
                m,
                make,
                setup,
                jumps,
                *payoff,
                rate,
                expiry,
                *cfg,
                n_chunks as int,
                i as int,
            ),
        decreases n_chunks - i,
    {
        let (start, end) = chunk_range(n_pairs, n_chunks, i);
        let src = make(chunk_seed(cfg.seed, i as u64));
        proof {
            lemma_chunk_fits(*cfg, n_chunks as int, i + 1);
        }
        let (t, _) = mc_chunk(
            m,
            src,
            &setup,
            jumps,
            payoff,
            rate,
            expiry,
            end - start,
            cfg.n_steps,
            cfg.antithetic,
        );
        total = merge(total, t);
        i = i + 1;
    }
    summary(m, total)
}

/// Every path is counted: the tally of all chunks has as many payoffs as the configuration
/// asks for, less one where paths come in pairs and the number is odd.
pub proof fn law_every_path_counts<
    T: Number,
    M: Elementary<T>,
    S: RandomSource<T>,
    F: Fn(u64) -> S,
>(
    m: M,
    make: F,
    setup: PathSetup<T>,
    jumps: Option<JumpParams<T>>,
    payoff: Payoff<T>,
    rate: T,
    expiry: T,
    cfg: McConfig,
    n_chunks: usize,
)
    requires
        n_chunks > 0,
    ensures
        mc_total(
            m,
            make,
            setup,
            jumps,
            payoff,
            rate,
            expiry,
            cfg,
            n_chunks as int,
            n_chunks as int,
        ).count == cfg.n_paths - (if cfg.antithetic {
            cfg.n_paths as int % 2
        } else {
            0
        }),
{
    let per_pair = paths_per_pair(cfg.antithetic);
    let n_pairs = cfg.n_paths as int / per_pair;
    lemma_total_count(
        m,
        make,
        setup,
        jumps,
        payoff,
        rate,
        expiry,
        cfg,
        n_chunks as int,
        n_chunks as int,
    );
    assert(chunk_boundary(n_pairs, n_chunks as int, n_chunks as int) == n_pairs);
}

/// The tally of a chunk has as many payoffs as paths were drawn.
proof fn lemma_chunk_count<T: Number, M: Elementary<T>, S: RandomSource<T>>(
    m: M,
    src: S,
    setup: PathSetup<T>,
    jumps: Option<JumpParams<T>>,
    payoff: Payoff<T>,
    rate: T,
    expiry: T,
    n: int,
    n_steps: int,
    antithetic: bool,
)
    requires
        0 <= n,
        n * paths_per_pair(antithetic) <= usize::MAX,
    ensures
        mc_chunk_spec(
            m,
            src,
            setup,
            jumps,
            payoff,
            rate,
            expiry,
            n,
            n_steps,
            antithetic,
        ).0.count == n * paths_per_pair(antithetic),
    decreases n,
{
    if n > 0 {
        let per_pair = paths_per_pair(antithetic);
        assert((n - 1) * per_pair + per_pair == n * per_pair) by (nonlinear_arith);
        lemma_chunk_count(
            m,
            src,
            setup,
            jumps,
            payoff,
            rate,
            expiry,
            n - 1,
            n_steps,
            antithetic,
        );
    }
}

/// The paths of the first `n` chunks are those of the first `n - 1` and those of the last of
/// them, and are no more than the configuration asks for.
pub proof fn lemma_chunk_fits(cfg: McConfig, n_chunks: int, n: int)
    requires
        1 <= n <= n_chunks,
    ensures
        ({
            let per_pair = paths_per_pair(cfg.antithetic);
            let n_pairs = cfg.n_paths as int / per_pair;
            let start = chunk_boundary(n_pairs, n_chunks, n - 1);
            let end = chunk_boundary(n_pairs, n_chunks, n);
            &&& start <= end
            &&& 0 <= start * per_pair
            &&& start * per_pair + (end - start) * per_pair == end * per_pair
            &&& end * per_pair <= cfg.n_paths
        }),
{
    let per_pair = paths_per_pair(cfg.antithetic);
    let n_pairs = cfg.n_paths as int / per_pair;
    let start = chunk_boundary(n_pairs, n_chunks, n - 1);
    let end = chunk_boundary(n_pairs, n_chunks, n);
    assert(n_pairs * per_pair <= cfg.n_paths) by (nonlinear_arith)
        requires
            n_pairs == cfg.n_paths as int / per_pair,
            per_pair > 0,
    ;
    let cs = chunk_size(n_pairs, n_chunks);
    assert(0 <= (n - 1) * cs <= n * cs) by (nonlinear_arith)
        requires
            n >= 1,
            cs >= 0,
    ;
    assert((end - start) * per_pair + start * per_pair == end * per_pair) by (nonlinear_arith);
    assert(end * per_pair <= n_pairs * per_pair) by (nonlinear_arith)
        requires
            end <= n_pairs,
            per_pair >= 0,
    ;
    assert(0 <= start * per_pair) by (nonlinear_arith)
        requires
            start >= 0,
            per_pair >= 0,
    ;
}

/// The tally of the first chunks has as many payoffs as they have paths.
proof fn lemma_total_count<T: Number, M: Elementary<T>, S: RandomSource<T>, F: Fn(u64) -> S>(
    m: M,
    make: F,
    setup: PathSetup<T>,
    jumps: Option<JumpParams<T>>,
    payoff: Payoff<T>,
    rate: T,
    expiry: T,
    cfg: McConfig,
    n_chunks: int,
    n: int,
)
    requires
        0 <= n <= n_chunks,
        0 < n_chunks,
    ensures
        mc_total(m, make, setup, jumps, payoff, rate, expiry, cfg, n_chunks, n).count
            == chunk_boundary(
            cfg.n_paths as int / paths_per_pair(cfg.antithetic),
            n_chunks,
            n,
        ) * paths_per_pair(cfg.antithetic),
    decreases n,
{
    let per_pair = paths_per_pair(cfg.antithetic);
    let n_pairs = cfg.n_paths as int / per_pair;
    if n > 0 {
        lemma_total_count(m, make, setup, jumps, payoff, rate, expiry, cfg, n_chunks, n - 1);
        lemma_chunk_fits(cfg, n_chunks, n);
        lemma_chunk_count(
            m,
            made_by(make, chunk_seed_spec(cfg.seed, (n - 1) as u64)),
            setup,
            jumps,
            payoff,
            rate,
            expiry,
            chunk_boundary(n_pairs, n_chunks, n) - chunk_boundary(n_pairs, n_chunks, n - 1),
            cfg.n_steps as int,
            cfg.antithetic,
        );
    } else {
        assert(0 * chunk_size(n_pairs, n_chunks) == 0);
    }
}

/// The simulation of a payoff in Heston's model.
pub fn mc_heston<T: Number, M: Elementary<T>, S: RandomSource<T>, F: Fn(u64) -> S>(
    m: M,
    make: F,
    spot: T,
    expiry: T,
    rate: T,
    div_yield: T,
    params: &HestonParams<T>,
    payoff: Payoff<T>,
    cfg: &McConfig,
    n_chunks: usize,
) -> (res: McResult<T>)
    requires
        lawful::<T, M>(m),
        steady::<T, S>(),
        steady_maker(make),
        n_chunks > 0,
        forall|i: u64| i < n_chunks
            ==> call_requires(make, (#[trigger] chunk_seed_spec(cfg.seed, i),)),
    ensures
        res == mc_price_spec(
            m,
            make,
            spot,
            expiry,
            rate,
            div_yield,
            *params,
            None,
            payoff,
            *cfg,
            n_chunks as int,
        ),
{
    mc_price(m, make, spot, expiry, rate, div_yield, params, None, &payoff, cfg, n_chunks)
}

/// The simulation of a payoff in Bates's model.
pub fn mc_bates<T: Number, M: Elementary<T>, S: RandomSource<T>, F: Fn(u64) -> S>(
    m: M,
    make: F,
    spot: T,
    expiry: T,
    rate: T,
    div_yield: T,
    params: &HestonParams<T>,
    lambda: T,
    mu_j: T,
    sigma_j: T,
    payoff: Payoff<T>,
    cfg: &McConfig,
    n_chunks: usize,
) -> (res: McResult<T>)
    requires
        lawful::<T, M>(m),
        steady::<T, S>(),
        steady_maker(make),
        n_chunks > 0,
        forall|i: u64| i < n_chunks
            ==> call_requires(make, (#[trigger] chunk_seed_spec(cfg.seed, i),)),
    ensures
        res == mc_price_spec(
            m,
            make,
            spot,
            expiry,
            rate,
            div_yield,
            *params,
            Some(JumpParams { lambda, mu_j, sigma_j }),
            payoff,
            *cfg,
            n_chunks as int,
        ),
{
    let jumps = Some(JumpParams { lambda, mu_j, sigma_j });
    mc_price(m, make, spot, expiry, rate, div_yield, params, jumps, &payoff, cfg, n_chunks)
}

/// A path of a model whose variances and price shocks are given, after its first `n` steps: the
/// logarithm of the price, the sum of the prices, and the largest of them.
pub open spec fn rough_path_after<T: Number, M: Elementary<T>>(
    m: M,
    spot: T,
    drift0: T,
    v: Seq<T>,
    dz: Seq<T>,
    dt: T,
    n: int,
) -> (T, T, T)
    decreases n,
{
    if n <= 0 {
        (ln_of(m, spot), num::<T>(0), spot)
    } else {
        let (ln_s, total, top) = rough_path_after(m, spot, drift0, v, dz, dt, n - 1);
        let vi = larger(v[n - 1], num::<T>(0));
        let shock = dz[n - 1];
        let next = ln_s.add_spec(
            drift0.sub_spec(frac::<T>(1, 2).mul_spec(vi)).mul_spec(dt).add_spec(
                sqrt_of(m, vi).mul_spec(shock),
            ),
        );
        let s = exp_of(m, next);
        (next, total.add_spec(s), larger(top, s))
    }
}

/// The largest price of such a path up to each of its steps.
pub open spec fn rough_tops<T: Number, M: Elementary<T>>(
    m: M,
    spot: T,
    drift0: T,
    v: Seq<T>,
    dz: Seq<T>,
    dt: T,
) -> spec_fn(int) -> T {
    |n: int| rough_path_after(m, spot, drift0, v, dz, dt, n).2
}

/// What a path with the given variances and price shocks is worth today.
pub open spec fn run_rbergomi_path_spec<T: Number, M: Elementary<T>>(
    m: M,
    spot: T,
    drift0: T,
    v: Seq<T>,
    dz: Seq<T>,
    dt: T,
    payoff: Payoff<T>,
    rate: T,
    expiry: T,
) -> T {
    let n = v.len() as int;
    let (ln_s, total, top) = rough_path_after(m, spot, drift0, v, dz, dt, n);
    present_value_spec(
        m,
        payoff,
        first_breach(payoff, rough_tops(m, spot, drift0, v, dz, dt), n),
        exp_of(m, ln_s),
        total,
        top,
        v.len() as usize,
        dt,
        rate,
        expiry,
    )
}

/// What a path with the given variances and price shocks is worth today.
pub fn run_rbergomi_path<T: Number, M: Elementary<T>>(
    m: M,
    spot: T,
    drift0: T,
    v: &Vec<T>,
    dz: &Vec<T>,
    dt: T,
    payoff: &Payoff<T>,
    rate: T,
    expiry: T,
) -> (res: T)
    requires
        lawful::<T, M>(m),
        v@.len() <= dz@.len(),
    ensures
        res == run_rbergomi_path_spec(m, spot, drift0, v@, dz@, dt, *payoff, rate, expiry),
{
    let ghost tops = rough_tops(m, spot, drift0, v@, dz@, dt);
    let mut ln_s = m.ln(spot);
    let mut total = whole::<T>(0);
    let mut top = spot;
    let mut breach: Option<usize> = if payoff.is_breached(top) {
        Some(0)
    } else {
        None
    };
    let mut i: usize = 0;
    proof {
        assert(first_breach(*payoff, tops, -1) is None);
    }
    while i < v.len()
        invariant
            lawful::<T, M>(m),
            v@.len() <= dz@.len(),
            i <= v@.len(),
            (ln_s, total, top) == rough_path_after(m, spot, drift0, v@, dz@, dt, i as int),
            tops == rough_tops(m, spot, drift0, v@, dz@, dt),
            breach_view(breach) == first_breach(*payoff, tops, i as int),
        decreases v@.len() - i,
    {
        let vi = fmax(v[i], whole::<T>(0));
        let shock = dz[i];
        ln_s = ln_s + ((drift0 - ratio::<T>(1, 2) * vi) * dt + m.sqrt(vi) * shock);
        let s = m.exp(ln_s);
        total = total + s;
        top = fmax(top, s);
        i = i + 1;
        if breach.is_none() && payoff.is_breached(top) {
            breach = Some(i);
        }
    }
    present_value(
        m,
        payoff,
        breach,
        m.exp(ln_s),
        total,
        top,
        v.len(),
        dt,
        rate,
        expiry,
    )
}

} // verus!
