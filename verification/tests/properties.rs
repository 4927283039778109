//! What holds of the library on values that can be checked by hand.
use options_pricing_engine::ad::{csqrt, forward_pass, forward_pass5, JumpSpec};
use options_pricing_engine::bates::{bates_price, bates_price_and_greeks};
use options_pricing_engine::bsm::{black76_price_and_greeks, bsm_price, bsm_price_and_greeks};
use options_pricing_engine::calibration::{
    calibrate_bates, calibrate_bates_multistart, calibrate_bates_regularized, calibrate_heston,
    calibrate_heston_multistart, weights_of, CalibModel,
};
use options_pricing_engine::characteristic::{fast_csqrt, JumpParams};
use options_pricing_engine::complex::Complex;
use options_pricing_engine::deribit_inverse::{
    greeks, mc_result_to_coin, price_coin, InverseGreeks,
};
use options_pricing_engine::dual::{Dual, Dual5};
use options_pricing_engine::evolution::{
    calibrate_heston_global, first_population, make_challenger, member_seed, successor,
};
use options_pricing_engine::greeks::{time_step, vol_bump_levels, vol_step};
use options_pricing_engine::heston::{heston_price, heston_price_and_greeks};
use options_pricing_engine::iv::implied_vol;
use options_pricing_engine::linalg::{jacobi_eigen, lm_step, weighted_sse};
use options_pricing_engine::local_vol::{
    dupire_local_vol, monotone_cubic_interp, slope, spline_curvature, spline_slope,
};
use options_pricing_engine::math::{ncdf, npdf};
use options_pricing_engine::mc::{
    chunk_range, intrinsic, mc_chunk, mc_heston, mc_price, merge, path_setup, present_value,
    qe_exponential, qe_moments, qe_psi, qe_quadratic, run_rbergomi_path, summary, McConfig, McResult, Payoff, Tally, VarianceScheme,
};
use options_pricing_engine::model::{heston_bounds_ok, residuals, CalibInput, RandomStart};
use options_pricing_engine::number::{abs, Elementary};
use options_pricing_engine::random::{chunk_seed, splitmix64, RandomSource};
use options_pricing_engine::rbergomi::cholesky_lower;
use options_pricing_engine::repair::{check_and_repair_surface, ViolationKind};
use options_pricing_engine::rough::mc_rough_bergomi;
use options_pricing_engine::types::{
    BatesParams, ForwardVarianceCurve, HestonParams, IvProblem, LocalVolSurface, OptionContract,
    OptionType, PricingResult, RoughBergomiParams,
};
use rand::rngs::SmallRng;
use rand::{Rng, SeedableRng};

/// The powers of ten.
const POWERS: [f64; 17] = [
    1e0, 1e1, 1e2, 1e3, 1e4, 1e5, 1e6, 1e7, 1e8, 1e9, 1e10, 1e11, 1e12, 1e13, 1e14, 1e15, 1e16,
];

/// The elementary functions of double precision.
#[derive(Clone, Copy)]
struct F64;

impl Elementary<f64> for F64 {
    fn exp(&self, x: f64) -> f64 {
        x.exp()
    }
    fn ln(&self, x: f64) -> f64 {
        x.ln()
    }
    fn sqrt(&self, x: f64) -> f64 {
        x.sqrt()
    }
    fn sin(&self, x: f64) -> f64 {
        x.sin()
    }
    fn cos(&self, x: f64) -> f64 {
        x.cos()
    }
    fn atan2(&self, y: f64, x: f64) -> f64 {
        y.atan2(x)
    }
    fn hypot(&self, x: f64, y: f64) -> f64 {
        x.hypot(y)
    }
    fn powf(&self, x: f64, y: f64) -> f64 {
        x.powf(y)
    }
    fn erfc(&self, x: f64) -> f64 {
        libm::erfc(x)
    }
    fn is_finite(&self, x: f64) -> bool {
        x.is_finite()
    }
    fn is_sign_positive(&self, x: f64) -> bool {
        x.is_sign_positive()
    }
    fn infinity(&self) -> f64 {
        f64::INFINITY
    }
    fn rank(&self, x: f64) -> i64 {
        let bits = x.to_bits() as i64;
        bits ^ (((bits >> 63) as u64) >> 1) as i64
    }
    fn decimal(&self, mantissa: i64, exponent: i32) -> f64 {
        if mantissa.unsigned_abs() < 1 << 53 && -16 <= exponent && exponent <= 0 {
            mantissa as f64 / POWERS[exponent.unsigned_abs() as usize]
        } else if mantissa == 1 && exponent == -300 {
            1e-300
        } else {
            format!("{mantissa}e{exponent}").parse().unwrap()
        }
    }
    fn count(&self, n: usize) -> f64 {
        n as f64
    }
}

/// A stream of draws from a seeded generator.
struct Stream(SmallRng);

impl RandomSource<f64> for Stream {
    fn unit(mut self) -> (f64, Self) {
        (self.0.gen(), self)
    }
    fn positive_unit(mut self) -> (f64, Self) {
        (self.0.gen_range(1e-12..1.0), self)
    }
    fn within(mut self, lo: f64, hi: f64) -> (f64, Self) {
        (self.0.gen_range(lo..hi), self)
    }
    fn index(mut self, n: usize) -> (usize, Self) {
        (self.0.gen_range(0..n), self)
    }
}

fn stream(seed: u64) -> Stream {
    Stream(SmallRng::seed_from_u64(seed))
}

const CALL: OptionType = OptionType::Call;
const PUT: OptionType = OptionType::Put;

fn close(a: f64, b: f64, tol: f64) {
    assert!((a - b).abs() <= tol, "{a} is not within {tol} of {b}");
}

fn contract(strike: f64, opt_type: OptionType) -> OptionContract<f64> {
    OptionContract {
        spot: 100.0,
        strike,
        expiry: 0.75,
        rate: 0.04,
        div_yield: 0.015,
        vol: 0.3,
        opt_type,
    }
}

fn params() -> HestonParams<f64> {
    HestonParams { v0: 0.04, kappa: 2.0, theta: 0.05, sigma: 0.3, rho: -0.6 }
}

#[test]
fn parity_of_prices_and_sensitivities() {
    let c = bsm_price_and_greeks(F64, &contract(95.0, CALL));
    let p = bsm_price_and_greeks(F64, &contract(95.0, PUT));
    let eq = (-0.015f64 * 0.75).exp();
    let er = (-0.04f64 * 0.75).exp();
    let (stock, cash) = (100.0 * eq, 95.0 * er);
    close(c.price - p.price, stock - cash, 1e-11);
    close(c.delta - p.delta, eq, 1e-13);
    close(c.theta - p.theta, 0.015 * stock - 0.04 * cash, 1e-11);
    close(c.rho - p.rho, 0.75 * cash, 1e-10);
    assert_eq!(c.gamma, p.gamma);
    assert_eq!(c.vega, p.vega);
    assert_eq!(c.vanna, p.vanna);
    assert_eq!(c.volga, p.volga);
    assert_eq!(c.price, bsm_price(F64, &contract(95.0, CALL)));
}

#[test]
fn distribution_reflects() {
    for x in [0.0, 0.3, 1.7, 4.0] {
        close(ncdf(F64, x) + ncdf(F64, -x), 1.0, 1e-15);
    }
    close(npdf(F64, 0.0), 0.3989422804014327, 1e-16);
}

#[test]
fn forward_formula_is_the_spot_formula() {
    let c = contract(105.0, PUT);
    let fwd = 100.0 * ((0.04 - 0.015) * 0.75f64).exp();
    let b = black76_price_and_greeks(F64, fwd, 105.0, 0.75, 0.04, 0.3, PUT);
    let s = bsm_price_and_greeks(F64, &c);
    close(b.price, s.price, 1e-11);
    close(b.vega, s.vega, 1e-11);
}

#[test]
fn parity_with_stochastic_variance_and_jumps() {
    let forward = 100.0 * (-0.02f64).exp() - 90.0 * (-0.05f64).exp();
    let c = heston_price(F64, 100.0, 90.0, 1.0, 0.05, 0.02, &params(), CALL);
    let p = heston_price(F64, 100.0, 90.0, 1.0, 0.05, 0.02, &params(), PUT);
    close(c - p, forward, 1e-11);
    let b = BatesParams { heston: params(), lambda: 0.6, mu_j: -0.1, sigma_j: 0.2 };
    let c = bates_price(F64, 100.0, 90.0, 1.0, 0.05, 0.02, &b, CALL);
    let p = bates_price(F64, 100.0, 90.0, 1.0, 0.05, 0.02, &b, PUT);
    close(c - p, forward, 1e-11);
    assert!(heston_price(F64, 100.0, 1e6, 0.1, 0.05, 0.02, &params(), CALL) >= 0.0);
}

#[test]
fn no_intensity_no_jumps() {
    let b = BatesParams { heston: params(), lambda: 0.0, mu_j: -0.1, sigma_j: 0.2 };
    for k in [80.0, 100.0, 125.0] {
        let x = bates_price(F64, 100.0, k, 0.5, 0.03, 0.01, &b, CALL);
        let y = heston_price(F64, 100.0, k, 0.5, 0.03, 0.01, &params(), CALL);
        assert_eq!(x, y);
    }
    let j = JumpParams { lambda: 0.0, mu_j: -0.1, sigma_j: 0.2 };
    let with = forward_pass(F64, 100.0, 95.0, 0.5, 0.03, 0.0, &params(), CALL, 1, JumpSpec::Const(j));
    let without = forward_pass(F64, 100.0, 95.0, 0.5, 0.03, 0.0, &params(), CALL, 1, JumpSpec::Off);
    close(with.0, without.0, 1e-12);
    close(with.1, without.1, 1e-12);
}

#[test]
fn roots_square_back() {
    for (re, im) in [(3.0, 4.0), (-3.0, 4.0), (-3.0, -4.0), (2.0, 0.0), (-2.0, 0.0), (1.0, 1e-9)] {
        let s = fast_csqrt(F64, Complex { re, im });
        let w = s * s;
        close(w.re, re, 1e-14);
        close(w.im, im, 1e-14);
        assert!(s.re >= 0.0);
    }
    let s = fast_csqrt(F64, Complex { re: 3.0, im: 4.0 });
    assert_eq!((s.re, s.im), (2.0, 1.0));
    let below = fast_csqrt(F64, Complex { re: -4.0, im: -0.0 });
    assert_eq!((below.re, below.im), (0.0, -2.0));
}

#[test]
fn dual_roots_square_back_with_their_derivatives() {
    for (a, b) in [(3.0, 4.0), (-3.0, 4.0), (-3.0, -0.5), (0.2, -1.0)] {
        let z = Complex { re: Dual { val: a, dot: 0.7 }, im: Dual { val: b, dot: -1.3 } };
        let s = csqrt(F64, z);
        let w = s * s;
        close(w.re.val, a, 1e-14);
        close(w.im.val, b, 1e-14);
        close(w.re.dot, 0.7, 1e-13);
        close(w.im.dot, -1.3, 1e-13);
    }
}

#[test]
fn dual_arithmetic_follows_the_rules() {
    let x = Dual::active(3.0);
    let y = Dual::constant(2.0);
    let z = x * x / y - x;
    assert_eq!((z.val, z.dot), (1.5, 2.0));
    let e = (x * y).exp(F64);
    close(e.dot, 2.0 * 6f64.exp(), 1e-11);
    let l = (x * x).ln(F64);
    close(l.dot, 2.0 / 3.0, 1e-15);
    let r = (x * x).sqrt(F64);
    assert_eq!((r.val, r.dot), (3.0, 1.0));
    let v = Dual5::active(3.0, 2) * Dual5::active(5.0, 4);
    assert_eq!(v.val, 15.0);
    assert_eq!(v.dot, [0.0, 0.0, 5.0, 0.0, 3.0]);
    assert!(x == Dual::constant(3.0));
    assert!(x != y);
}

#[test]
fn forward_pass_prices_as_the_inversion_does() {
    for opt in [CALL, PUT] {
        let price = heston_price(F64, 100.0, 110.0, 0.6, 0.03, 0.01, &params(), opt);
        for active in 0..5 {
            let x = forward_pass(F64, 100.0, 110.0, 0.6, 0.03, 0.01, &params(), opt, active, JumpSpec::Off);
            close(x.0, price, 1e-9);
        }
    }
    let b = BatesParams { heston: params(), lambda: 0.6, mu_j: -0.1, sigma_j: 0.2 };
    let price = bates_price(F64, 100.0, 110.0, 0.6, 0.03, 0.01, &b, CALL);
    let j = JumpParams { lambda: 0.6, mu_j: -0.1, sigma_j: 0.2 };
    let x = forward_pass(F64, 100.0, 110.0, 0.6, 0.03, 0.01, &params(), CALL, 9, JumpSpec::Active(j, 1));
    close(x.0, price, 1e-9);
}

#[test]
fn joint_pass_is_five_passes() {
    let joint = forward_pass5(F64, 100.0, 105.0, 0.8, 0.02, 0.0, &params(), CALL);
    for active in 0..5 {
        let one = forward_pass(F64, 100.0, 105.0, 0.8, 0.02, 0.0, &params(), CALL, active, JumpSpec::Off);
        close(joint.1[active], one.1, 1e-9);
        close(joint.0, one.0, 1e-9);
    }
}

#[test]
fn spline_goes_through_its_points_and_between_them() {
    let xs = vec![80.0, 90.0, 100.0, 105.0, 130.0];
    let ys = vec![1.0, 1.2, 3.0, 3.1, 3.1];
    for i in 0..xs.len() {
        close(monotone_cubic_interp(F64, &xs, &ys, xs[i]), ys[i], 1e-14);
    }
    let mut x = 80.0;
    while x < 130.0 {
        let i = (0..4).rev().find(|&i| xs[i] <= x).unwrap();
        let y = monotone_cubic_interp(F64, &xs, &ys, x);
        assert!(ys[i] - 1e-13 <= y && y <= ys[i + 1] + 1e-13, "{x} {y}");
        x += 0.37;
    }
    let down: Vec<f64> = ys.iter().map(|y| -y).collect();
    let y = monotone_cubic_interp(F64, &xs, &down, 97.0);
    assert!(-3.0 <= y && y <= -1.2);
    assert_eq!(monotone_cubic_interp(F64, &xs, &ys, 10.0), 1.0);
    assert_eq!(monotone_cubic_interp(F64, &xs, &ys, 999.0), 3.1);
    assert_eq!(monotone_cubic_interp(F64, &vec![5.0], &vec![2.5], 7.0), 2.5);
}

#[test]
fn spline_reproduces_straight_lines() {
    let xs = vec![1.0, 2.0, 4.0, 7.0];
    let ys: Vec<f64> = xs.iter().map(|x| 3.0 - 2.0 * x).collect();
    for x in [1.0, 1.3, 2.9, 6.5] {
        close(monotone_cubic_interp(F64, &xs, &ys, x), 3.0 - 2.0 * x, 1e-13);
    }
    for i in 0..4 {
        close(spline_slope(F64, &xs, &ys, i), -2.0, 1e-10);
        close(spline_curvature(F64, &xs, &ys, i), 0.0, 1e-8);
    }
}

#[test]
fn flat_surface_gives_its_volatility() {
    let surf = LocalVolSurface::new(
        vec![80.0, 100.0, 125.0],
        vec![0.25, 0.5, 1.0],
        vec![0.22; 9],
    );
    for i in 0..3 {
        for j in 0..3 {
            close(dupire_local_vol(F64, &surf, 100.0, 0.03, 0.01, i, j), 0.22, 1e-9);
        }
    }
}

#[test]
fn damped_step_solves_its_system() {
    let a = vec![vec![0.1, 2.0, 1.0], vec![2.0, 5.0, 0.5], vec![1.0, 0.5, 3.0]];
    let g = vec![1.0, -2.0, 0.5];
    let lam = 0.1;
    let x = lm_step(F64, &a, &g, lam, 3);
    for i in 0..3 {
        let mut s = 0.0;
        for j in 0..3 {
            let w = if i == j { a[i][j] * (1.0 + lam) } else { a[i][j] };
            s += w * x[j];
        }
        close(s, -g[i], 1e-13);
    }
}

#[test]
fn singular_direction_takes_no_step() {
    let a = vec![vec![2.0, 0.0], vec![0.0, 0.0]];
    let x = lm_step(F64, &a, &vec![4.0, 0.0], 0.0, 2);
    assert_eq!(x, vec![-2.0, 0.0]);
}

#[test]
fn eigenvectors_are_orthonormal_and_rebuild_the_matrix() {
    let a = vec![
        vec![4.0, 1.0, -0.5, 0.2],
        vec![1.0, 3.0, 0.7, 0.0],
        vec![-0.5, 0.7, 2.0, 0.3],
        vec![0.2, 0.0, 0.3, 1.0],
    ];
    let (eig, vecs) = jacobi_eigen(F64, &a, 4);
    for i in 0..4 {
        for j in 0..4 {
            let mut x = 0.0;
            let mut dot = 0.0;
            for k in 0..4 {
                x += vecs[k][i] * eig[k] * vecs[k][j];
                dot += vecs[i][k] * vecs[j][k];
            }
            close(x, a[i][j], 1e-12);
            close(dot, if i == j { 1.0 } else { 0.0 }, 1e-12);
        }
    }
}

#[test]
fn triangular_factor_rebuilds_the_matrix() {
    let a = vec![4.0, 2.0, 0.4, 2.0, 5.0, 1.0, 0.4, 1.0, 3.0];
    let l = cholesky_lower(F64, &a, 3).unwrap();
    for i in 0..3 {
        for j in 0..3 {
            let mut x = 0.0;
            for k in 0..3 {
                x += l[i * 3 + k] * l[j * 3 + k];
            }
            close(x, a[i * 3 + j], 1e-14);
        }
    }
    assert_eq!((l[1], l[2], l[5]), (0.0, 0.0, 0.0));
    assert!(cholesky_lower(F64, &vec![1.0, 2.0, 2.0, 1.0], 2).is_none());
}

#[test]
fn variance_draws_have_the_exact_moments() {
    let (mean, s2) = qe_moments(F64, 0.04, 2.0, 0.05, 0.3, 0.25);
    let psi = qe_psi(F64, mean, s2);
    assert!(psi <= 1.5);
    let (a, b2) = qe_quadratic(F64, psi, mean);
    close(a * (1.0 + b2), mean, 1e-16);
    close(2.0 * a * a * (1.0 + 2.0 * b2), s2, 1e-16);
    let (mean, s2) = qe_moments(F64, 0.01, 0.5, 0.04, 1.2, 0.5);
    let psi = qe_psi(F64, mean, s2);
    assert!(psi > 1.5);
    let (p, beta) = qe_exponential(F64, psi, mean);
    close((1.0 - p) / beta, mean, 1e-15);
    close((1.0 - p * p) / (beta * beta), s2, 1e-15);
}

#[test]
fn exercise_pays_what_it_should() {
    assert_eq!(intrinsic(110.0, 100.0, CALL), 10.0);
    assert_eq!(intrinsic(110.0, 100.0, PUT), 0.0);
    for s in [60.0, 100.0, 140.0] {
        assert_eq!(intrinsic(s, 100.0, CALL) - intrinsic(s, 100.0, PUT), s - 100.0);
        assert_eq!(intrinsic(s, 0.0, CALL), s);
    }
    let out = Payoff::UpAndOut { strike: 100.0, barrier: 130.0, rebate: 0.0, opt_type: CALL };
    let vanilla = Payoff::European { strike: 100.0, opt_type: CALL };
    for top in [120.0, 130.0, 150.0] {
        assert!(out.eval(F64, 118.0, 0.0, top, 4) <= vanilla.eval(F64, 118.0, 0.0, top, 4));
    }
    assert_eq!(out.eval(F64, 118.0, 0.0, 129.0, 4), 18.0);
    assert_eq!(out.eval(F64, 118.0, 0.0, 130.0, 4), 0.0);
    let rebate = Payoff::UpAndOut { strike: 100.0, barrier: 130.0, rebate: 3.0, opt_type: CALL };
    assert_eq!(rebate.eval(F64, 118.0, 0.0, 131.0, 4), 3.0);
    let asian = Payoff::AsianArithmetic { strike: 100.0, opt_type: PUT };
    assert_eq!(asian.eval(F64, 118.0, 380.0, 130.0, 4), 5.0);
}

#[test]
fn bumps_have_room() {
    for v in [0.0, 1e-5, 0.01, 0.2, 3.0] {
        let (up, dn, span) = vol_bump_levels(F64, v, 1.0);
        assert!(up > v && dn >= 0.0 && dn <= v && span > 0.0);
    }
    assert_eq!(vol_step(F64, 0.2), 0.01);
    assert_eq!(vol_step(F64, 0.01), 0.005);
    assert_eq!(vol_step(F64, 0.0), 1e-4);
    for t in [2e-8, 1e-3, 0.5, 10.0] {
        let h = time_step(F64, t);
        assert!(0.0 < h && h < t);
    }
    assert_eq!(time_step(F64, 1.0), 1.0 / 365.0);
    let g = heston_price_and_greeks(F64, 100.0, 100.0, 1e-9, 0.0, 0.0, &params(), CALL);
    assert_eq!(g.theta, 0.0);
    let g = heston_price_and_greeks(F64, 100.0, 95.0, 0.5, 0.01, 0.0, &params(), PUT);
    assert_eq!(g.price, heston_price(F64, 100.0, 95.0, 0.5, 0.01, 0.0, &params(), PUT));
}

#[test]
fn coin_prices_are_in_parity_and_over_the_forward() {
    for (vol, t) in [(0.6, 0.2), (0.6, 0.0), (0.0, 0.2)] {
        let c = price_coin(F64, CALL, 50.0, 60.0, vol, t);
        let p = price_coin(F64, PUT, 50.0, 60.0, vol, t);
        close(c - p, 1.0 - 60.0 / 50.0, 1e-14);
    }
    for opt in [CALL, PUT] {
        let b = black76_price_and_greeks(F64, 50.0, 60.0, 0.2, 0.0, 0.6, opt);
        close(price_coin(F64, opt, 50.0, 60.0, 0.6, 0.2) * 50.0, b.price, 1e-12);
    }
    let usd = McResult { price: 12.0, std_error: 0.3 };
    let coin = mc_result_to_coin(F64, usd, 50.0, 0.02, 0.5);
    close(coin.price, 12.0 * 0.01f64.exp() / 50.0, 1e-15);
    close(coin.price * usd.std_error, usd.price * coin.std_error, 1e-15);
}

#[test]
fn curve_is_constant_between_expiries() {
    let curve = ForwardVarianceCurve::new(vec![0.25, 0.5, 1.0], vec![0.04, 0.05, 0.06]);
    assert_eq!(curve.at(0.0), 0.04);
    assert_eq!(curve.at(0.25), 0.04);
    assert_eq!(curve.at(0.26), 0.05);
    assert_eq!(curve.at(0.5), 0.05);
    assert_eq!(curve.at(0.9), 0.06);
    assert_eq!(curve.at(5.0), 0.06);
}

#[test]
fn repair_lifts_a_fallen_expiry_and_lowers_a_peak() {
    let mut surf = LocalVolSurface::new(
        vec![90.0, 100.0, 110.0],
        vec![0.5, 1.0],
        vec![0.20, 0.10, 0.20, 0.20, 0.20, 0.20],
    );
    let audit = check_and_repair_surface(F64, &mut surf);
    let first = audit.violations[0];
    assert_eq!((first.kind, first.i_k, first.j_t), (ViolationKind::CalendarSpread, 0, 1));
    close(first.delta, 0.04 * 0.5 - 0.01, 1e-15);
    for i in 0..3 {
        let w0 = surf.get(i, 0) * surf.get(i, 0) * 0.5;
        let w1 = surf.get(i, 1) * surf.get(i, 1);
        assert!(w1 >= w0);
    }
    let mut peak = LocalVolSurface::new(
        vec![90.0, 100.0, 110.0],
        vec![1.0],
        vec![0.20, 0.30, 0.20],
    );
    let audit = check_and_repair_surface(F64, &mut peak);
    let v = audit.violations[0];
    assert_eq!((v.kind, v.i_k, v.j_t), (ViolationKind::Butterfly, 1, 0));
    close(v.delta, 0.1, 1e-15);
    assert_eq!(audit.repaired, 1);
    let w = peak.get(1, 0) * peak.get(1, 0);
    close(w, 0.04 - 1e-8, 1e-15);
    let mut clean = LocalVolSurface::new(vec![90.0, 110.0], vec![0.5, 1.0], vec![0.2; 4]);
    let audit = check_and_repair_surface(F64, &mut clean);
    assert!(audit.violations.is_empty());
    assert_eq!(audit.repaired, 0);
    assert_eq!(clean.local_vols, vec![0.2; 4]);
}

fn quotes(contracts: &[OptionContract<f64>], p: &HestonParams<f64>) -> Vec<f64> {
    contracts
        .iter()
        .map(|c| {
            let x = heston_price(
                F64, c.spot, c.strike, c.expiry, c.rate, c.div_yield, p, c.opt_type,
            );
            implied_vol(F64, &IvProblem { contract: *c, market_price: x }).unwrap()
        })
        .collect()
}

#[test]
fn fits_stay_in_bounds_and_several_never_lose() {
    let contracts: Vec<OptionContract<f64>> =
        [85.0, 95.0, 105.0, 115.0].iter().map(|&k| contract(k, CALL)).collect();
    let ivs = quotes(&contracts, &params());
    let input: Vec<CalibInput<f64>> = contracts
        .iter()
        .zip(&ivs)
        .map(|(contract, &iv_market)| CalibInput { contract, iv_market, weight: 1.0 })
        .collect();
    let p0 = HestonParams { v0: 0.06, kappa: 1.5, theta: 0.06, sigma: 0.35, rho: -0.3 };
    assert!(heston_bounds_ok(F64, &p0));
    let one = calibrate_heston(F64, &input, p0);
    assert!(one.params.feller_ok());
    assert!(heston_bounds_ok(F64, &one.params));
    assert!(one.iters <= 200);
    assert!(!(one.converged && one.early_stopped));
    let start = weighted_sse(&residuals(F64, &input, &p0), &vec![1.0; 4]);
    let end = weighted_sse(&residuals(F64, &input, &one.params), &vec![1.0; 4]);
    assert!(end <= start);
    let alone = calibrate_heston_multistart(F64, &input, p0, 1, 7, stream);
    assert_eq!(alone.n_restarts, 1);
    assert_eq!(alone.best.rmse, one.rmse);
    assert_eq!(alone.best.iters, one.iters);
    let several = calibrate_heston_multistart(F64, &input, p0, 3, 7, stream);
    assert!(several.best.rmse <= one.rmse);
    assert!(several.n_converged <= 3 && several.n_pruned <= 3);
    let none = calibrate_heston_multistart(F64, &input, p0, 0, 7, stream);
    assert_eq!(none.n_restarts, 1);
}

#[test]
fn evolution_keeps_what_it_finds() {
    let contracts: Vec<OptionContract<f64>> =
        [90.0, 110.0].iter().map(|&k| contract(k, CALL)).collect();
    let ivs = quotes(&contracts, &params());
    let input: Vec<CalibInput<f64>> = contracts
        .iter()
        .zip(&ivs)
        .map(|(contract, &iv_market)| CalibInput { contract, iv_market, weight: 1.0 })
        .collect();
    let res = calibrate_heston_global(F64, &input, 0, 1, 11, stream);
    assert_eq!(res.de_generations, 1);
    let end = weighted_sse(&residuals(F64, &input, &res.best.params), &vec![1.0; 2]);
    assert!(end <= res.de_best_sse);
    assert!(res.best.params.feller_ok());
    let again = calibrate_heston_global(F64, &input, 0, 1, 11, stream);
    assert_eq!(again.best.rmse, res.best.rmse);
}

#[test]
fn challengers_stay_in_their_ranges() {
    let bounds = vec![(0.0, 1.0), (-1.0, 1.0), (0.0, 5.0)];
    let pop = vec![
        vec![0.5, 0.0, 2.0],
        vec![0.9, 0.9, 4.0],
        vec![1.0, -1.0, 5.0],
        vec![0.0, 1.0, 0.0],
    ];
    let t = make_challenger(&bounds, &pop, 0, 1, 2, 3, &vec![true, true, false]);
    assert_eq!((t[0], t[2]), (1.0, 2.0));
    close(t[1], 0.9 - 0.6 * 2.0, 1e-15);
}

#[test]
fn chunks_cover_every_pair_once() {
    for (n, k) in [(10, 3), (3, 10), (0, 4), (100, 1), (17, 17)] {
        let mut next = 0;
        for i in 0..k {
            let (a, b) = chunk_range(n, k, i);
            assert_eq!(a, next);
            assert!(b >= a);
            next = b;
        }
        assert_eq!(next, n);
    }
}

#[test]
fn seeds_are_spread() {
    let mut seen: Vec<u64> = (0..64).map(|i| chunk_seed(42, i)).collect();
    for g in 0..4 {
        for i in 0..64 {
            seen.push(member_seed(42, g, i));
        }
    }
    let own: Vec<u64> = (0..4).flat_map(|g| (0..64).map(move |i| member_seed(7, g, i))).collect();
    for i in 0..own.len() {
        for j in 0..i {
            assert_ne!(own[i], own[j]);
        }
    }
    assert_ne!(seen[0], seen[1]);
    assert_eq!(splitmix64(0), 0xE220A8397B1DCDAF);
}

#[test]
fn simulation_is_the_merge_of_its_chunks() {
    let cfg = McConfig {
        n_paths: 200,
        n_steps: 5,
        seed: 9,
        antithetic: true,
        scheme: VarianceScheme::QuadraticExponential,
    };
    let jumps = Some(JumpParams { lambda: 0.8, mu_j: -0.05, sigma_j: 0.1 });
    let payoff = Payoff::European { strike: 100.0, opt_type: CALL };
    let whole = mc_price(F64, stream, 100.0, 0.5, 0.02, 0.01, &params(), jumps, &payoff, &cfg, 3);
    let setup = path_setup(F64, 100.0, 0.5, 0.02, 0.01, &params(), jumps, 5, cfg.scheme);
    let mut all = Tally { sum: 0.0, sum_sq: 0.0, count: 0 };
    for i in 0..3 {
        let (a, b) = chunk_range(100, 3, i);
        let src = stream(chunk_seed(9, i as u64));
        let (t, _) = mc_chunk(F64, src, &setup, jumps, &payoff, 0.02, 0.5, b - a, 5, true);
        all = merge(all, t);
    }
    let parts = summary(F64, all);
    assert_eq!(all.count, 200);
    assert_eq!(whole.price, parts.price);
    assert_eq!(whole.std_error, parts.std_error);
}

#[test]
fn random_starts_satisfy_feller() {
    for seed in 0..200 {
        let (p, _) = <HestonParams<f64> as RandomStart<f64, F64, Stream>>::random_guess(
            F64,
            stream(seed),
        );
        assert!(p.feller_ok());
        assert!(heston_bounds_ok(F64, &p));
        assert!(p.v0 >= 0.005 && p.v0 < 0.5 && p.rho.abs() <= 0.9);
        let (b, _) = <BatesParams<f64> as RandomStart<f64, F64, Stream>>::random_guess(
            F64,
            stream(seed),
        );
        assert_eq!(b.heston.sigma, p.sigma);
        assert!(b.lambda >= 0.0 && b.lambda < 2.0);
    }
}

#[test]
fn evolution_stays_in_ranges() {
    let contracts: Vec<OptionContract<f64>> =
        [90.0, 110.0].iter().map(|&k| contract(k, CALL)).collect();
    let ivs = quotes(&contracts, &params());
    let input: Vec<CalibInput<f64>> = contracts
        .iter()
        .zip(&ivs)
        .map(|(contract, &iv_market)| CalibInput { contract, iv_market, weight: 1.0 })
        .collect();
    let bounds = <HestonParams<f64> as CalibModel<f64, F64>>::param_bounds(F64);
    let weights = weights_of(&input);
    let (pop, fit) =
        first_population::<f64, F64, HestonParams<f64>, Stream>(F64, stream(3), &input, 6);
    for i in 0..6 {
        let (v, f) = successor::<f64, F64, HestonParams<f64>, Stream>(
            F64, stream(i as u64), &input, &weights, &bounds, &pop, fit[i], i,
        );
        assert!(f <= fit[i]);
        for d in 0..5 {
            assert!(pop[i][d] >= bounds[d].0 && pop[i][d] <= bounds[d].1);
            assert!(v[d] >= bounds[d].0 && v[d] <= bounds[d].1);
        }
    }
}

#[test]
fn sensitivities_have_their_signs() {
    for k in [70.0, 100.0, 140.0] {
        let call = bsm_price_and_greeks(F64, &contract(k, CALL));
        let put = bsm_price_and_greeks(F64, &contract(k, PUT));
        assert!(call.delta > 0.0 && put.delta < 0.0);
        assert!(call.rho > 0.0 && put.rho < 0.0);
        assert!(call.gamma > 0.0 && call.vega > 0.0);
        let c = greeks(F64, CALL, 100.0, k, 0.6, 0.3);
        let p = greeks(F64, PUT, 100.0, k, 0.6, 0.3);
        assert!(c.vega > 0.0 && c.theta < 0.0 && c.delta > 0.0 && p.delta < 0.0);
        assert_eq!((c.vega, c.theta, c.vanna, c.volga), (p.vega, p.theta, p.vanna, p.volga));
        close(c.delta - p.delta, k / 1e4, 1e-15);
        close(c.gamma - p.gamma, -2.0 * k / 1e6, 1e-15);
    }
}

#[test]
fn closed_forms_agree_at_zero_rate() {
    for opt_type in [CALL, PUT] {
        let c = OptionContract { rate: 0.0, div_yield: 0.0, ..contract(110.0, opt_type) };
        let a = bsm_price_and_greeks(F64, &c);
        let b = black76_price_and_greeks(
            F64, c.spot, c.strike, c.expiry, 0.0, c.vol, opt_type,
        );
        close(a.price, b.price, 1e-12);
        close(a.delta, b.delta, 1e-14);
        close(a.gamma, b.gamma, 1e-14);
        close(a.vega, b.vega, 1e-12);
        close(a.theta, b.theta, 1e-12);
        close(a.vanna, b.vanna, 1e-12);
        close(a.volga, b.volga, 1e-12);
    }
}

#[test]
fn sensitivities_without_jumps_are_hestons() {
    let b = BatesParams { heston: params(), lambda: 0.0, mu_j: -0.1, sigma_j: 0.2 };
    let x = bates_price_and_greeks(F64, 100.0, 105.0, 0.5, 0.02, 0.01, &b, CALL);
    let y = heston_price_and_greeks(F64, 100.0, 105.0, 0.5, 0.02, 0.01, &params(), CALL);
    close(x.price, y.price, 1e-12);
    close(x.delta, y.delta, 1e-10);
    close(x.vega, y.vega, 1e-8);
    close(x.theta, y.theta, 1e-8);
    close(x.rho, y.rho, 1e-8);
}

#[test]
fn knock_out_costs_no_more_with_the_same_seed() {
    let cfg = McConfig {
        n_paths: 400,
        n_steps: 10,
        seed: 21,
        antithetic: true,
        scheme: VarianceScheme::FullTruncationEuler,
    };
    let plain = Payoff::European { strike: 100.0, opt_type: CALL };
    let out = Payoff::UpAndOut { strike: 100.0, barrier: 115.0, rebate: 0.0, opt_type: CALL };
    let a = mc_price(F64, stream, 100.0, 0.5, 0.02, 0.01, &params(), None, &out, &cfg, 3);
    let b = mc_price(F64, stream, 100.0, 0.5, 0.02, 0.01, &params(), None, &plain, &cfg, 3);
    assert!(a.price < b.price);
    let rough = RoughBergomiParams { eta: 1.5, rho: -0.8, hurst: 0.1 };
    let curve = ForwardVarianceCurve::new(vec![1.0], vec![0.04]);
    let a = mc_rough_bergomi(F64, stream, 100.0, 0.5, 0.02, 0.01, &rough, &curve, out, &cfg, 3);
    let b = mc_rough_bergomi(F64, stream, 100.0, 0.5, 0.02, 0.01, &rough, &curve, plain, &cfg, 3);
    assert!(a.price < b.price);
}

#[test]
fn bates_fits_with_prior_and_several_starts() {
    let contracts: Vec<OptionContract<f64>> =
        [90.0, 110.0].iter().map(|&k| contract(k, CALL)).collect();
    let ivs = quotes(&contracts, &params());
    let input: Vec<CalibInput<f64>> = contracts
        .iter()
        .zip(&ivs)
        .map(|(contract, &iv_market)| CalibInput { contract, iv_market, weight: 1.0 })
        .collect();
    let p0 = BatesParams { heston: params(), lambda: 0.3, mu_j: -0.05, sigma_j: 0.1 };
    let one = calibrate_bates(F64, &input, p0);
    assert!(one.params.heston.feller_ok());
    let several = calibrate_bates_multistart(F64, &input, p0, 1, 7, stream);
    assert_eq!((several.best.rmse, several.best.iters), (one.rmse, one.iters));
    let tied = calibrate_bates_regularized(F64, &input, p0, &p0, 1e6);
    close(tied.params.lambda, p0.lambda, 1e-3);
    close(tied.params.heston.kappa, p0.heston.kappa, 1e-3);
}

#[test]
fn spline_keeps_a_peak() {
    let xs = vec![0.0, 1.0, 2.0];
    assert_eq!(slope(&xs, &vec![0.0, 1.0, 3.0], 1), 1.5);
    assert_eq!(slope(&xs, &vec![0.0, 10.0, 9.0], 1), 0.0);
    assert_eq!(slope(&xs, &vec![0.0, -10.0, -9.0], 1), 0.0);
    assert_eq!(slope(&xs, &vec![0.0, 1.0, 1.0], 1), 0.5);
    close(monotone_cubic_interp(F64, &xs, &vec![0.0, 1.0, 3.0], 0.5), 0.4375, 1e-15);
    let ys = vec![0.0, 10.0, 9.0];
    close(monotone_cubic_interp(F64, &xs, &ys, 1.2), 9.928, 1e-12);
    let xs = vec![0.0, 0.3, 1.0, 1.1, 2.5, 3.0, 4.0];
    let ys = vec![1.0, 3.0, -2.0, -2.0, 5.0, 4.9, 7.0];
    for j in 0..6 {
        let up = ys[j] <= ys[j + 1];
        let mut last = ys[j];
        for k in 0..=20 {
            let x = xs[j] + (xs[j + 1] - xs[j]) * k as f64 / 20.0;
            let y = monotone_cubic_interp(F64, &xs, &ys, x);
            assert!(y >= ys[j].min(ys[j + 1]) - 1e-12 && y <= ys[j].max(ys[j + 1]) + 1e-12);
            assert!(if up { y >= last - 1e-12 } else { y <= last + 1e-12 });
            last = y;
        }
    }
}

#[test]
fn rebate_is_paid_at_the_breach() {
    let cfg = McConfig {
        n_paths: 40,
        n_steps: 6,
        seed: 3,
        antithetic: true,
        scheme: VarianceScheme::FullTruncationEuler,
    };
    let at_once = Payoff::UpAndOut { strike: 100.0, barrier: 100.0, rebate: 5.0, opt_type: CALL };
    let r = mc_heston(F64, stream, 100.0, 1.0, 0.05, 0.0, &params(), at_once, &cfg, 3);
    close(r.price, 5.0, 1e-12);
    let rough = RoughBergomiParams { eta: 1.5, rho: -0.8, hurst: 0.1 };
    let curve = ForwardVarianceCurve::new(vec![1.0], vec![0.04]);
    let r = mc_rough_bergomi(F64, stream, 100.0, 1.0, 0.05, 0.0, &rough, &curve, at_once, &cfg, 3);
    close(r.price, 5.0, 1e-12);
    // No variance and a drift that reaches the barrier at the second of four steps.
    let later = Payoff::UpAndOut { strike: 100.0, barrier: 115.0, rebate: 5.0, opt_type: CALL };
    let (v, dz) = (vec![0.0; 4], vec![0.0; 4]);
    let x = run_rbergomi_path(F64, 100.0, 0.4, &v, &dz, 0.25, &later, 0.05, 1.0);
    close(x, 5.0 * (-0.05f64 * 0.5).exp(), 1e-14);
    let never = Payoff::UpAndOut { strike: 100.0, barrier: 200.0, rebate: 5.0, opt_type: CALL };
    let x = run_rbergomi_path(F64, 100.0, 0.4, &v, &dz, 0.25, &never, 0.05, 1.0);
    close(x, (-0.05f64).exp() * (100.0 * 0.4f64.exp() - 100.0), 1e-10);
    let x = present_value(F64, &later, Some(3), 0.0, 0.0, 0.0, 4, 0.25, 0.05, 1.0);
    close(x, 5.0 * (-0.0375f64).exp(), 1e-15);
}

#[test]
fn simulations_without_jumps_and_their_signs() {
    let cfg = McConfig {
        n_paths: 60,
        n_steps: 5,
        seed: 13,
        antithetic: false,
        scheme: VarianceScheme::QuadraticExponential,
    };
    let payoff = Payoff::UpAndOut { strike: 95.0, barrier: 120.0, rebate: 0.0, opt_type: CALL };
    let never = Some(JumpParams { lambda: 0.0, mu_j: -0.1, sigma_j: 0.2 });
    let a = mc_price(F64, stream, 100.0, 0.5, 0.02, 0.01, &params(), never, &payoff, &cfg, 2);
    let b = mc_price(F64, stream, 100.0, 0.5, 0.02, 0.01, &params(), None, &payoff, &cfg, 2);
    assert_eq!((a.price, a.std_error), (b.price, b.std_error));
    assert!(a.price >= 0.0 && a.std_error >= 0.0);
}

#[test]
fn implied_volatilities_are_positive_and_ignore_the_contracts_own() {
    let c = contract(105.0, CALL);
    let market_price = bsm_price(F64, &c);
    let found = implied_vol(F64, &IvProblem { contract: c, market_price }).unwrap();
    let other = OptionContract { vol: 3.7, ..c };
    assert_eq!(implied_vol(F64, &IvProblem { contract: other, market_price }), Some(found));
    assert!(found > 0.0);
}

#[test]
fn coin_prices_are_bounded_and_scale() {
    for k in [1e-6, 50.0, 100.0, 400.0] {
        let p = price_coin(F64, CALL, 100.0, k, 0.8, 0.5);
        assert!(p <= 1.0);
        close(price_coin(F64, CALL, 800.0, 8.0 * k, 0.8, 0.5), p, 1e-15);
        close(price_coin(F64, PUT, 800.0, 8.0 * k, 0.8, 0.0), (k / 100.0 - 1.0).max(0.0), 1e-15);
    }
}

#[test]
fn errors_of_a_fit_are_ordered() {
    let contracts: Vec<OptionContract<f64>> =
        [90.0, 100.0, 110.0].iter().map(|&k| contract(k, CALL)).collect();
    let input: Vec<CalibInput<f64>> = contracts
        .iter()
        .zip([0.31, 0.27, 0.29])
        .map(|(contract, iv_market)| CalibInput { contract, iv_market, weight: 0.5 + iv_market })
        .collect();
    let r = calibrate_heston(F64, &input, params());
    assert!(r.iters >= 1 && !r.early_stopped);
    assert!(r.rmse > 0.0 && r.rmse <= r.max_err);
}

#[test]
fn repair_reports_nodes_that_can_be_at_fault() {
    let vols = vec![0.4, 0.1, 0.2, 0.6, 0.3, 0.1, 0.2, 0.5, 0.1, 0.3, 0.2, 0.2];
    let mut surf = LocalVolSurface::new(vec![80.0, 90.0, 100.0, 110.0], vec![0.5, 1.0, 2.0], vols);
    let audit = check_and_repair_surface(F64, &mut surf);
    assert!(audit.repaired <= audit.violations.len() && !audit.violations.is_empty());
    for e in &audit.violations {
        assert!(e.delta > 0.0);
        match e.kind {
            ViolationKind::CalendarSpread => assert!(e.i_k < 4 && e.j_t >= 1 && e.j_t < 3),
            ViolationKind::Butterfly => assert!(e.i_k >= 1 && e.i_k <= 2 && e.j_t < 3),
        }
    }
}

#[test]
fn eigenvectors_are_sent_to_multiples_of_themselves() {
    let a = vec![vec![4.0, 1.0, -2.0], vec![1.0, 3.0, 0.5], vec![-2.0, 0.5, 1.0]];
    let (eig, vecs) = jacobi_eigen(F64, &a, 3);
    for k in 0..3 {
        for i in 0..3 {
            let image: f64 = (0..3).map(|j| a[i][j] * vecs[k][j]).sum();
            close(image, eig[k] * vecs[k][i], 1e-12);
            let inner: f64 = (0..3).map(|j| vecs[k][j] * vecs[i][j]).sum();
            close(inner, if i == k { 1.0 } else { 0.0 }, 1e-12);
        }
    }
}

#[test]
fn joint_pass_prices_like_the_pricer() {
    for opt_type in [CALL, PUT] {
        let (price, _) = forward_pass5(F64, 100.0, 95.0, 0.5, 0.03, 0.01, &params(), opt_type);
        close(price, heston_price(F64, 100.0, 95.0, 0.5, 0.03, 0.01, &params(), opt_type), 1e-10);
    }
}

#[test]
fn roots_on_the_real_axis_carry_derivatives() {
    let dual = |val: f64, dot: f64| Dual { val, dot };
    let s = csqrt(F64, Complex { re: dual(4.0, 0.0), im: dual(0.0, 1.0) });
    assert_eq!((s.re.val, s.im.val), (2.0, 0.0));
    assert_eq!((s.re.dot, s.im.dot), (0.0, 0.25));
    let s = csqrt(F64, Complex { re: dual(-4.0, 1.0), im: dual(0.0, 1.0) });
    assert_eq!((s.re.val, s.im.val), (0.0, 2.0));
    assert_eq!((s.re.dot, s.im.dot), (0.25, -0.25));
}

#[test]
fn black76_puts_and_calls_are_in_parity() {
    let call = black76_price_and_greeks(F64, 103.0, 95.0, 0.75, 0.04, 0.3, CALL);
    let put = black76_price_and_greeks(F64, 103.0, 95.0, 0.75, 0.04, 0.3, PUT);
    let er = (-0.03f64).exp();
    close(call.price - put.price, er * 8.0, 1e-12);
    close(call.delta - put.delta, er, 1e-14);
    close(call.theta - put.theta, 0.04 * er * 8.0, 1e-12);
    close(call.rho - put.rho, -0.75 * er * 8.0, 1e-12);
    assert_eq!((call.gamma, call.vega), (put.gamma, put.vega));
}

#[test]
fn results_have_a_default_of_zeros() {
    let r = PricingResult::<f64>::default();
    assert_eq!((r.price, r.delta, r.gamma, r.vega), (0.0, 0.0, 0.0, 0.0));
    let g = InverseGreeks::<f64>::default();
    assert_eq!((g.price_coin, g.theta, g.vanna, g.volga), (0.0, 0.0, 0.0, 0.0));
}

#[test]
fn ranks_follow_the_order() {
    let xs = [f64::NEG_INFINITY, -2.0, -1e-300, 0.0, 1e-300, 0.5, 3.0, f64::INFINITY];
    for w in xs.windows(2) {
        assert!(F64.rank(w[0]) < F64.rank(w[1]));
    }
}
