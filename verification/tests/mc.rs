//! Monte Carlo.
#![allow(dead_code)]
use options_pricing_engine::Elementary;
use options_pricing_engine::McConfig;
use options_pricing_engine::OptionType;
use options_pricing_engine::RandomSource;
use options_pricing_engine::VarianceScheme;
use options_pricing_engine::mc::{merge, summary, Tally};
use options_pricing_engine::random::chunk_seed;
use rand::rngs::SmallRng;
use rand::{Rng, SeedableRng};
use rayon::iter::{IntoParallelIterator, ParallelIterator};
use rayon::slice::ParallelSlice;

type OptionContract = options_pricing_engine::types::OptionContract<f64>;
type IvProblem = options_pricing_engine::types::IvProblem<f64>;
type HestonParams = options_pricing_engine::types::HestonParams<f64>;
type BatesParams = options_pricing_engine::types::BatesParams<f64>;
type Payoff = options_pricing_engine::mc::Payoff<f64>;
type McResult = options_pricing_engine::mc::McResult<f64>;
type RoughBergomiParams = options_pricing_engine::types::RoughBergomiParams<f64>;
type ForwardVarianceCurve = options_pricing_engine::types::ForwardVarianceCurve<f64>;

/// The powers of ten.
const POWERS: [f64; 17] = [
    1e0, 1e1, 1e2, 1e3, 1e4, 1e5, 1e6, 1e7, 1e8, 1e9, 1e10, 1e11, 1e12, 1e13, 1e14, 1e15, 1e16,
];

/// The elementary functions of double precision.
#[derive(Clone, Copy)]
struct F64;

impl Elementary<f64> for F64 {
    fn exp(&self, x: f64) -> f64 {
        x.exp()
    }
    fn ln(&self, x: f64) -> f64 {
        x.ln()
    }
    fn sqrt(&self, x: f64) -> f64 {
        x.sqrt()
    }
    fn sin(&self, x: f64) -> f64 {
        x.sin()
    }
    fn cos(&self, x: f64) -> f64 {
        x.cos()
    }
    fn atan2(&self, y: f64, x: f64) -> f64 {
        y.atan2(x)
    }
    fn hypot(&self, x: f64, y: f64) -> f64 {
        x.hypot(y)
    }
    fn powf(&self, x: f64, y: f64) -> f64 {
        x.powf(y)
    }
    fn erfc(&self, x: f64) -> f64 {
        libm::erfc(x)
    }
    fn is_finite(&self, x: f64) -> bool {
        x.is_finite()
    }
    fn is_sign_positive(&self, x: f64) -> bool {
        x.is_sign_positive()
    }
    fn infinity(&self) -> f64 {
        f64::INFINITY
    }
    fn rank(&self, x: f64) -> i64 {
        let bits = x.to_bits() as i64;
        bits ^ (((bits >> 63) as u64) >> 1) as i64
    }
    fn decimal(&self, mantissa: i64, exponent: i32) -> f64 {
        if mantissa.unsigned_abs() < 1 << 53 && -16 <= exponent && exponent <= 0 {
            mantissa as f64 / POWERS[exponent.unsigned_abs() as usize]
        } else if mantissa == 1 && exponent == -300 {
            1e-300
        } else {
            format!("{mantissa}e{exponent}").parse().unwrap()
        }
    }
    fn count(&self, n: usize) -> f64 {
        n as f64
    }
}

/// A stream of draws from a seeded generator.
struct Stream(SmallRng);

impl RandomSource<f64> for Stream {
    fn unit(mut self) -> (f64, Self) {
        (self.0.gen(), self)
    }
    fn positive_unit(mut self) -> (f64, Self) {
        (self.0.gen_range(1e-12..1.0), self)
    }
    fn within(mut self, lo: f64, hi: f64) -> (f64, Self) {
        (self.0.gen_range(lo..hi), self)
    }
    fn index(mut self, n: usize) -> (usize, Self) {
        (self.0.gen_range(0..n), self)
    }
}

fn stream(seed: u64) -> Stream {
    Stream(SmallRng::seed_from_u64(seed))
}

fn bsm_price(c: &OptionContract) -> f64 {
    options_pricing_engine::bsm::bsm_price(F64, c)
}

fn implied_vol(prob: &IvProblem) -> Option<f64> {
    options_pricing_engine::iv::implied_vol(F64, prob)
}

fn heston_price(spot: f64, strike: f64, expiry: f64, rate: f64, div_yield: f64, params: &HestonParams, opt_type: OptionType) -> f64 {
    options_pricing_engine::heston::heston_price(F64, spot, strike, expiry, rate, div_yield, params, opt_type)
}

fn bates_price(spot: f64, strike: f64, expiry: f64, rate: f64, div_yield: f64, params: &BatesParams, opt_type: OptionType) -> f64 {
    options_pricing_engine::bates::bates_price(F64, spot, strike, expiry, rate, div_yield, params, opt_type)
}

fn hyp2f1(a: f64, b: f64, c: f64, z: f64) -> f64 {
    options_pricing_engine::rbergomi::hyp2f1(F64, a, b, c, z)
}

fn cholesky_lower(matrix: &[f64], dim: usize) -> Option<Vec<f64>> {
    options_pricing_engine::rbergomi::cholesky_lower(F64, &matrix.to_vec(), dim)
}

/// Chunks of a simulation.
const CHUNKS: usize = 8;

#[allow(clippy::too_many_arguments)]
fn mc_heston(
    spot: f64,
    expiry: f64,
    rate: f64,
    div_yield: f64,
    params: &HestonParams,
    payoff: Payoff,
    cfg: &McConfig,
) -> McResult {
    options_pricing_engine::mc_heston(F64, stream, spot, expiry, rate, div_yield, params, payoff, cfg, CHUNKS)
}

#[allow(clippy::too_many_arguments)]
fn mc_bates(
    spot: f64,
    expiry: f64,
    rate: f64,
    div_yield: f64,
    params: &HestonParams,
    lambda: f64,
    mu_j: f64,
    sigma_j: f64,
    payoff: Payoff,
    cfg: &McConfig,
) -> McResult {
    options_pricing_engine::mc_bates(
        F64, stream, spot, expiry, rate, div_yield, params, lambda, mu_j, sigma_j, payoff, cfg, CHUNKS,
    )
}

fn sample_poisson(src: &mut Stream, mean: f64) -> u32 {
    let (n, rest) = options_pricing_engine::mc::sample_poisson(F64, Stream(src.0.clone()), mean);
    *src = rest;
    n
}

fn box_muller(src: &mut Stream) -> (f64, f64) {
    let (pair, rest) = options_pricing_engine::mc::box_muller(F64, Stream(src.0.clone()));
    *src = rest;
    pair
}

/// The simulation with its chunks handed out to threads.
#[allow(clippy::too_many_arguments)]
fn mc_rough_bergomi(
    spot: f64,
    expiry: f64,
    rate: f64,
    div_yield: f64,
    params: &RoughBergomiParams,
    curve: &ForwardVarianceCurve,
    payoff: Payoff,
    cfg: &McConfig,
) -> McResult {
    let setup = options_pricing_engine::rough::rough_setup(F64, params, curve, expiry, cfg.n_steps).unwrap();
    let n_pairs = cfg.n_paths / if cfg.antithetic { 2 } else { 1 };
    let tallies: Vec<Tally<f64>> = (0..CHUNKS)
        .into_par_iter()
        .map(|i| {
            let (start, end) = options_pricing_engine::mc::chunk_range(n_pairs, CHUNKS, i);
            options_pricing_engine::rough::rough_chunk(
                F64,
                stream(chunk_seed(cfg.seed, i as u64)),
                &setup,
                spot,
                rate - div_yield,
                &payoff,
                rate,
                expiry,
                end - start,
                cfg.n_steps,
                cfg.antithetic,
            )
            .0
        })
        .collect();
    let none = Tally { sum: 0.0, sum_sq: 0.0, count: 0 };
    summary(F64, tallies.into_iter().fold(none, merge))
}

#[allow(clippy::too_many_arguments)]
fn run_rbergomi_path(
    spot: f64,
    drift0: f64,
    v: &Vec<f64>,
    dz: &Vec<f64>,
    dt: f64,
    payoff: &Payoff,
    rate: f64,
    expiry: f64,
) -> f64 {
    options_pricing_engine::mc::run_rbergomi_path(F64, spot, drift0, v, dz, dt, payoff, rate, expiry)
}

fn exact_joint_covariance(alpha: f64, times: &[f64], dt: f64) -> Vec<f64> {
    let n = times.len();
    let dim = 2 * n - 1;
    let c = (2.0 * alpha + 1.0).sqrt();
    let mut cov = vec![0.0; dim * dim];
    for i in 1..n {
        for j in 1..=i {
            let (s, t) = (times[j], times[i]);
            let x = if i == j {
                t.powf(2.0 * alpha + 1.0)
            } else {
                (2.0 * alpha + 1.0) * s.powf(alpha + 1.0) * t.powf(alpha) / (alpha + 1.0)
                    * hyp2f1(-alpha, 1.0, alpha + 2.0, s / t)
            };
            cov[(i - 1) * dim + j - 1] = x;
            cov[(j - 1) * dim + i - 1] = x;
        }
        for j in 0..i {
            let far = (times[i] - times[j]).powf(alpha + 1.0);
            let near = (times[i] - times[j] - dt).max(0.0).powf(alpha + 1.0);
            let x = c / (alpha + 1.0) * (far - near);
            cov[(i - 1) * dim + n - 1 + j] = x;
            cov[(n - 1 + j) * dim + i - 1] = x;
        }
    }
    for j in 0..n {
        cov[(n - 1 + j) * dim + n - 1 + j] = dt;
    }
    cov
}

fn simulate_price_exact(
    params: &RoughBergomiParams, curve: &ForwardVarianceCurve, times: &[f64], dt: f64,
    l: &[f64], z: &[f64], zperp: &[f64],
) -> (Vec<f64>, Vec<f64>) {
    let n = times.len();
    let dim = 2 * n - 1;
    let x: Vec<f64> = (0..dim)
        .map(|r| l[r * dim..r * dim + r + 1].iter().zip(z).map(|(a, b)| a * b).sum())
        .collect();
    let power = 2.0 * params.alpha() + 1.0;
    let v = (0..n)
        .map(|i| {
            let y = if i == 0 { 0.0 } else { x[i - 1] };
            let t = times[i];
            curve.at(t) * (params.eta * y - 0.5 * params.eta * params.eta * t.powf(power)).exp()
        })
        .collect();
    let side = (1.0 - params.rho * params.rho).sqrt() * dt.sqrt();
    let dz = (0..n).map(|j| params.rho * x[n - 1 + j] + side * zperp[j]).collect();
    (v, dz)
}

fn params() -> HestonParams {
    HestonParams { v0: 0.04, kappa: 2.0, theta: 0.04, sigma: 0.3, rho: -0.7 }
}

fn small_cfg() -> McConfig {
    McConfig { n_paths: 60_000, n_steps: 100, seed: 7, antithetic: true, scheme: VarianceScheme::FullTruncationEuler }
}

#[test]
fn qe_reduces_bias_in_feller_violating_regime() {
    let p = HestonParams { v0: 0.04, kappa: 5.0, theta: 0.04, sigma: 1.2, rho: -0.7 };
    assert!(!p.feller_ok(), "test needs a genuinely Feller-violating case");
    let (s, k, t, r, q) = (100.0, 100.0, 1.0, 0.05, 0.0);
    let analytic = heston_price(s, k, t, r, q, &p, OptionType::Call);

    let cfg_euler = McConfig { n_paths: 200_000, n_steps: 8, seed: 42, antithetic: true, scheme: VarianceScheme::FullTruncationEuler };
    let cfg_qe    = McConfig { n_paths: 200_000, n_steps: 8, seed: 42, antithetic: true, scheme: VarianceScheme::QuadraticExponential };

    let euler = mc_heston(s, t, r, q, &p, Payoff::European { strike: k, opt_type: OptionType::Call }, &cfg_euler);
    let qe    = mc_heston(s, t, r, q, &p, Payoff::European { strike: k, opt_type: OptionType::Call }, &cfg_qe);

    let euler_err = (euler.price - analytic).abs();
    let qe_err    = (qe.price - analytic).abs();

    assert!(qe_err < euler_err / 5.0,
        "expected QE to cut the bias by at least 5x here: analytic={analytic:.4} euler_err={euler_err:.4} qe_err={qe_err:.4}");
    assert!(qe_err < 10.0 * qe.std_error.max(0.05),
        "QE error should be within noise of the analytic price, err={qe_err:.4} se={:.4}", qe.std_error);
}

#[test]
fn mc_heston_matches_analytic_european() {
    let p = params();
    let (s, k, t, r, q) = (100.0, 100.0, 1.0, 0.05, 0.0);
    let analytic = heston_price(s, k, t, r, q, &p, OptionType::Call);
    let mc = mc_heston(s, t, r, q, &p, Payoff::European { strike: k, opt_type: OptionType::Call }, &small_cfg());
    let z = (mc.price - analytic).abs() / mc.std_error;
    assert!(z < 4.0, "analytic={analytic:.4} mc={:.4} se={:.4} z={z:.2}", mc.price, mc.std_error);
}

#[test]
fn mc_heston_qe_matches_analytic_european() {
    let p = params();
    let (s, k, t, r, q) = (100.0, 100.0, 1.0, 0.05, 0.0);
    let analytic = heston_price(s, k, t, r, q, &p, OptionType::Call);
    let mut cfg = small_cfg();
    cfg.scheme = VarianceScheme::QuadraticExponential;
    let mc = mc_heston(s, t, r, q, &p, Payoff::European { strike: k, opt_type: OptionType::Call }, &cfg);
    let z = (mc.price - analytic).abs() / mc.std_error;
    assert!(z < 4.0, "analytic={analytic:.4} mc={:.4} se={:.4} z={z:.2}", mc.price, mc.std_error);
}

#[test]
fn mc_bates_matches_analytic_european() {
    let p = params();
    let (s, k, t, r, q) = (100.0, 100.0, 1.0, 0.05, 0.0);
    let (lambda, mu_j, sigma_j) = (0.5, -0.1, 0.15);
    let analytic = bates_price(
        s, k, t, r, q,
        &BatesParams { heston: p, lambda, mu_j, sigma_j },
        OptionType::Call,
    );
    let mc = mc_bates(s, t, r, q, &p, lambda, mu_j, sigma_j,
        Payoff::European { strike: k, opt_type: OptionType::Call }, &small_cfg());
    let z = (mc.price - analytic).abs() / mc.std_error;
    assert!(z < 4.0, "analytic={analytic:.4} mc={:.4} se={:.4} z={z:.2}", mc.price, mc.std_error);
}

#[test]
fn asian_call_cheaper_than_european() {
    let p = params();
    let (s, k, t, r, q) = (100.0, 100.0, 1.0, 0.05, 0.0);
    let euro  = mc_heston(s, t, r, q, &p, Payoff::European { strike: k, opt_type: OptionType::Call }, &small_cfg());
    let asian = mc_heston(s, t, r, q, &p, Payoff::AsianArithmetic { strike: k, opt_type: OptionType::Call }, &small_cfg());
    assert!(asian.price < euro.price, "asian={:.4} european={:.4}", asian.price, euro.price);
}

#[test]
fn up_and_out_cheaper_than_vanilla() {
    let p = params();
    let (s, k, t, r, q) = (100.0, 100.0, 1.0, 0.05, 0.0);
    let vanilla = mc_heston(s, t, r, q, &p, Payoff::European { strike: k, opt_type: OptionType::Call }, &small_cfg());
    let uao = mc_heston(s, t, r, q, &p,
        Payoff::UpAndOut { strike: k, barrier: 130.0, rebate: 0.0, opt_type: OptionType::Call }, &small_cfg());
    assert!(uao.price < vanilla.price, "uao={:.4} vanilla={:.4}", uao.price, vanilla.price);
    assert!(uao.price >= 0.0);
}

#[test]
fn poisson_sampler_matches_mean() {
    let mut rng = stream(1);
    let mean = 0.3;
    let n = 200_000;
    let total: u64 = (0..n).map(|_| sample_poisson(&mut rng, mean) as u64).sum();
    let empirical_mean = total as f64 / n as f64;
    assert!((empirical_mean - mean).abs() < 0.01, "empirical={empirical_mean:.4} target={mean}");
}

fn rbergomi_small_cfg() -> McConfig {
    McConfig { n_paths: 100_000, n_steps: 64, seed: 3, antithetic: true, scheme: VarianceScheme::FullTruncationEuler }
}

#[allow(clippy::too_many_arguments)]
fn mc_rough_bergomi_exact_reference(
    spot: f64, expiry: f64, rate: f64, div_yield: f64,
    params: &RoughBergomiParams, curve: &ForwardVarianceCurve,
    strikes: &[f64], opt_type: OptionType, n_steps: usize, n_paths: usize, seed: u64,
) -> Vec<(f64, f64)> {
    let dt = expiry / n_steps as f64;
    let times: Vec<f64> = (0..n_steps).map(|i| i as f64 * dt).collect();
    let alpha = params.alpha();
    let drift0 = rate - div_yield;

    let joint_cov = exact_joint_covariance(alpha, &times, dt);
    let joint_dim = 2 * n_steps - 1;
    let l_joint = cholesky_lower(&joint_cov, joint_dim)
        .expect("exact joint covariance should be positive definite");

    let mut rng = stream(seed);
    let normals: Vec<f64> = (0..n_paths * (joint_dim + 1 + n_steps) / 2)
        .flat_map(|_| {
            let (a, b) = box_muller(&mut rng);
            [a, b]
        })
        .collect();
    let per_path: Vec<Vec<f64>> = normals
        .par_chunks(joint_dim + 1 + n_steps)
        .map(|z| {
            let (v, dz) = simulate_price_exact(
                params, curve, &times, dt, &l_joint, &z[..joint_dim], &z[joint_dim + 1..],
            );
            strikes
                .iter()
                .map(|&strike| {
                    let payoff = Payoff::European { strike, opt_type };
                    run_rbergomi_path(spot, drift0, &v, &dz, dt, &payoff, rate, expiry)
                })
                .collect()
        })
        .collect();

    (0..strikes.len())
        .map(|k| {
            let (mut sum, mut sum_sq) = (0.0, 0.0);
            for p in &per_path {
                sum += p[k];
                sum_sq += p[k] * p[k];
            }
            let n_f = n_paths as f64;
            let mean = sum / n_f;
            let var = (sum_sq / n_f - mean * mean).max(0.0);
            (mean, (var / n_f).sqrt())
        })
        .collect()
}

#[test]
fn rbergomi_fast_scheme_matches_exact_covariance_reference() {
    let params = RoughBergomiParams { eta: 1.9, rho: -0.9, hurst: 0.07 };
    let curve = ForwardVarianceCurve::new(vec![1.0], vec![0.09]);
    let (spot, expiry, rate, div_yield) = (100.0, 0.25, 0.02, 0.0);
    let n_steps = 40;
    let n_paths = 200_000;

    let fast_cfg = McConfig { n_paths, n_steps, seed: 7, antithetic: true, scheme: VarianceScheme::FullTruncationEuler };

    let strikes = [90.0, 100.0, 110.0];
    let exact = mc_rough_bergomi_exact_reference(
        spot, expiry, rate, div_yield, &params, &curve,
        &strikes, OptionType::Call, n_steps, n_paths, 9);

    for (strike, (exact_price, exact_se)) in strikes.into_iter().zip(exact) {
        let fast = mc_rough_bergomi(spot, expiry, rate, div_yield, &params, &curve,
            Payoff::European { strike, opt_type: OptionType::Call }, &fast_cfg);

        let combined_se = (fast.std_error.powi(2) + exact_se.powi(2)).sqrt();
        let z = (fast.price - exact_price).abs() / combined_se;
        assert!(z < 4.0, "strike={strike} fast={:.4} exact={exact_price:.4} combined_se={combined_se:.4} z={z:.2}",
            fast.price);
    }
}

#[test]
fn rbergomi_short_maturity_skew_explodes_like_the_theory_predicts() {
    let params = RoughBergomiParams { eta: 1.9, rho: -0.9, hurst: 0.07 };
    let alpha = params.alpha();
    let curve = ForwardVarianceCurve::new(vec![1.0], vec![0.09]);
    let (spot, rate, div_yield) = (100.0, 0.0, 0.0);
    let h = 0.03_f64;

    let skew_at = |expiry: f64| -> f64 {
        let cfg = McConfig { n_paths: 300_000, n_steps: 32, seed: 13, antithetic: true, scheme: VarianceScheme::FullTruncationEuler };
        let k_lo = spot * (-h).exp();
        let k_hi = spot * h.exp();

        let price_lo = mc_rough_bergomi(spot, expiry, rate, div_yield, &params, &curve,
            Payoff::European { strike: k_lo, opt_type: OptionType::Call }, &cfg).price;
        let price_hi = mc_rough_bergomi(spot, expiry, rate, div_yield, &params, &curve,
            Payoff::European { strike: k_hi, opt_type: OptionType::Call }, &cfg).price;

        let iv_lo = implied_vol(&IvProblem {
            contract: OptionContract { spot, strike: k_lo, expiry, rate, div_yield, vol: 0.3, opt_type: OptionType::Call },
            market_price: price_lo,
        }).expect("price_lo should invert");
        let iv_hi = implied_vol(&IvProblem {
            contract: OptionContract { spot, strike: k_hi, expiry, rate, div_yield, vol: 0.3, opt_type: OptionType::Call },
            market_price: price_hi,
        }).expect("price_hi should invert");

        (iv_hi - iv_lo) / (2.0 * h)
    };

    let (t1, t2) = (0.02, 0.16);
    let skew1 = skew_at(t1).abs();
    let skew2 = skew_at(t2).abs();

    let predicted_ratio = (t1 / t2).powf(alpha);
    let actual_ratio = skew1 / skew2;

    assert!(actual_ratio > 1.3 && actual_ratio < predicted_ratio * 1.8,
        "skew({t1})={skew1:.4} skew({t2})={skew2:.4} actual_ratio={actual_ratio:.2} predicted_ratio={predicted_ratio:.2}");
}

#[test]
fn rbergomi_forward_is_a_martingale() {
    let params = RoughBergomiParams { eta: 1.9, rho: -0.9, hurst: 0.07 };
    let curve = ForwardVarianceCurve::new(vec![0.5, 1.0, 2.0], vec![0.2, 0.25, 0.22]);
    let (s, t, r, q) = (100.0, 0.5, 0.0, 0.0);

    let mc = mc_rough_bergomi(s, t, r, q, &params, &curve,
        Payoff::European { strike: 0.0, opt_type: OptionType::Call }, &rbergomi_small_cfg());

    let z = (mc.price - s).abs() / mc.std_error;
    assert!(z < 4.0, "price={:.4} spot={s} se={:.4} z={z:.2}", mc.price, mc.std_error);
}

#[test]
fn rbergomi_matches_black_scholes_when_vol_of_vol_is_tiny() {
    let params = RoughBergomiParams { eta: 0.001, rho: -0.9, hurst: 0.07 };
    let xi0 = 0.04;
    let curve = ForwardVarianceCurve::new(vec![2.0], vec![xi0]);
    let (s, k, t, r, q) = (100.0, 100.0, 1.0, 0.05, 0.0);

    let bs = bsm_price(&OptionContract {
        spot: s, strike: k, expiry: t, rate: r, div_yield: q,
        vol: xi0.sqrt(), opt_type: OptionType::Call,
    });

    let mc = mc_rough_bergomi(s, t, r, q, &params, &curve,
        Payoff::European { strike: k, opt_type: OptionType::Call }, &rbergomi_small_cfg());

    let z = (mc.price - bs).abs() / mc.std_error;
    assert!(z < 4.0, "bs={bs:.4} mc={:.4} se={:.4} z={z:.2}", mc.price, mc.std_error);
}

#[test]
fn rbergomi_asian_cheaper_than_european() {
    let params = RoughBergomiParams { eta: 1.9, rho: -0.9, hurst: 0.07 };
    let curve = ForwardVarianceCurve::new(vec![1.0], vec![0.09]);
    let (s, k, t, r, q) = (100.0, 100.0, 1.0, 0.05, 0.0);

    let euro = mc_rough_bergomi(s, t, r, q, &params, &curve,
        Payoff::European { strike: k, opt_type: OptionType::Call }, &rbergomi_small_cfg());
    let asian = mc_rough_bergomi(s, t, r, q, &params, &curve,
        Payoff::AsianArithmetic { strike: k, opt_type: OptionType::Call }, &rbergomi_small_cfg());

    assert!(asian.price < euro.price, "asian={:.4} european={:.4}", asian.price, euro.price);
}

#[test]
fn rbergomi_up_and_out_cheaper_than_vanilla() {
    let params = RoughBergomiParams { eta: 1.9, rho: -0.9, hurst: 0.07 };
    let curve = ForwardVarianceCurve::new(vec![1.0], vec![0.09]);
    let (s, k, t, r, q) = (100.0, 100.0, 1.0, 0.05, 0.0);

    let vanilla = mc_rough_bergomi(s, t, r, q, &params, &curve,
        Payoff::European { strike: k, opt_type: OptionType::Call }, &rbergomi_small_cfg());
    let uao = mc_rough_bergomi(s, t, r, q, &params, &curve,
        Payoff::UpAndOut { strike: k, barrier: 130.0, rebate: 0.0, opt_type: OptionType::Call }, &rbergomi_small_cfg());

    assert!(uao.price < vanilla.price, "uao={:.4} vanilla={:.4}", uao.price, vanilla.price);
    assert!(uao.price >= 0.0);
}

#[test]
fn rbergomi_asian_matches_heston_when_vol_of_vol_is_tiny() {
    let (s, k, t, r, q) = (100.0, 100.0, 1.0, 0.05, 0.0);
    let cfg = McConfig { n_paths: 100_000, n_steps: 64, seed: 11, antithetic: true, scheme: VarianceScheme::FullTruncationEuler };

    let rb_params = RoughBergomiParams { eta: 0.001, rho: -0.9, hurst: 0.07 };
    let curve = ForwardVarianceCurve::new(vec![2.0], vec![0.04]);
    let rb = mc_rough_bergomi(s, t, r, q, &rb_params, &curve,
        Payoff::AsianArithmetic { strike: k, opt_type: OptionType::Call }, &cfg);

    let heston_params = HestonParams { v0: 0.04, kappa: 2.0, theta: 0.04, sigma: 0.001, rho: -0.5 };
    let heston = mc_heston(s, t, r, q, &heston_params,
        Payoff::AsianArithmetic { strike: k, opt_type: OptionType::Call }, &cfg);

    let combined_se = (rb.std_error.powi(2) + heston.std_error.powi(2)).sqrt();
    let z = (rb.price - heston.price).abs() / combined_se;
    assert!(z < 4.0, "rbergomi={:.4} heston={:.4} se={combined_se:.4} z={z:.2}", rb.price, heston.price);
}

#[test]
fn rbergomi_up_and_out_matches_heston_when_vol_of_vol_is_tiny() {
    let (s, k, t, r, q) = (100.0, 100.0, 1.0, 0.05, 0.0);
    let cfg = McConfig { n_paths: 100_000, n_steps: 64, seed: 13, antithetic: true, scheme: VarianceScheme::FullTruncationEuler };

    let rb_params = RoughBergomiParams { eta: 0.001, rho: -0.9, hurst: 0.07 };
    let curve = ForwardVarianceCurve::new(vec![2.0], vec![0.04]);
    let rb = mc_rough_bergomi(s, t, r, q, &rb_params, &curve,
        Payoff::UpAndOut { strike: k, barrier: 130.0, rebate: 0.0, opt_type: OptionType::Call }, &cfg);

    let heston_params = HestonParams { v0: 0.04, kappa: 2.0, theta: 0.04, sigma: 0.001, rho: -0.5 };
    let heston = mc_heston(s, t, r, q, &heston_params,
        Payoff::UpAndOut { strike: k, barrier: 130.0, rebate: 0.0, opt_type: OptionType::Call }, &cfg);

    let combined_se = (rb.std_error.powi(2) + heston.std_error.powi(2)).sqrt();
    let z = (rb.price - heston.price).abs() / combined_se;
    assert!(z < 4.0, "rbergomi={:.4} heston={:.4} se={combined_se:.4} z={z:.2}", rb.price, heston.price);
}
