//! Exact values, and the inputs at which functions take another branch.
use options_pricing_engine::batch::{
    batch_bates, batch_bates_greeks, batch_bsm, batch_bsm_price, batch_heston, batch_heston_greeks,
    batch_implied_vol,
};
use options_pricing_engine::bsm::{bsm_price, bsm_price_and_greeks};
use options_pricing_engine::characteristic::JumpParams;
use options_pricing_engine::deribit_inverse::{greeks, implied_vol_coin, price_coin, CoinIvProblem};
use options_pricing_engine::evolution::draw_free;
use options_pricing_engine::heston::heston_price_and_greeks;
use options_pricing_engine::iv::{at_vol, implied_vol};
use options_pricing_engine::linalg::{jtj_and_grad, sum_squares, weighted_sse};
use options_pricing_engine::local_vol::dupire_local_vol;
use options_pricing_engine::math::ncdf_inv;
use options_pricing_engine::mc::{
    add_payoff, box_muller, chunk_range, draw_step, euler_step, merge, normal_pair, sample_poisson,
    summary, McConfig, PathSetup, Payoff, Tally, VarianceScheme,
};
use options_pricing_engine::model::{bates_bounds_ok, heston_bounds_ok};
use options_pricing_engine::number::{abs, clamp, fmax, fmin, ratio, Elementary};
use options_pricing_engine::random::{chunk_seed, RandomSource};
use options_pricing_engine::rbergomi::{hyp2f1, optimal_eval_point};
use options_pricing_engine::rough::{build_gamma, mc_rough_bergomi, rough_chunk, rough_setup};
use options_pricing_engine::select::{find_first_min, find_last_max};
use options_pricing_engine::solver::halley_step;
use options_pricing_engine::types::{
    BatesParams, ForwardVarianceCurve, HestonParams, IvProblem, LocalVolSurface, OptionContract,
    OptionType, PricingResult, RoughBergomiParams,
};
use rand::rngs::SmallRng;
use rand::{Rng, SeedableRng};

/// The powers of ten.
const POWERS: [f64; 17] = [
    1e0, 1e1, 1e2, 1e3, 1e4, 1e5, 1e6, 1e7, 1e8, 1e9, 1e10, 1e11, 1e12, 1e13, 1e14, 1e15, 1e16,
];

/// The elementary functions of double precision.
#[derive(Clone, Copy)]
struct F64;

impl Elementary<f64> for F64 {
    fn exp(&self, x: f64) -> f64 {
        x.exp()
    }
    fn ln(&self, x: f64) -> f64 {
        x.ln()
    }
    fn sqrt(&self, x: f64) -> f64 {
        x.sqrt()
    }
    fn sin(&self, x: f64) -> f64 {
        x.sin()
    }
    fn cos(&self, x: f64) -> f64 {
        x.cos()
    }
    fn atan2(&self, y: f64, x: f64) -> f64 {
        y.atan2(x)
    }
    fn hypot(&self, x: f64, y: f64) -> f64 {
        x.hypot(y)
    }
    fn powf(&self, x: f64, y: f64) -> f64 {
        x.powf(y)
    }
    fn erfc(&self, x: f64) -> f64 {
        libm::erfc(x)
    }
    fn is_finite(&self, x: f64) -> bool {
        x.is_finite()
    }
    fn is_sign_positive(&self, x: f64) -> bool {
        x.is_sign_positive()
    }
    fn infinity(&self) -> f64 {
        f64::INFINITY
    }
    fn rank(&self, x: f64) -> i64 {
        let bits = x.to_bits() as i64;
        bits ^ (((bits >> 63) as u64) >> 1) as i64
    }
    fn decimal(&self, mantissa: i64, exponent: i32) -> f64 {
        if mantissa.unsigned_abs() < 1 << 53 && -16 <= exponent && exponent <= 0 {
            mantissa as f64 / POWERS[exponent.unsigned_abs() as usize]
        } else if mantissa == 1 && exponent == -300 {
            1e-300
        } else {
            format!("{mantissa}e{exponent}").parse().unwrap()
        }
    }
    fn count(&self, n: usize) -> f64 {
        n as f64
    }
}

/// A stream of draws from a seeded generator.
struct Stream(SmallRng);

impl RandomSource<f64> for Stream {
    fn unit(mut self) -> (f64, Self) {
        (self.0.gen(), self)
    }
    fn positive_unit(mut self) -> (f64, Self) {
        (self.0.gen_range(1e-12..1.0), self)
    }
    fn within(mut self, lo: f64, hi: f64) -> (f64, Self) {
        (self.0.gen_range(lo..hi), self)
    }
    fn index(mut self, n: usize) -> (usize, Self) {
        (self.0.gen_range(0..n), self)
    }
}

fn stream(seed: u64) -> Stream {
    Stream(SmallRng::seed_from_u64(seed))
}

const CALL: OptionType = OptionType::Call;
const PUT: OptionType = OptionType::Put;

fn close(a: f64, b: f64, tol: f64) {
    assert!((a - b).abs() <= tol, "{a} is not within {tol} of {b}");
}

/// A source that plays back what it was given.
struct Script {
    units: Vec<f64>,
    indices: Vec<usize>,
}

impl RandomSource<f64> for Script {
    fn unit(mut self) -> (f64, Self) {
        (self.units.remove(0), self)
    }
    fn positive_unit(mut self) -> (f64, Self) {
        (self.units.remove(0), self)
    }
    fn within(mut self, lo: f64, hi: f64) -> (f64, Self) {
        (lo + (hi - lo) * self.units.remove(0), self)
    }
    fn index(mut self, _n: usize) -> (usize, Self) {
        (self.indices.remove(0), self)
    }
}

fn script(units: &[f64], indices: &[usize]) -> Script {
    Script { units: units.to_vec(), indices: indices.to_vec() }
}

#[test]
fn extremes_skip_what_is_undefined() {
    assert_eq!(fmax(1.0, 2.0), 2.0);
    assert_eq!(fmin(1.0, 2.0), 1.0);
    assert_eq!(fmax(f64::NAN, 2.0), 2.0);
    assert_eq!(fmax(2.0, f64::NAN), 2.0);
    assert_eq!(fmin(f64::NAN, 2.0), 2.0);
    assert_eq!(clamp(5.0, 0.0, 1.0), 1.0);
    assert_eq!(clamp(-5.0, 0.0, 1.0), 0.0);
    assert_eq!(clamp(0.5, 0.0, 1.0), 0.5);
    assert_eq!(abs(-2.5), 2.5);
    assert_eq!(ratio::<f64>(1, 4), 0.25);
}

#[test]
fn ties_go_to_the_last_largest_and_the_first_smallest() {
    assert_eq!(find_last_max(&vec![3, 7, 7, 1]), 2);
    assert_eq!(find_first_min(&vec![3, 1, 7, 1]), 1);
    assert_eq!(find_last_max(&vec![5]), 0);
}

#[test]
fn uniforms_become_normals() {
    let (a, b) = normal_pair(F64, (-0.5f64).exp(), 0.0);
    close(a, 1.0, 1e-15);
    close(b, 0.0, 1e-15);
    let ((a, b), rest) = box_muller(F64, script(&[(-2.0f64).exp(), 0.25, 0.5], &[]));
    close(a, 0.0, 1e-15);
    close(b, 2.0, 1e-15);
    assert_eq!(rest.units, vec![0.5]);
}

#[test]
fn poisson_counts_the_uniforms() {
    assert_eq!(sample_poisson(F64, script(&[], &[]), 0.0).0, 0);
    assert_eq!(sample_poisson(F64, script(&[], &[]), -1.0).0, 0);
    assert_eq!(sample_poisson(F64, script(&[0.1], &[]), 1.0).0, 0);
    let (n, rest) = sample_poisson(F64, script(&[0.9, 0.8, 0.1, 0.7], &[]), 1.0);
    assert_eq!(n, 2);
    assert_eq!(rest.units, vec![0.7]);
}

#[test]
fn a_step_adds_up_its_jumps() {
    let j = JumpParams { lambda: 2.0, mu_j: -0.1, sigma_j: 0.2 };
    let e = (-0.5f64).exp();
    let (d, _) = draw_step(F64, script(&[e, 0.0, 0.9, 0.8, 0.1, e, 0.0], &[]), Some(j), 0.5);
    close(d.za, 1.0, 1e-15);
    close(d.zb, 0.0, 1e-15);
    close(d.jump_sum, -0.2 + 0.2 * 2f64.sqrt(), 1e-15);
    let (none, _) = draw_step(F64, script(&[e, 0.0, 0.1], &[]), Some(j), 0.5);
    assert_eq!(none.jump_sum, 0.0);
    let (off, _) = draw_step(F64, script(&[e, 0.0], &[]), None, 0.5);
    assert_eq!(off.jump_sum, 0.0);
}

#[test]
fn donors_are_drawn_until_one_is_free() {
    let (i, rest) = draw_free::<f64, Script>(script(&[], &[1, 9, 1, 2, 0]), 4, &vec![1, 3]);
    assert_eq!(i, 2);
    assert_eq!(rest.indices, vec![0]);
}

#[test]
fn default_configuration() {
    let cfg = McConfig::default();
    assert_eq!((cfg.n_paths, cfg.n_steps, cfg.seed), (200_000, 252, 0xC0FFEE));
    assert!(cfg.antithetic);
    assert_eq!(cfg.scheme, VarianceScheme::FullTruncationEuler);
}

#[test]
fn euler_step_cuts_variance_off_at_zero() {
    let hp = HestonParams { v0: 0.04, kappa: 2.0, theta: 0.05, sigma: 0.3, rho: 0.0 };
    let setup = PathSetup {
        spot: 100.0,
        drift: 0.03,
        hp,
        dt: 0.25,
        sqdt: 0.5,
        scheme: VarianceScheme::FullTruncationEuler,
    };
    let (ln_s, v) = euler_step(F64, &setup, 1.0, 0.04, 1.0, 2.0, 0.1);
    close(ln_s, 1.0 + (0.03 - 0.02) * 0.25 + 0.2 * 0.5 + 0.1, 1e-15);
    close(v, 0.04 + 2.0 * 0.01 * 0.25 + 0.3 * 0.2 * 0.5 * 2.0, 1e-15);
    let (_, v) = euler_step(F64, &setup, 1.0, 0.04, 1.0, -9.0, 0.0);
    assert_eq!(v, 0.0);
}

#[test]
fn exact_values_of_the_closed_form() {
    let c = OptionContract {
        spot: 100.0,
        strike: 100.0,
        expiry: 1.0,
        rate: 0.05,
        div_yield: 0.0,
        vol: 0.2,
        opt_type: CALL,
    };
    let g = bsm_price_and_greeks(F64, &c);
    close(g.price, 10.450583572185565, 1e-12);
    close(g.delta, 0.6368306511756191, 1e-13);
    close(g.gamma, 0.018762017345846895, 1e-14);
    close(g.vega, 37.52403469169379, 1e-11);
    close(g.theta, -6.414027546438197, 1e-11);
    close(g.rho, 53.232481545376345, 1e-11);
}

#[test]
fn prices_outside_their_bounds_have_no_volatility() {
    let c = OptionContract {
        spot: 100.0,
        strike: 80.0,
        expiry: 1.0,
        rate: 0.0,
        div_yield: 0.0,
        vol: 0.0,
        opt_type: CALL,
    };
    let at = |price: f64| implied_vol(F64, &IvProblem { contract: c, market_price: price });
    assert!(at(0.0).is_none());
    assert!(at(-1.0).is_none());
    assert!(at(19.99).is_none());
    assert!(at(100.5).is_none());
    assert!(at(f64::NAN).is_none());
    let v = at(25.0).unwrap();
    assert!(v > 0.0);
    close(bsm_price(F64, &at_vol(&c, v)), 25.0, 1e-6);
}

#[test]
fn coin_prices_outside_their_bounds_have_no_volatility() {
    let at = |opt_type: OptionType, price: f64| {
        implied_vol_coin(
            F64,
            &CoinIvProblem {
                forward: 100.0,
                strike: 80.0,
                expiry: 0.5,
                opt_type,
                market_price_coin: price,
            },
        )
    };
    assert!(at(CALL, 0.0).is_none());
    assert!(at(CALL, 0.19).is_none());
    assert!(at(CALL, 1.0).is_none());
    assert!(at(PUT, -0.1).is_none());
    let v = at(CALL, 0.3).unwrap();
    close(price_coin(F64, CALL, 100.0, 80.0, v, 0.5), 0.3, 1e-6);
}

#[test]
fn expired_coin_options_have_no_sensitivities() {
    let g = greeks(F64, PUT, 100.0, 125.0, 0.5, 0.0);
    assert_eq!(g.price_coin, 0.25);
    assert_eq!((g.delta, g.gamma, g.vega, g.theta, g.vanna, g.volga), (0.0, 0.0, 0.0, 0.0, 0.0, 0.0));
}

#[test]
fn hypergeometric_series_of_a_logarithm() {
    close(hyp2f1(F64, 1.0, 1.0, 2.0, 0.5), 2.0 * 2f64.ln(), 1e-13);
    assert_eq!(hyp2f1(F64, 0.3, 0.7, 1.1, 0.0), 1.0);
}

#[test]
fn evaluation_points_lie_in_their_cells() {
    for k in 2..20usize {
        let b = optimal_eval_point(F64, -0.43, k);
        assert!((k - 1) as f64 <= b && b <= k as f64);
    }
    let gamma = build_gamma(F64, -0.43, 5, 50.0);
    assert_eq!(gamma.len(), 5);
    assert_eq!((gamma[0], gamma[1], gamma[2]), (0.0, 0.0, 0.0));
    assert!(gamma[3] > gamma[4] && gamma[4] > 0.0);
}

#[test]
fn rough_simulation_is_the_merge_of_its_chunks() {
    let params = RoughBergomiParams { eta: 1.5, rho: -0.8, hurst: 0.1 };
    let curve = ForwardVarianceCurve::new(vec![1.0], vec![0.04]);
    let cfg = McConfig {
        n_paths: 60,
        n_steps: 8,
        seed: 5,
        antithetic: true,
        scheme: VarianceScheme::FullTruncationEuler,
    };
    let payoff = Payoff::European { strike: 100.0, opt_type: CALL };
    let whole = mc_rough_bergomi(
        F64, stream, 100.0, 0.5, 0.02, 0.01, &params, &curve, payoff, &cfg, 4,
    );
    let setup = rough_setup(F64, &params, &curve, 0.5, 8).unwrap();
    let mut all = Tally { sum: 0.0, sum_sq: 0.0, count: 0 };
    for i in 0..4 {
        let (a, b) = chunk_range(30, 4, i);
        let src = stream(chunk_seed(5, i as u64));
        let (t, _) = rough_chunk(
            F64, src, &setup, 100.0, 0.02 - 0.01, &payoff, 0.02, 0.5, b - a, 8, true,
        );
        all = merge(all, t);
    }
    let parts = summary(F64, all);
    assert_eq!((whole.price, whole.std_error), (parts.price, parts.std_error));
}

#[test]
fn a_tally_gives_mean_and_standard_error() {
    let mut t = Tally { sum: 0.0, sum_sq: 0.0, count: 0 };
    for x in [1.0, 2.0, 3.0, 6.0] {
        t = add_payoff(t, x);
    }
    let s = summary(F64, t);
    assert_eq!((t.sum, t.sum_sq, t.count), (12.0, 50.0, 4));
    assert_eq!(s.price, 3.0);
    close(s.std_error, (3.5f64 / 4.0).sqrt(), 1e-15);
}

#[test]
fn batches_match_single_calls() {
    let chain: Vec<OptionContract<f64>> = [90.0, 100.0, 110.0]
        .iter()
        .map(|&strike| OptionContract {
            spot: 100.0,
            strike,
            expiry: 0.5,
            rate: 0.02,
            div_yield: 0.0,
            vol: 0.25,
            opt_type: PUT,
        })
        .collect();
    let h = HestonParams { v0: 0.04, kappa: 2.0, theta: 0.05, sigma: 0.3, rho: -0.6 };
    let b = BatesParams { heston: h, lambda: 0.3, mu_j: -0.1, sigma_j: 0.1 };
    let prices = batch_bsm_price(F64, &chain);
    let greeks = batch_bsm(F64, &chain);
    let ivs = batch_implied_vol(F64, &chain, &prices);
    let hg = batch_heston_greeks(F64, &chain, &h);
    let bg = batch_bates_greeks(F64, &chain, &b);
    let hp = batch_heston(F64, &chain, &h);
    let bp = batch_bates(F64, &chain, &b);
    for (i, c) in chain.iter().enumerate() {
        assert_eq!(prices[i], bsm_price(F64, c));
        assert_eq!(greeks[i].delta, bsm_price_and_greeks(F64, c).delta);
        close(ivs[i].unwrap(), 0.25, 1e-6);
        assert_eq!(hg[i].price, hp[i]);
        assert_eq!(bg[i].price, bp[i]);
        let one = heston_price_and_greeks(F64, 100.0, c.strike, 0.5, 0.02, 0.0, &h, PUT);
        assert_eq!(hg[i].vega, one.vega);
    }
    assert!(batch_bsm(F64, &Vec::new()).is_empty());
}

#[test]
fn bounds_refuse_what_may_not_be_used() {
    let ok = HestonParams { v0: 0.04, kappa: 2.0, theta: 0.05, sigma: 0.3, rho: -0.6 };
    assert!(heston_bounds_ok(F64, &ok));
    assert!(!heston_bounds_ok(F64, &HestonParams { sigma: 0.9, ..ok }));
    assert!(!heston_bounds_ok(F64, &HestonParams { v0: 0.0, ..ok }));
    assert!(!heston_bounds_ok(F64, &HestonParams { rho: -1.0, ..ok }));
    let b = BatesParams { heston: ok, lambda: 0.5, mu_j: -0.1, sigma_j: 0.1 };
    assert!(bates_bounds_ok(F64, &b));
    assert!(!bates_bounds_ok(F64, &BatesParams { lambda: -0.1, ..b }));
    assert!(!bates_bounds_ok(F64, &BatesParams { mu_j: -2.5, ..b }));
    assert!(!bates_bounds_ok(F64, &BatesParams { sigma_j: 0.0, ..b }));
    assert!(ok.feller_ok());
    assert!(!HestonParams { sigma: 0.9, ..ok }.feller_ok());
}

#[test]
fn weighted_sums() {
    assert_eq!(weighted_sse(&vec![1.0, -2.0], &vec![3.0, 0.5]), 10.0);
    assert_eq!(sum_squares(&vec![3.0, 4.0]), 25.0);
    let (jtj, grad) = jtj_and_grad(
        &vec![vec![1.0, 2.0], vec![0.0, 1.0]],
        &vec![1.0, 2.0],
        &vec![1.0, 2.0],
        2,
    );
    assert_eq!(jtj, vec![vec![1.0, 2.0], vec![2.0, 8.0]]);
    assert_eq!(grad, vec![1.0, 10.0]);
}

#[test]
fn halley_steps_stay_above_zero() {
    assert_eq!(halley_step(F64, 0.2, 1.0, 1.0, 0.0), 1e-8);
    assert_eq!(halley_step(F64, 2.0, 1.0, 1.0, 0.0), 1.0);
    assert_eq!(halley_step(F64, 2.0, 1.0, 1.0, 2.0), 0.0f64.max(1e-8));
}

#[test]
fn quantiles_of_the_normal_distribution() {
    close(ncdf_inv(F64, 0.5), 0.0, 1e-12);
    close(ncdf_inv(F64, 0.975), 1.959963984540054, 1e-7);
    close(ncdf_inv(F64, 0.001), -3.090232306167813, 1e-7);
    close(ncdf_inv(F64, 0.999), 3.090232306167813, 1e-7);
}

#[test]
fn a_single_expiry_has_no_local_volatility() {
    let surf = LocalVolSurface::new(vec![90.0, 100.0, 110.0], vec![1.0], vec![0.2; 3]);
    assert_eq!(dupire_local_vol(F64, &surf, 100.0, 0.0, 0.0, 1, 0), 0.0);
    assert_eq!(PricingResult::<f64>::zero().price, 0.0);
}
