//! Inverse options.
#![allow(dead_code)]
use options_pricing_engine::Elementary;
use options_pricing_engine::McConfig;
use options_pricing_engine::OptionType;
use options_pricing_engine::RandomSource;
use options_pricing_engine::VarianceScheme;
use options_pricing_engine::mc::{merge, summary, Tally};
use options_pricing_engine::random::chunk_seed;
use rand::rngs::SmallRng;
use rand::{Rng, SeedableRng};
use rayon::iter::{IntoParallelIterator, ParallelIterator};
use rayon::slice::ParallelSlice;

type HestonParams = options_pricing_engine::types::HestonParams<f64>;
type Payoff = options_pricing_engine::mc::Payoff<f64>;
type McResult = options_pricing_engine::mc::McResult<f64>;
type CoinIvProblem = options_pricing_engine::deribit_inverse::CoinIvProblem<f64>;
type InverseGreeks = options_pricing_engine::deribit_inverse::InverseGreeks<f64>;
type RoughBergomiParams = options_pricing_engine::types::RoughBergomiParams<f64>;
type ForwardVarianceCurve = options_pricing_engine::types::ForwardVarianceCurve<f64>;

/// The powers of ten.
const POWERS: [f64; 17] = [
    1e0, 1e1, 1e2, 1e3, 1e4, 1e5, 1e6, 1e7, 1e8, 1e9, 1e10, 1e11, 1e12, 1e13, 1e14, 1e15, 1e16,
];

/// The elementary functions of double precision.
#[derive(Clone, Copy)]
struct F64;

impl Elementary<f64> for F64 {
    fn exp(&self, x: f64) -> f64 {
        x.exp()
    }
    fn ln(&self, x: f64) -> f64 {
        x.ln()
    }
    fn sqrt(&self, x: f64) -> f64 {
        x.sqrt()
    }
    fn sin(&self, x: f64) -> f64 {
        x.sin()
    }
    fn cos(&self, x: f64) -> f64 {
        x.cos()
    }
    fn atan2(&self, y: f64, x: f64) -> f64 {
        y.atan2(x)
    }
    fn hypot(&self, x: f64, y: f64) -> f64 {
        x.hypot(y)
    }
    fn powf(&self, x: f64, y: f64) -> f64 {
        x.powf(y)
    }
    fn erfc(&self, x: f64) -> f64 {
        libm::erfc(x)
    }
    fn is_finite(&self, x: f64) -> bool {
        x.is_finite()
    }
    fn is_sign_positive(&self, x: f64) -> bool {
        x.is_sign_positive()
    }
    fn infinity(&self) -> f64 {
        f64::INFINITY
    }
    fn rank(&self, x: f64) -> i64 {
        let bits = x.to_bits() as i64;
        bits ^ (((bits >> 63) as u64) >> 1) as i64
    }
    fn decimal(&self, mantissa: i64, exponent: i32) -> f64 {
        if mantissa.unsigned_abs() < 1 << 53 && -16 <= exponent && exponent <= 0 {
            mantissa as f64 / POWERS[exponent.unsigned_abs() as usize]
        } else if mantissa == 1 && exponent == -300 {
            1e-300
        } else {
            format!("{mantissa}e{exponent}").parse().unwrap()
        }
    }
    fn count(&self, n: usize) -> f64 {
        n as f64
    }
}

/// A stream of draws from a seeded generator.
struct Stream(SmallRng);

impl RandomSource<f64> for Stream {
    fn unit(mut self) -> (f64, Self) {
        (self.0.gen(), self)
    }
    fn positive_unit(mut self) -> (f64, Self) {
        (self.0.gen_range(1e-12..1.0), self)
    }
    fn within(mut self, lo: f64, hi: f64) -> (f64, Self) {
        (self.0.gen_range(lo..hi), self)
    }
    fn index(mut self, n: usize) -> (usize, Self) {
        (self.0.gen_range(0..n), self)
    }
}

fn stream(seed: u64) -> Stream {
    Stream(SmallRng::seed_from_u64(seed))
}

fn price_coin(opt_type: OptionType, forward: f64, strike: f64, vol: f64, t: f64) -> f64 {
    options_pricing_engine::deribit_inverse::price_coin(F64, opt_type, forward, strike, vol, t)
}

fn greeks(opt_type: OptionType, forward: f64, strike: f64, vol: f64, t: f64) -> InverseGreeks {
    options_pricing_engine::deribit_inverse::greeks(F64, opt_type, forward, strike, vol, t)
}

fn implied_vol_coin(p: &CoinIvProblem) -> Option<f64> {
    options_pricing_engine::deribit_inverse::implied_vol_coin(F64, p)
}

fn mc_result_to_coin(r: McResult, spot: f64, div_yield: f64, expiry: f64) -> McResult {
    options_pricing_engine::deribit_inverse::mc_result_to_coin(F64, r, spot, div_yield, expiry)
}

/// Chunks of a simulation.
const CHUNKS: usize = 8;

#[allow(clippy::too_many_arguments)]
fn mc_heston(
    spot: f64,
    expiry: f64,
    rate: f64,
    div_yield: f64,
    params: &HestonParams,
    payoff: Payoff,
    cfg: &McConfig,
) -> McResult {
    options_pricing_engine::mc_heston(F64, stream, spot, expiry, rate, div_yield, params, payoff, cfg, CHUNKS)
}

/// The simulation with its chunks handed out to threads.
#[allow(clippy::too_many_arguments)]
fn mc_rough_bergomi(
    spot: f64,
    expiry: f64,
    rate: f64,
    div_yield: f64,
    params: &RoughBergomiParams,
    curve: &ForwardVarianceCurve,
    payoff: Payoff,
    cfg: &McConfig,
) -> McResult {
    let setup = options_pricing_engine::rough::rough_setup(F64, params, curve, expiry, cfg.n_steps).unwrap();
    let n_pairs = cfg.n_paths / if cfg.antithetic { 2 } else { 1 };
    let tallies: Vec<Tally<f64>> = (0..CHUNKS)
        .into_par_iter()
        .map(|i| {
            let (start, end) = options_pricing_engine::mc::chunk_range(n_pairs, CHUNKS, i);
            options_pricing_engine::rough::rough_chunk(
                F64,
                stream(chunk_seed(cfg.seed, i as u64)),
                &setup,
                spot,
                rate - div_yield,
                &payoff,
                rate,
                expiry,
                end - start,
                cfg.n_steps,
                cfg.antithetic,
            )
            .0
        })
        .collect();
    let none = Tally { sum: 0.0, sum_sq: 0.0, count: 0 };
    summary(F64, tallies.into_iter().fold(none, merge))
}

fn coin_iv_roundtrip(forward: f64, strike: f64, vol: f64, t: f64, opt_type: OptionType) {
    let price = price_coin(opt_type, forward, strike, vol, t);
    let iv = implied_vol_coin(&CoinIvProblem { forward, strike, expiry: t, opt_type, market_price_coin: price })
        .unwrap_or_else(|| panic!("solver bailed on vol={vol}"));
    assert!((iv - vol).abs() < 1e-7, "got {iv:.8} expected {vol}");
}

#[test]
fn coin_iv_roundtrip_atm() {
    coin_iv_roundtrip(65000.0, 65000.0, 0.6, 30.0 / 365.0, OptionType::Call);
    coin_iv_roundtrip(65000.0, 65000.0, 0.6, 30.0 / 365.0, OptionType::Put);
}

#[test]
fn coin_iv_roundtrip_otm_and_itm() {
    coin_iv_roundtrip(65000.0, 75000.0, 0.7, 14.0 / 365.0, OptionType::Call);
    coin_iv_roundtrip(65000.0, 55000.0, 0.7, 14.0 / 365.0, OptionType::Call);
    coin_iv_roundtrip(65000.0, 55000.0, 0.9, 90.0 / 365.0, OptionType::Put);
}

#[test]
fn coin_iv_roundtrip_deep_itm_put() {

    coin_iv_roundtrip(30000.0, 90000.0, 0.8, 180.0 / 365.0, OptionType::Put);
}

#[test]
fn coin_iv_roundtrip_low_vol() {
    coin_iv_roundtrip(65000.0, 65000.0, 0.15, 7.0 / 365.0, OptionType::Call);
}

#[test]
fn coin_iv_rejects_bad_price() {
    let base = CoinIvProblem { forward: 65000.0, strike: 65000.0, expiry: 30.0 / 365.0, opt_type: OptionType::Call, market_price_coin: -1.0 };
    assert!(implied_vol_coin(&base).is_none());
}

#[test]
fn coin_iv_rejects_call_priced_at_or_above_one() {

    for bad_price in [1.0, 1.5, 100.0] {
        let p = CoinIvProblem { forward: 65000.0, strike: 65000.0, expiry: 30.0 / 365.0, opt_type: OptionType::Call, market_price_coin: bad_price };
        assert!(implied_vol_coin(&p).is_none(), "should reject call price {bad_price}");
    }
}

#[test]
fn coin_iv_accepts_put_priced_above_one() {

    coin_iv_roundtrip(30000.0, 90000.0, 0.8, 180.0 / 365.0, OptionType::Put);
}

#[test]
fn coin_iv_rejects_price_below_intrinsic() {

    let p = CoinIvProblem { forward: 65000.0, strike: 60000.0, expiry: 30.0 / 365.0, opt_type: OptionType::Call, market_price_coin: 0.01 };
    assert!(implied_vol_coin(&p).is_none());
}

#[test]
fn coin_iv_near_zero_vega_returns_a_self_consistent_root_not_necessarily_the_generating_one() {
    let (forward, strike, t) = (1000.0, 60000.0, 30.0 / 365.0);
    let price = price_coin(OptionType::Put, forward, strike, 0.8, t);
    if let Some(v) = implied_vol_coin(&CoinIvProblem { forward, strike, expiry: t, opt_type: OptionType::Put, market_price_coin: price }) {
        let repriced = price_coin(OptionType::Put, forward, strike, v, t);
        assert!((repriced - price).abs() < 1e-6, "solver returned vol={v} which reprices to {repriced}, not {price}");
    }

}

fn fd_delta(opt_type: OptionType, forward: f64, strike: f64, vol: f64, t: f64) -> f64 {
    let eps = forward * 1e-6;
    let up = price_coin(opt_type, forward + eps, strike, vol, t);
    let down = price_coin(opt_type, forward - eps, strike, vol, t);
    (up - down) / (2.0 * eps)
}

fn fd_gamma(opt_type: OptionType, forward: f64, strike: f64, vol: f64, t: f64) -> f64 {
    let eps = forward * 1e-4;
    let up = price_coin(opt_type, forward + eps, strike, vol, t);
    let mid = price_coin(opt_type, forward, strike, vol, t);
    let down = price_coin(opt_type, forward - eps, strike, vol, t);
    (up - 2.0 * mid + down) / (eps * eps)
}

fn fd_vega(opt_type: OptionType, forward: f64, strike: f64, vol: f64, t: f64) -> f64 {
    let eps = 1e-6;
    let up = price_coin(opt_type, forward, strike, vol + eps, t);
    let down = price_coin(opt_type, forward, strike, vol - eps, t);
    (up - down) / (2.0 * eps)
}

fn fd_theta(opt_type: OptionType, forward: f64, strike: f64, vol: f64, t: f64) -> f64 {
    let eps = t * 1e-6;
    let up = price_coin(opt_type, forward, strike, vol, t + eps);
    let down = price_coin(opt_type, forward, strike, vol, t - eps);
    -(up - down) / (2.0 * eps)
}

fn fd_vanna_via_delta(opt_type: OptionType, forward: f64, strike: f64, vol: f64, t: f64) -> f64 {
    let eps = 1e-6;
    let up = greeks(opt_type, forward, strike, vol + eps, t).delta;
    let down = greeks(opt_type, forward, strike, vol - eps, t).delta;
    (up - down) / (2.0 * eps)
}

fn fd_vanna_via_vega(opt_type: OptionType, forward: f64, strike: f64, vol: f64, t: f64) -> f64 {
    let eps = forward * 1e-6;
    let up = greeks(opt_type, forward + eps, strike, vol, t).vega;
    let down = greeks(opt_type, forward - eps, strike, vol, t).vega;
    (up - down) / (2.0 * eps)
}

fn fd_volga(opt_type: OptionType, forward: f64, strike: f64, vol: f64, t: f64) -> f64 {
    let eps = 1e-6;
    let up = greeks(opt_type, forward, strike, vol + eps, t).vega;
    let down = greeks(opt_type, forward, strike, vol - eps, t).vega;
    (up - down) / (2.0 * eps)
}

#[test]
fn put_call_parity_holds_in_coin_terms() {
    let (forward, strike, vol, t) = (65000.0, 68000.0, 0.6, 30.0 / 365.0);
    let call = price_coin(OptionType::Call, forward, strike, vol, t);
    let put = price_coin(OptionType::Put, forward, strike, vol, t);
    let expected = 1.0 - strike / forward;
    assert!((call - put - expected).abs() < 1e-12, "call={call} put={put} expected={expected}");
}

#[test]
fn analytic_delta_matches_finite_difference() {
    for (forward, strike) in [(65000.0, 65000.0), (65000.0, 70000.0), (65000.0, 55000.0)] {
        let (vol, t) = (0.65, 14.0 / 365.0);
        for opt_type in [OptionType::Call, OptionType::Put] {
            let analytic = greeks(opt_type, forward, strike, vol, t).delta;
            let fd = fd_delta(opt_type, forward, strike, vol, t);
            let rel_diff = (analytic - fd).abs() / fd.abs().max(1e-12);
            assert!(rel_diff < 1e-4, "{opt_type:?} F={forward} K={strike} analytic={analytic} fd={fd}");
        }
    }
}

#[test]
fn analytic_gamma_matches_finite_difference() {
    for (forward, strike) in [(65000.0, 65000.0), (65000.0, 70000.0), (65000.0, 55000.0)] {
        let (vol, t) = (0.65, 14.0 / 365.0);
        for opt_type in [OptionType::Call, OptionType::Put] {
            let analytic = greeks(opt_type, forward, strike, vol, t).gamma;
            let fd = fd_gamma(opt_type, forward, strike, vol, t);
            let rel_diff = (analytic - fd).abs() / fd.abs().max(1e-12);
            assert!(rel_diff < 1e-2, "{opt_type:?} F={forward} K={strike} analytic={analytic} fd={fd}");
        }
    }
}

#[test]
fn analytic_vega_matches_finite_difference() {
    for opt_type in [OptionType::Call, OptionType::Put] {
        let (forward, strike, vol, t) = (65000.0, 68000.0, 0.6, 30.0 / 365.0);
        let analytic = greeks(opt_type, forward, strike, vol, t).vega;
        let fd = fd_vega(opt_type, forward, strike, vol, t);
        let rel_diff = (analytic - fd).abs() / fd.abs().max(1e-12);
        assert!(rel_diff < 1e-4, "{opt_type:?} analytic={analytic} fd={fd}");
    }
}

#[test]
fn coin_delta_is_orders_of_magnitude_smaller_than_a_direct_option_delta() {

    let forward = 65000.0;
    let d = greeks(OptionType::Call, forward, forward, 0.6, 30.0 / 365.0).delta;
    assert!(d > 0.0 && d < 1.0 / forward, "coin delta {d} should be well under 1/F");
}

#[test]
fn analytic_theta_matches_finite_difference() {
    for opt_type in [OptionType::Call, OptionType::Put] {
        let (forward, strike, vol, t) = (65000.0, 68000.0, 0.6, 30.0 / 365.0);
        let analytic = greeks(opt_type, forward, strike, vol, t).theta;
        let fd = fd_theta(opt_type, forward, strike, vol, t);
        let rel_diff = (analytic - fd).abs() / fd.abs().max(1e-12);
        assert!(rel_diff < 1e-4, "{opt_type:?} analytic={analytic} fd={fd}");
    }
}

#[test]
fn theta_is_negative_for_a_long_option() {
    let theta = greeks(OptionType::Call, 65000.0, 65000.0, 0.6, 14.0 / 365.0).theta;
    assert!(theta < 0.0, "long option should decay in value as T shrinks, got {theta}");
}

#[test]
fn call_and_put_theta_are_equal() {

    let (forward, strike, vol, t) = (65000.0, 62000.0, 0.7, 45.0 / 365.0);
    let call_theta = greeks(OptionType::Call, forward, strike, vol, t).theta;
    let put_theta = greeks(OptionType::Put, forward, strike, vol, t).theta;
    assert!((call_theta - put_theta).abs() < 1e-10);
}

#[test]
fn vanna_matches_finite_difference_both_ways() {
    for opt_type in [OptionType::Call, OptionType::Put] {
        let (forward, strike, vol, t) = (65000.0, 68000.0, 0.6, 30.0 / 365.0);
        let analytic = greeks(opt_type, forward, strike, vol, t).vanna;
        let via_delta = fd_vanna_via_delta(opt_type, forward, strike, vol, t);
        let via_vega = fd_vanna_via_vega(opt_type, forward, strike, vol, t);
        assert!((analytic - via_delta).abs() / via_delta.abs().max(1e-12) < 1e-4,
            "{opt_type:?} analytic={analytic} via_delta={via_delta}");
        assert!((analytic - via_vega).abs() / via_vega.abs().max(1e-12) < 1e-4,
            "{opt_type:?} analytic={analytic} via_vega={via_vega}");
    }
}

#[test]
fn volga_matches_finite_difference() {
    for opt_type in [OptionType::Call, OptionType::Put] {
        let (forward, strike, vol, t) = (65000.0, 68000.0, 0.6, 30.0 / 365.0);
        let analytic = greeks(opt_type, forward, strike, vol, t).volga;
        let fd = fd_volga(opt_type, forward, strike, vol, t);
        let rel_diff = (analytic - fd).abs() / fd.abs().max(1e-12);
        assert!(rel_diff < 1e-4, "{opt_type:?} analytic={analytic} fd={fd}");
    }
}

#[test]
fn call_and_put_vanna_and_volga_are_equal() {

    let (forward, strike, vol, t) = (65000.0, 62000.0, 0.7, 45.0 / 365.0);
    let call = greeks(OptionType::Call, forward, strike, vol, t);
    let put = greeks(OptionType::Put, forward, strike, vol, t);
    assert!((call.vanna - put.vanna).abs() < 1e-10);
    assert!((call.volga - put.volga).abs() < 1e-10);
}

#[test]
fn vanna_and_volga_are_zero_at_or_past_expiry() {
    let g = greeks(OptionType::Call, 65000.0, 65000.0, 0.6, 0.0);
    assert_eq!(g.vanna, 0.0);
    assert_eq!(g.volga, 0.0);
}

#[test]
fn call_and_put_vega_are_equal() {
    let (forward, strike, vol, t) = (65000.0, 62000.0, 0.7, 45.0 / 365.0);
    let call_vega = greeks(OptionType::Call, forward, strike, vol, t).vega;
    let put_vega = greeks(OptionType::Put, forward, strike, vol, t).vega;
    assert!((call_vega - put_vega).abs() < 1e-10);
}

#[test]
fn at_expiry_price_is_intrinsic_in_coin_terms() {
    let forward = 65000.0;
    let itm_call = price_coin(OptionType::Call, forward, 60000.0, 0.6, 0.0);
    assert!((itm_call - (forward - 60000.0) / forward).abs() < 1e-12);
    let otm_call = price_coin(OptionType::Call, forward, 70000.0, 0.6, 0.0);
    assert_eq!(otm_call, 0.0);
}

#[test]
fn rbergomi_rescale_matches_closed_form_when_vol_of_vol_is_tiny() {

    let params = RoughBergomiParams { eta: 0.001, rho: -0.9, hurst: 0.07 };
    let xi0 = 0.04;
    let curve = ForwardVarianceCurve::new(vec![2.0], vec![xi0]);
    let (s, k, t, r, q): (f64, f64, f64, f64, f64) = (100.0, 100.0, 1.0, 0.05, 0.0);
    let forward = s * ((r - q) * t).exp();

    let closed = price_coin(OptionType::Call, forward, k, xi0.sqrt(), t);

    let cfg = McConfig { n_paths: 100_000, n_steps: 64, seed: 3, antithetic: true, scheme: VarianceScheme::FullTruncationEuler };
    let usd = mc_rough_bergomi(s, t, r, q, &params, &curve,
        Payoff::European { strike: k, opt_type: OptionType::Call }, &cfg);
    let coin = mc_result_to_coin(usd, s, q, t);

    let z = (coin.price - closed).abs() / coin.std_error;
    assert!(z < 4.0, "closed={closed:.6} coin={:.6} se={:.6} z={z:.2}", coin.price, coin.std_error);
}

#[test]
fn heston_rescale_matches_closed_form_when_vol_of_vol_is_tiny() {

    let heston_params = HestonParams { v0: 0.04, kappa: 2.0, theta: 0.04, sigma: 0.001, rho: -0.5 };
    let (s, k, t, r, q): (f64, f64, f64, f64, f64) = (100.0, 100.0, 1.0, 0.05, 0.0);
    let forward = s * ((r - q) * t).exp();

    let closed = price_coin(OptionType::Call, forward, k, 0.04_f64.sqrt(), t);

    let cfg = McConfig { n_paths: 100_000, n_steps: 100, seed: 7, antithetic: true, scheme: VarianceScheme::FullTruncationEuler };
    let usd = mc_heston(s, t, r, q, &heston_params,
        Payoff::European { strike: k, opt_type: OptionType::Call }, &cfg);
    let coin = mc_result_to_coin(usd, s, q, t);

    let z = (coin.price - closed).abs() / coin.std_error;
    assert!(z < 4.0, "closed={closed:.6} coin={:.6} se={:.6} z={z:.2}", coin.price, coin.std_error);
}
