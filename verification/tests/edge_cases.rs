//! Sensitivities at the edges.
#![allow(dead_code)]
use options_pricing_engine::Elementary;
use options_pricing_engine::OptionType;

type PricingResult = options_pricing_engine::types::PricingResult<f64>;
type HestonParams = options_pricing_engine::types::HestonParams<f64>;
type BatesParams = options_pricing_engine::types::BatesParams<f64>;

/// The powers of ten.
const POWERS: [f64; 17] = [
    1e0, 1e1, 1e2, 1e3, 1e4, 1e5, 1e6, 1e7, 1e8, 1e9, 1e10, 1e11, 1e12, 1e13, 1e14, 1e15, 1e16,
];

/// The elementary functions of double precision.
#[derive(Clone, Copy)]
struct F64;

impl Elementary<f64> for F64 {
    fn exp(&self, x: f64) -> f64 {
        x.exp()
    }
    fn ln(&self, x: f64) -> f64 {
        x.ln()
    }
    fn sqrt(&self, x: f64) -> f64 {
        x.sqrt()
    }
    fn sin(&self, x: f64) -> f64 {
        x.sin()
    }
    fn cos(&self, x: f64) -> f64 {
        x.cos()
    }
    fn atan2(&self, y: f64, x: f64) -> f64 {
        y.atan2(x)
    }
    fn hypot(&self, x: f64, y: f64) -> f64 {
        x.hypot(y)
    }
    fn powf(&self, x: f64, y: f64) -> f64 {
        x.powf(y)
    }
    fn erfc(&self, x: f64) -> f64 {
        libm::erfc(x)
    }
    fn is_finite(&self, x: f64) -> bool {
        x.is_finite()
    }
    fn is_sign_positive(&self, x: f64) -> bool {
        x.is_sign_positive()
    }
    fn infinity(&self) -> f64 {
        f64::INFINITY
    }
    fn rank(&self, x: f64) -> i64 {
        let bits = x.to_bits() as i64;
        bits ^ (((bits >> 63) as u64) >> 1) as i64
    }
    fn decimal(&self, mantissa: i64, exponent: i32) -> f64 {
        if mantissa.unsigned_abs() < 1 << 53 && -16 <= exponent && exponent <= 0 {
            mantissa as f64 / POWERS[exponent.unsigned_abs() as usize]
        } else if mantissa == 1 && exponent == -300 {
            1e-300
        } else {
            format!("{mantissa}e{exponent}").parse().unwrap()
        }
    }
    fn count(&self, n: usize) -> f64 {
        n as f64
    }
}

fn heston_price_and_greeks(spot: f64, strike: f64, expiry: f64, rate: f64, div_yield: f64, params: &HestonParams, opt_type: OptionType) -> PricingResult {
    options_pricing_engine::heston::heston_price_and_greeks(F64, spot, strike, expiry, rate, div_yield, params, opt_type)
}

fn bates_price_and_greeks(spot: f64, strike: f64, expiry: f64, rate: f64, div_yield: f64, params: &BatesParams, opt_type: OptionType) -> PricingResult {
    options_pricing_engine::bates::bates_price_and_greeks(F64, spot, strike, expiry, rate, div_yield, params, opt_type)
}

fn heston_greeks_ad(spot: f64, strike: f64, expiry: f64, rate: f64, div_yield: f64, params: &HestonParams, opt_type: OptionType) -> PricingResult {
    options_pricing_engine::ad::heston_greeks_ad(F64, spot, strike, expiry, rate, div_yield, params, opt_type)
}

fn heston_greeks_ad5(spot: f64, strike: f64, expiry: f64, rate: f64, div_yield: f64, params: &HestonParams, opt_type: OptionType) -> PricingResult {
    options_pricing_engine::ad::heston_greeks_ad5(F64, spot, strike, expiry, rate, div_yield, params, opt_type)
}

fn bates_greeks_ad(spot: f64, strike: f64, expiry: f64, rate: f64, div_yield: f64, heston: &HestonParams, lambda: f64, mu_j: f64, sigma_j: f64, opt_type: OptionType) -> PricingResult {
    options_pricing_engine::ad::bates_greeks_ad(F64, spot, strike, expiry, rate, div_yield, heston, lambda, mu_j, sigma_j, opt_type)
}

fn params() -> HestonParams {
    HestonParams { v0: 0.04, kappa: 2.0, theta: 0.04, sigma: 0.3, rho: -0.7 }
}

fn assert_all_finite(tag: &str, g: &PricingResult) {
    for (name, v) in [
        ("price", g.price), ("delta", g.delta), ("gamma", g.gamma), ("vega", g.vega),
        ("theta", g.theta), ("rho", g.rho), ("vanna", g.vanna), ("volga", g.volga),
    ] {
        assert!(v.is_finite(), "{tag}: {name} = {v}");
    }
}

#[test]
fn greeks_finite_at_zero_v0() {
    let p = HestonParams { v0: 0.0, ..params() };
    let g = heston_price_and_greeks(100.0, 100.0, 1.0, 0.05, 0.0, &p, OptionType::Call);
    assert_all_finite("v0=0", &g);
}

#[test]
fn theta_finite_at_zero_expiry() {
    let g = heston_price_and_greeks(100.0, 100.0, 0.0, 0.05, 0.0, &params(), OptionType::Call);
    assert!(g.theta.is_finite(), "theta = {}", g.theta);
}

fn assert_theta_close(tag: &str, ad: f64, std: f64) {
    let rel = (ad - std).abs() / std.abs().max(1e-8);
    assert!(rel < 0.02, "{tag}: ad theta {ad:.6} vs bump-reprice {std:.6} (rel {rel:.4})");
}

#[test]
fn ad_theta_matches_bump_reprice_at_one_dte() {
    let p = params();
    let t = 1.0 / 365.0;
    let std = heston_price_and_greeks(100.0, 100.0, t, 0.05, 0.0, &p, OptionType::Call);
    let ad  = heston_greeks_ad(100.0, 100.0, t, 0.05, 0.0, &p, OptionType::Call);
    assert_theta_close("heston_greeks_ad", ad.theta, std.theta);
}

#[test]
fn ad5_theta_matches_bump_reprice_at_one_dte() {
    let p = params();
    let t = 1.0 / 365.0;
    let std = heston_price_and_greeks(100.0, 100.0, t, 0.05, 0.0, &p, OptionType::Call);
    let ad  = heston_greeks_ad5(100.0, 100.0, t, 0.05, 0.0, &p, OptionType::Call);
    assert_theta_close("heston_greeks_ad5", ad.theta, std.theta);
}

#[test]
fn bates_ad_theta_matches_bump_reprice_at_one_dte() {
    let p = params();
    let (lambda, mu_j, sigma_j) = (0.5, -0.1, 0.15);
    let bp = BatesParams { heston: p, lambda, mu_j, sigma_j };
    let t = 1.0 / 365.0;
    let std = bates_price_and_greeks(100.0, 100.0, t, 0.05, 0.0, &bp, OptionType::Call);
    let ad  = bates_greeks_ad(100.0, 100.0, t, 0.05, 0.0, &p, lambda, mu_j, sigma_j, OptionType::Call);
    assert_theta_close("bates_greeks_ad", ad.theta, std.theta);
}
