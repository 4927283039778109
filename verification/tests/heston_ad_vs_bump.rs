//! Differentiation against repricing.
#![allow(dead_code)]
use options_pricing_engine::Elementary;
use options_pricing_engine::OptionType;

type PricingResult = options_pricing_engine::types::PricingResult<f64>;
type HestonParams = options_pricing_engine::types::HestonParams<f64>;

/// The powers of ten.
const POWERS: [f64; 17] = [
    1e0, 1e1, 1e2, 1e3, 1e4, 1e5, 1e6, 1e7, 1e8, 1e9, 1e10, 1e11, 1e12, 1e13, 1e14, 1e15, 1e16,
];

/// The elementary functions of double precision.
#[derive(Clone, Copy)]
struct F64;

impl Elementary<f64> for F64 {
    fn exp(&self, x: f64) -> f64 {
        x.exp()
    }
    fn ln(&self, x: f64) -> f64 {
        x.ln()
    }
    fn sqrt(&self, x: f64) -> f64 {
        x.sqrt()
    }
    fn sin(&self, x: f64) -> f64 {
        x.sin()
    }
    fn cos(&self, x: f64) -> f64 {
        x.cos()
    }
    fn atan2(&self, y: f64, x: f64) -> f64 {
        y.atan2(x)
    }
    fn hypot(&self, x: f64, y: f64) -> f64 {
        x.hypot(y)
    }
    fn powf(&self, x: f64, y: f64) -> f64 {
        x.powf(y)
    }
    fn erfc(&self, x: f64) -> f64 {
        libm::erfc(x)
    }
    fn is_finite(&self, x: f64) -> bool {
        x.is_finite()
    }
    fn is_sign_positive(&self, x: f64) -> bool {
        x.is_sign_positive()
    }
    fn infinity(&self) -> f64 {
        f64::INFINITY
    }
    fn rank(&self, x: f64) -> i64 {
        let bits = x.to_bits() as i64;
        bits ^ (((bits >> 63) as u64) >> 1) as i64
    }
    fn decimal(&self, mantissa: i64, exponent: i32) -> f64 {
        if mantissa.unsigned_abs() < 1 << 53 && -16 <= exponent && exponent <= 0 {
            mantissa as f64 / POWERS[exponent.unsigned_abs() as usize]
        } else if mantissa == 1 && exponent == -300 {
            1e-300
        } else {
            format!("{mantissa}e{exponent}").parse().unwrap()
        }
    }
    fn count(&self, n: usize) -> f64 {
        n as f64
    }
}

fn heston_price_and_greeks(spot: f64, strike: f64, expiry: f64, rate: f64, div_yield: f64, params: &HestonParams, opt_type: OptionType) -> PricingResult {
    options_pricing_engine::heston::heston_price_and_greeks(F64, spot, strike, expiry, rate, div_yield, params, opt_type)
}

fn heston_greeks_ad(spot: f64, strike: f64, expiry: f64, rate: f64, div_yield: f64, params: &HestonParams, opt_type: OptionType) -> PricingResult {
    options_pricing_engine::ad::heston_greeks_ad(F64, spot, strike, expiry, rate, div_yield, params, opt_type)
}

fn params() -> HestonParams {
    HestonParams { v0: 0.04, kappa: 2.0, theta: 0.04, sigma: 0.3, rho: -0.7 }
}

#[test]
fn heston_ad_vs_bump_ad_vega_matches_bump_vega() {
    for ot in [OptionType::Call, OptionType::Put] {
        for &k in &[80.0, 100.0, 120.0] {
            for &t in &[0.25, 1.0, 2.0] {
                let p = params();
                let ad = heston_greeks_ad(100.0, k, t, 0.05, 0.0, &p, ot);
                let bump = heston_price_and_greeks(100.0, k, t, 0.05, 0.0, &p, ot);
                let rel = (ad.vega - bump.vega).abs() / bump.vega.abs().max(1e-6);
                println!("{:?} k={} t={}: ad_vega={:.6} bump_vega={:.6} rel_err={:.4}",
                    ot, k, t, ad.vega, bump.vega, rel);
                assert!(rel < 0.02, "{:?} k={} t={}: ad={:.6} bump={:.6} rel_err={:.4}", ot, k, t, ad.vega, bump.vega, rel);
            }
        }
    }
}

#[test]
fn ad_and_bump_agree_on_shared_fd_greeks() {

    let p = params();
    let ad = heston_greeks_ad(100.0, 100.0, 1.0, 0.05, 0.02, &p, OptionType::Call);
    let bump = heston_price_and_greeks(100.0, 100.0, 1.0, 0.05, 0.02, &p, OptionType::Call);
    println!("delta ad={:.6} bump={:.6}", ad.delta, bump.delta);
    println!("theta ad={:.6} bump={:.6}", ad.theta, bump.theta);
    println!("rho   ad={:.6} bump={:.6}", ad.rho, bump.rho);
    println!("vanna ad={:.6} bump={:.6}", ad.vanna, bump.vanna);
    println!("volga ad={:.6} bump={:.6}", ad.volga, bump.volga);
}
