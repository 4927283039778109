//! Bates's model.
#![allow(dead_code)]
use options_pricing_engine::Elementary;
use options_pricing_engine::OptionType;

type PricingResult = options_pricing_engine::types::PricingResult<f64>;
type HestonParams = options_pricing_engine::types::HestonParams<f64>;
type BatesParams = options_pricing_engine::types::BatesParams<f64>;

/// The powers of ten.
const POWERS: [f64; 17] = [
    1e0, 1e1, 1e2, 1e3, 1e4, 1e5, 1e6, 1e7, 1e8, 1e9, 1e10, 1e11, 1e12, 1e13, 1e14, 1e15, 1e16,
];

/// The elementary functions of double precision.
#[derive(Clone, Copy)]
struct F64;

impl Elementary<f64> for F64 {
    fn exp(&self, x: f64) -> f64 {
        x.exp()
    }
    fn ln(&self, x: f64) -> f64 {
        x.ln()
    }
    fn sqrt(&self, x: f64) -> f64 {
        x.sqrt()
    }
    fn sin(&self, x: f64) -> f64 {
        x.sin()
    }
    fn cos(&self, x: f64) -> f64 {
        x.cos()
    }
    fn atan2(&self, y: f64, x: f64) -> f64 {
        y.atan2(x)
    }
    fn hypot(&self, x: f64, y: f64) -> f64 {
        x.hypot(y)
    }
    fn powf(&self, x: f64, y: f64) -> f64 {
        x.powf(y)
    }
    fn erfc(&self, x: f64) -> f64 {
        libm::erfc(x)
    }
    fn is_finite(&self, x: f64) -> bool {
        x.is_finite()
    }
    fn is_sign_positive(&self, x: f64) -> bool {
        x.is_sign_positive()
    }
    fn infinity(&self) -> f64 {
        f64::INFINITY
    }
    fn rank(&self, x: f64) -> i64 {
        let bits = x.to_bits() as i64;
        bits ^ (((bits >> 63) as u64) >> 1) as i64
    }
    fn decimal(&self, mantissa: i64, exponent: i32) -> f64 {
        if mantissa.unsigned_abs() < 1 << 53 && -16 <= exponent && exponent <= 0 {
            mantissa as f64 / POWERS[exponent.unsigned_abs() as usize]
        } else if mantissa == 1 && exponent == -300 {
            1e-300
        } else {
            format!("{mantissa}e{exponent}").parse().unwrap()
        }
    }
    fn count(&self, n: usize) -> f64 {
        n as f64
    }
}

fn heston_price(spot: f64, strike: f64, expiry: f64, rate: f64, div_yield: f64, params: &HestonParams, opt_type: OptionType) -> f64 {
    options_pricing_engine::heston::heston_price(F64, spot, strike, expiry, rate, div_yield, params, opt_type)
}

fn heston_price_and_greeks(spot: f64, strike: f64, expiry: f64, rate: f64, div_yield: f64, params: &HestonParams, opt_type: OptionType) -> PricingResult {
    options_pricing_engine::heston::heston_price_and_greeks(F64, spot, strike, expiry, rate, div_yield, params, opt_type)
}

fn bates_price(spot: f64, strike: f64, expiry: f64, rate: f64, div_yield: f64, params: &BatesParams, opt_type: OptionType) -> f64 {
    options_pricing_engine::bates::bates_price(F64, spot, strike, expiry, rate, div_yield, params, opt_type)
}

fn bates_price_and_greeks(spot: f64, strike: f64, expiry: f64, rate: f64, div_yield: f64, params: &BatesParams, opt_type: OptionType) -> PricingResult {
    options_pricing_engine::bates::bates_price_and_greeks(F64, spot, strike, expiry, rate, div_yield, params, opt_type)
}

fn base() -> HestonParams {
    HestonParams { v0: 0.04, kappa: 2.0, theta: 0.04, sigma: 0.3, rho: -0.7 }
}

fn bp_with_jumps() -> BatesParams {
    BatesParams { heston: base(), lambda: 0.5, mu_j: -0.1, sigma_j: 0.15 }
}

#[test]
fn recovers_heston_no_jumps() {
    let bp = BatesParams { heston: base(), lambda: 0.0, mu_j: 0.0, sigma_j: 1e-8 };
    let bates_px  = bates_price(100.0, 100.0, 1.0, 0.05, 0.0, &bp, OptionType::Call);
    let heston_px = heston_price(100.0, 100.0, 1.0, 0.05, 0.0, &base(), OptionType::Call);
    assert!((bates_px - heston_px).abs() < 0.02,
        "bates={bates_px:.4} heston={heston_px:.4}");
}

#[test]
fn bates_put_call_parity() {
    let bp   = bp_with_jumps();
    let call = bates_price(100.0, 100.0, 0.5, 0.03, 0.0, &bp, OptionType::Call);
    let put  = bates_price(100.0, 100.0, 0.5, 0.03, 0.0, &bp, OptionType::Put);
    let er   = (-0.03_f64 * 0.5).exp();
    assert!((call - put - (100.0 - 100.0*er)).abs() < 0.02);
}

#[test]
fn bates_greeks_signs() {
    let r = bates_price_and_greeks(100.0, 100.0, 1.0, 0.05, 0.0, &bp_with_jumps(), OptionType::Call);
    assert!(r.delta > 0.0 && r.delta < 1.0, "delta={}", r.delta);
    assert!(r.gamma > 0.0, "gamma={}", r.gamma);
    assert!(r.vega  > 0.0, "vega={}", r.vega);
    assert!(r.rho   > 0.0, "rho={}", r.rho);
}

#[test]
fn bates_greeks_put_delta_negative() {
    let r = bates_price_and_greeks(100.0, 100.0, 1.0, 0.05, 0.0, &bp_with_jumps(), OptionType::Put);
    assert!(r.delta < 0.0 && r.delta > -1.0, "put delta={}", r.delta);
    assert!(r.gamma > 0.0);
}

#[test]
fn greeks_match_heston_no_jumps() {
    let bp = BatesParams { heston: base(), lambda: 0.0, mu_j: 0.0, sigma_j: 1e-8 };
    let b  = bates_price_and_greeks(100.0, 100.0, 1.0, 0.05, 0.0, &bp, OptionType::Call);
    let h  = heston_price_and_greeks(100.0, 100.0, 1.0, 0.05, 0.0, &base(), OptionType::Call);
    assert!((b.delta - h.delta).abs() < 0.01, "delta: bates={:.4} heston={:.4}", b.delta, h.delta);
    assert!((b.vega  - h.vega ).abs() < 1.0,  "vega:  bates={:.4} heston={:.4}", b.vega,  h.vega);
}

#[test]
fn bates_no_static_arbitrage() {
    let sets = [
        BatesParams { heston: base(), lambda: 0.5, mu_j: -0.1, sigma_j: 0.15 },
        BatesParams {
            heston: HestonParams { v0: 0.09, kappa: 1.0, theta: 0.09, sigma: 0.8, rho: -0.5 },
            lambda: 1.0, mu_j: -0.2, sigma_j: 0.25,
        },
    ];
    let (s, r, q) = (100.0, 0.03, 0.0);
    let expiries = [0.02_f64, 0.1, 0.25, 0.5, 1.0, 2.0];
    let strikes  = [70.0_f64, 85.0, 100.0, 115.0, 130.0, 150.0, 200.0];
    for bp in &sets {
        for &t in &expiries {
            let cap = s * (-q*t).exp();
            let mut prev = f64::INFINITY;
            for &k in &strikes {
                let c = bates_price(s, k, t, r, q, bp, OptionType::Call);
                let intrinsic = (s*(-q*t).exp() - k*(-r*t).exp()).max(0.0);
                assert!(c >= intrinsic - 1e-4, "bates call {c} < intrinsic {intrinsic} (T={t} K={k})");
                assert!(c <= cap + 1e-4,       "bates call {c} > spot cap {cap} (T={t} K={k})");
                assert!(c <= prev + 1e-4,      "bates call not monotone in K (T={t} K={k}): {c} > {prev}");
                prev = c;
            }
        }
    }
}
