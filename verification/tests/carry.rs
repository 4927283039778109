//! Theta and dividends.
#![allow(dead_code)]
use options_pricing_engine::Elementary;
use options_pricing_engine::OptionType;

type OptionContract = options_pricing_engine::types::OptionContract<f64>;
type PricingResult = options_pricing_engine::types::PricingResult<f64>;
type HestonParams = options_pricing_engine::types::HestonParams<f64>;
type BatesParams = options_pricing_engine::types::BatesParams<f64>;

/// The powers of ten.
const POWERS: [f64; 17] = [
    1e0, 1e1, 1e2, 1e3, 1e4, 1e5, 1e6, 1e7, 1e8, 1e9, 1e10, 1e11, 1e12, 1e13, 1e14, 1e15, 1e16,
];

/// The elementary functions of double precision.
#[derive(Clone, Copy)]
struct F64;

impl Elementary<f64> for F64 {
    fn exp(&self, x: f64) -> f64 {
        x.exp()
    }
    fn ln(&self, x: f64) -> f64 {
        x.ln()
    }
    fn sqrt(&self, x: f64) -> f64 {
        x.sqrt()
    }
    fn sin(&self, x: f64) -> f64 {
        x.sin()
    }
    fn cos(&self, x: f64) -> f64 {
        x.cos()
    }
    fn atan2(&self, y: f64, x: f64) -> f64 {
        y.atan2(x)
    }
    fn hypot(&self, x: f64, y: f64) -> f64 {
        x.hypot(y)
    }
    fn powf(&self, x: f64, y: f64) -> f64 {
        x.powf(y)
    }
    fn erfc(&self, x: f64) -> f64 {
        libm::erfc(x)
    }
    fn is_finite(&self, x: f64) -> bool {
        x.is_finite()
    }
    fn is_sign_positive(&self, x: f64) -> bool {
        x.is_sign_positive()
    }
    fn infinity(&self) -> f64 {
        f64::INFINITY
    }
    fn rank(&self, x: f64) -> i64 {
        let bits = x.to_bits() as i64;
        bits ^ (((bits >> 63) as u64) >> 1) as i64
    }
    fn decimal(&self, mantissa: i64, exponent: i32) -> f64 {
        if mantissa.unsigned_abs() < 1 << 53 && -16 <= exponent && exponent <= 0 {
            mantissa as f64 / POWERS[exponent.unsigned_abs() as usize]
        } else if mantissa == 1 && exponent == -300 {
            1e-300
        } else {
            format!("{mantissa}e{exponent}").parse().unwrap()
        }
    }
    fn count(&self, n: usize) -> f64 {
        n as f64
    }
}

fn bsm_price_and_greeks(c: &OptionContract) -> PricingResult {
    options_pricing_engine::bsm::bsm_price_and_greeks(F64, c)
}

fn black76_price_and_greeks(fwd: f64, strike: f64, expiry: f64, rate: f64, vol: f64, opt_type: OptionType) -> PricingResult {
    options_pricing_engine::bsm::black76_price_and_greeks(F64, fwd, strike, expiry, rate, vol, opt_type)
}

fn heston_price(spot: f64, strike: f64, expiry: f64, rate: f64, div_yield: f64, params: &HestonParams, opt_type: OptionType) -> f64 {
    options_pricing_engine::heston::heston_price(F64, spot, strike, expiry, rate, div_yield, params, opt_type)
}

fn bates_price(spot: f64, strike: f64, expiry: f64, rate: f64, div_yield: f64, params: &BatesParams, opt_type: OptionType) -> f64 {
    options_pricing_engine::bates::bates_price(F64, spot, strike, expiry, rate, div_yield, params, opt_type)
}

fn heston_greeks_ad(spot: f64, strike: f64, expiry: f64, rate: f64, div_yield: f64, params: &HestonParams, opt_type: OptionType) -> PricingResult {
    options_pricing_engine::ad::heston_greeks_ad(F64, spot, strike, expiry, rate, div_yield, params, opt_type)
}

fn heston_greeks_ad5(spot: f64, strike: f64, expiry: f64, rate: f64, div_yield: f64, params: &HestonParams, opt_type: OptionType) -> PricingResult {
    options_pricing_engine::ad::heston_greeks_ad5(F64, spot, strike, expiry, rate, div_yield, params, opt_type)
}

fn bates_greeks_ad(spot: f64, strike: f64, expiry: f64, rate: f64, div_yield: f64, heston: &HestonParams, lambda: f64, mu_j: f64, sigma_j: f64, opt_type: OptionType) -> PricingResult {
    options_pricing_engine::ad::bates_greeks_ad(F64, spot, strike, expiry, rate, div_yield, heston, lambda, mu_j, sigma_j, opt_type)
}

fn heston_params() -> HestonParams {
    HestonParams { v0: 0.04, kappa: 2.0, theta: 0.04, sigma: 0.3, rho: -0.7 }
}

#[test]
fn black76_theta_matches_fd() {
    let (fwd, k, t, v) = (100.0, 100.0, 1.0, 0.2);
    let dt = 1e-5;
    for r in [0.0, 0.05] {
        for ot in [OptionType::Call, OptionType::Put] {
            let analytic = black76_price_and_greeks(fwd, k, t, r, v, ot).theta;
            let fd = (black76_price_and_greeks(fwd, k, t - dt, r, v, ot).price
                    - black76_price_and_greeks(fwd, k, t + dt, r, v, ot).price) / (2.0 * dt);
            assert!((analytic - fd).abs() < 1e-4,
                    "r={r} {ot:?}: analytic {analytic:.6} vs fd {fd:.6}");
        }
    }
}

#[test]
fn black76_theta_matches_bsm_at_zero_rate() {
    let c = OptionContract {
        spot: 100.0, strike: 100.0, expiry: 1.0,
        rate: 0.0, div_yield: 0.0, vol: 0.2,
        opt_type: OptionType::Call,
    };
    let b76 = black76_price_and_greeks(100.0, 100.0, 1.0, 0.0, 0.2, OptionType::Call);
    let bsm = bsm_price_and_greeks(&c);
    assert!((b76.theta - bsm.theta).abs() < 1e-10,
            "b76 {:.6} vs bsm {:.6}", b76.theta, bsm.theta);
}

#[test]
fn bates_lambda0_with_dividend_matches_heston() {
    let hp = heston_params();
    let bp = BatesParams { heston: hp, lambda: 0.0, mu_j: 0.0, sigma_j: 0.1 };
    for q in [0.0, 0.02, 0.05] {
        for k in [90.0, 100.0, 110.0] {
            for ot in [OptionType::Call, OptionType::Put] {
                let h = heston_price(100.0, k, 1.0, 0.05, q, &hp, ot);
                let b = bates_price(100.0, k, 1.0, 0.05, q, &bp, ot);
                assert!((h - b).abs() < 1e-6,
                        "q={q} K={k} {ot:?}: heston {h:.6} vs bates {b:.6}");
            }
        }
    }
}

#[test]
fn ad_heston_price_matches_pricer_with_dividend() {
    let hp = heston_params();
    for q in [0.0, 0.05] {
        for ot in [OptionType::Call, OptionType::Put] {
            let px = heston_price(100.0, 100.0, 1.0, 0.05, q, &hp, ot);
            let ad = heston_greeks_ad(100.0, 100.0, 1.0, 0.05, q, &hp, ot).price;
            assert!((px - ad).abs() < 1e-4,
                    "q={q} {ot:?}: pricer {px:.6} vs ad {ad:.6}");
        }
    }
}

#[test]
fn ad5_price_matches_pricer_with_dividend() {
    let hp = heston_params();
    for q in [0.0, 0.05] {
        for ot in [OptionType::Call, OptionType::Put] {
            let px = heston_price(100.0, 100.0, 1.0, 0.05, q, &hp, ot);
            let ad = heston_greeks_ad5(100.0, 100.0, 1.0, 0.05, q, &hp, ot).price;
            assert!((px - ad).abs() < 1e-4,
                    "q={q} {ot:?}: pricer {px:.6} vs ad5 {ad:.6}");
        }
    }
}

#[test]
fn ad_bates_price_matches_pricer_with_dividend() {
    let hp = heston_params();
    let (lambda, mu_j, sigma_j) = (0.5, -0.1, 0.15);
    let bp = BatesParams { heston: hp, lambda, mu_j, sigma_j };
    for q in [0.0, 0.05] {
        for ot in [OptionType::Call, OptionType::Put] {
            let px = bates_price(100.0, 100.0, 1.0, 0.05, q, &bp, ot);
            let ad = bates_greeks_ad(100.0, 100.0, 1.0, 0.05, q, &hp, lambda, mu_j, sigma_j, ot).price;
            assert!((px - ad).abs() < 1e-4,
                    "q={q} {ot:?}: pricer {px:.6} vs ad {ad:.6}");
        }
    }
}
