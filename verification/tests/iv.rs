//! Implied volatility.
#![allow(dead_code)]
use options_pricing_engine::Elementary;
use options_pricing_engine::OptionType;

type OptionContract = options_pricing_engine::types::OptionContract<f64>;
type IvProblem = options_pricing_engine::types::IvProblem<f64>;

/// The powers of ten.
const POWERS: [f64; 17] = [
    1e0, 1e1, 1e2, 1e3, 1e4, 1e5, 1e6, 1e7, 1e8, 1e9, 1e10, 1e11, 1e12, 1e13, 1e14, 1e15, 1e16,
];

/// The elementary functions of double precision.
#[derive(Clone, Copy)]
struct F64;

impl Elementary<f64> for F64 {
    fn exp(&self, x: f64) -> f64 {
        x.exp()
    }
    fn ln(&self, x: f64) -> f64 {
        x.ln()
    }
    fn sqrt(&self, x: f64) -> f64 {
        x.sqrt()
    }
    fn sin(&self, x: f64) -> f64 {
        x.sin()
    }
    fn cos(&self, x: f64) -> f64 {
        x.cos()
    }
    fn atan2(&self, y: f64, x: f64) -> f64 {
        y.atan2(x)
    }
    fn hypot(&self, x: f64, y: f64) -> f64 {
        x.hypot(y)
    }
    fn powf(&self, x: f64, y: f64) -> f64 {
        x.powf(y)
    }
    fn erfc(&self, x: f64) -> f64 {
        libm::erfc(x)
    }
    fn is_finite(&self, x: f64) -> bool {
        x.is_finite()
    }
    fn is_sign_positive(&self, x: f64) -> bool {
        x.is_sign_positive()
    }
    fn infinity(&self) -> f64 {
        f64::INFINITY
    }
    fn rank(&self, x: f64) -> i64 {
        let bits = x.to_bits() as i64;
        bits ^ (((bits >> 63) as u64) >> 1) as i64
    }
    fn decimal(&self, mantissa: i64, exponent: i32) -> f64 {
        if mantissa.unsigned_abs() < 1 << 53 && -16 <= exponent && exponent <= 0 {
            mantissa as f64 / POWERS[exponent.unsigned_abs() as usize]
        } else if mantissa == 1 && exponent == -300 {
            1e-300
        } else {
            format!("{mantissa}e{exponent}").parse().unwrap()
        }
    }
    fn count(&self, n: usize) -> f64 {
        n as f64
    }
}

fn bsm_price(c: &OptionContract) -> f64 {
    options_pricing_engine::bsm::bsm_price(F64, c)
}

fn implied_vol(prob: &IvProblem) -> Option<f64> {
    options_pricing_engine::iv::implied_vol(F64, prob)
}

fn contract(vol: f64, opt_type: OptionType) -> OptionContract {
    OptionContract {
        spot: 100.0, strike: 100.0, expiry: 0.5,
        rate: 0.03, div_yield: 0.0,
        vol, opt_type,
    }
}

fn check_roundtrip(vol: f64, t: OptionType) {
    let c  = contract(vol, t);
    let px = bsm_price(&c);
    let iv = implied_vol(&IvProblem { contract: c, market_price: px })
        .unwrap_or_else(|| panic!("solver bailed on vol={vol}"));
    assert!((iv - vol).abs() < 1e-7, "got {iv:.8} expected {vol}");
}

#[test]
fn iv_roundtrip_atm()  { check_roundtrip(0.20, OptionType::Call); check_roundtrip(0.20, OptionType::Put); }

#[test]
fn iv_roundtrip_otm()  { check_roundtrip(0.30, OptionType::Call); }

#[test]
fn iv_roundtrip_low_vol() { check_roundtrip(0.05, OptionType::Call); }

#[test]
fn iv_rejects_bad_price() {
    let c = contract(0.2, OptionType::Call);
    assert!(implied_vol(&IvProblem { contract: c, market_price: -1.0 }).is_none());
}
