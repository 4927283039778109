//! Batches of options.
#![allow(dead_code)]
use options_pricing_engine::Elementary;
use options_pricing_engine::OptionType;

type OptionContract = options_pricing_engine::types::OptionContract<f64>;

/// The powers of ten.
const POWERS: [f64; 17] = [
    1e0, 1e1, 1e2, 1e3, 1e4, 1e5, 1e6, 1e7, 1e8, 1e9, 1e10, 1e11, 1e12, 1e13, 1e14, 1e15, 1e16,
];

/// The elementary functions of double precision.
#[derive(Clone, Copy)]
struct F64;

impl Elementary<f64> for F64 {
    fn exp(&self, x: f64) -> f64 {
        x.exp()
    }
    fn ln(&self, x: f64) -> f64 {
        x.ln()
    }
    fn sqrt(&self, x: f64) -> f64 {
        x.sqrt()
    }
    fn sin(&self, x: f64) -> f64 {
        x.sin()
    }
    fn cos(&self, x: f64) -> f64 {
        x.cos()
    }
    fn atan2(&self, y: f64, x: f64) -> f64 {
        y.atan2(x)
    }
    fn hypot(&self, x: f64, y: f64) -> f64 {
        x.hypot(y)
    }
    fn powf(&self, x: f64, y: f64) -> f64 {
        x.powf(y)
    }
    fn erfc(&self, x: f64) -> f64 {
        libm::erfc(x)
    }
    fn is_finite(&self, x: f64) -> bool {
        x.is_finite()
    }
    fn is_sign_positive(&self, x: f64) -> bool {
        x.is_sign_positive()
    }
    fn infinity(&self) -> f64 {
        f64::INFINITY
    }
    fn rank(&self, x: f64) -> i64 {
        let bits = x.to_bits() as i64;
        bits ^ (((bits >> 63) as u64) >> 1) as i64
    }
    fn decimal(&self, mantissa: i64, exponent: i32) -> f64 {
        if mantissa.unsigned_abs() < 1 << 53 && -16 <= exponent && exponent <= 0 {
            mantissa as f64 / POWERS[exponent.unsigned_abs() as usize]
        } else if mantissa == 1 && exponent == -300 {
            1e-300
        } else {
            format!("{mantissa}e{exponent}").parse().unwrap()
        }
    }
    fn count(&self, n: usize) -> f64 {
        n as f64
    }
}

fn bsm_price(c: &OptionContract) -> f64 {
    options_pricing_engine::bsm::bsm_price(F64, c)
}

fn batch_bsm_price(c: &Vec<OptionContract>) -> Vec<f64> {
    options_pricing_engine::batch::batch_bsm_price(F64, c)
}

fn batch_implied_vol(c: &Vec<OptionContract>, prices: &Vec<f64>) -> Vec<Option<f64>> {
    options_pricing_engine::batch::batch_implied_vol(F64, c, prices)
}

fn chain(n: usize) -> Vec<OptionContract> {
    (0..n).map(|i| OptionContract {
        spot: 100.0, strike: 80.0 + i as f64 * 2.0,
        expiry: 0.5, rate: 0.03, div_yield: 0.0,
        vol: 0.20, opt_type: OptionType::Call,
    }).collect()
}

#[test]
fn batch_matches_single() {
    let c   = chain(20);
    let out = batch_bsm_price(&c);
    for (contract, &px) in c.iter().zip(out.iter()) {
        assert!((px - bsm_price(contract)).abs() < 1e-12);
    }
}

#[test]
fn iv_roundtrip() {
    let c      = chain(10);
    let prices: Vec<f64> = c.iter().map(|x| bsm_price(x)).collect();
    let ivs    = batch_implied_vol(&c, &prices);
    for (iv, contract) in ivs.iter().zip(c.iter()) {
        let iv = iv.expect("solver bailed");
        assert!((iv - contract.vol).abs() < 1e-6, "got {iv:.8}");
    }
}
