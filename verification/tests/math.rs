//! The normal distribution.
#![allow(dead_code)]
use options_pricing_engine::Elementary;

/// The powers of ten.
const POWERS: [f64; 17] = [
    1e0, 1e1, 1e2, 1e3, 1e4, 1e5, 1e6, 1e7, 1e8, 1e9, 1e10, 1e11, 1e12, 1e13, 1e14, 1e15, 1e16,
];

/// The elementary functions of double precision.
#[derive(Clone, Copy)]
struct F64;

impl Elementary<f64> for F64 {
    fn exp(&self, x: f64) -> f64 {
        x.exp()
    }
    fn ln(&self, x: f64) -> f64 {
        x.ln()
    }
    fn sqrt(&self, x: f64) -> f64 {
        x.sqrt()
    }
    fn sin(&self, x: f64) -> f64 {
        x.sin()
    }
    fn cos(&self, x: f64) -> f64 {
        x.cos()
    }
    fn atan2(&self, y: f64, x: f64) -> f64 {
        y.atan2(x)
    }
    fn hypot(&self, x: f64, y: f64) -> f64 {
        x.hypot(y)
    }
    fn powf(&self, x: f64, y: f64) -> f64 {
        x.powf(y)
    }
    fn erfc(&self, x: f64) -> f64 {
        libm::erfc(x)
    }
    fn is_finite(&self, x: f64) -> bool {
        x.is_finite()
    }
    fn is_sign_positive(&self, x: f64) -> bool {
        x.is_sign_positive()
    }
    fn infinity(&self) -> f64 {
        f64::INFINITY
    }
    fn rank(&self, x: f64) -> i64 {
        let bits = x.to_bits() as i64;
        bits ^ (((bits >> 63) as u64) >> 1) as i64
    }
    fn decimal(&self, mantissa: i64, exponent: i32) -> f64 {
        if mantissa.unsigned_abs() < 1 << 53 && -16 <= exponent && exponent <= 0 {
            mantissa as f64 / POWERS[exponent.unsigned_abs() as usize]
        } else if mantissa == 1 && exponent == -300 {
            1e-300
        } else {
            format!("{mantissa}e{exponent}").parse().unwrap()
        }
    }
    fn count(&self, n: usize) -> f64 {
        n as f64
    }
}

fn ncdf(x: f64) -> f64 {
    options_pricing_engine::math::ncdf(F64, x)
}

fn ncdf_inv(p: f64) -> f64 {
    options_pricing_engine::math::ncdf_inv(F64, p)
}

#[test]
fn ncdf_sanity() {
    assert!((ncdf(0.0) - 0.5).abs() < 1e-15);
    assert!((ncdf(1.64485363) - 0.95).abs() < 1e-6);
    assert!(ncdf(-10.0) < 1e-23);
}

#[test]
fn ncdf_tail_precision() {
    let cases = [
        (-4.0_f64, 3.167124183311998e-5),
        (-5.0_f64, 2.866515718791939e-7),
        (-6.0_f64, 9.865876449133282e-10),
    ];
    for (x, expected) in cases {
        let got     = ncdf(x);
        let rel_err = (got - expected).abs() / expected;
        assert!(rel_err < 5e-10, "ncdf({x}) = {got:.6e}, expected {expected:.6e}, rel_err={rel_err:.2e}");
    }
}

#[test]
fn ncdf_inv_roundtrip() {
    for p in [0.01, 0.1, 0.5, 0.9, 0.99] {
        let err = (ncdf(ncdf_inv(p)) - p).abs();
        assert!(err < 1e-6, "p={p} err={err}");
    }
}
