//! Heston's model.
#![allow(dead_code)]
use num_complex::Complex64;
use options_pricing_engine::Elementary;
use options_pricing_engine::OptionType;
use options_pricing_engine::complex::Complex;

type OptionContract = options_pricing_engine::types::OptionContract<f64>;
type PricingResult = options_pricing_engine::types::PricingResult<f64>;
type HestonParams = options_pricing_engine::types::HestonParams<f64>;

/// The powers of ten.
const POWERS: [f64; 17] = [
    1e0, 1e1, 1e2, 1e3, 1e4, 1e5, 1e6, 1e7, 1e8, 1e9, 1e10, 1e11, 1e12, 1e13, 1e14, 1e15, 1e16,
];

/// The elementary functions of double precision.
#[derive(Clone, Copy)]
struct F64;

impl Elementary<f64> for F64 {
    fn exp(&self, x: f64) -> f64 {
        x.exp()
    }
    fn ln(&self, x: f64) -> f64 {
        x.ln()
    }
    fn sqrt(&self, x: f64) -> f64 {
        x.sqrt()
    }
    fn sin(&self, x: f64) -> f64 {
        x.sin()
    }
    fn cos(&self, x: f64) -> f64 {
        x.cos()
    }
    fn atan2(&self, y: f64, x: f64) -> f64 {
        y.atan2(x)
    }
    fn hypot(&self, x: f64, y: f64) -> f64 {
        x.hypot(y)
    }
    fn powf(&self, x: f64, y: f64) -> f64 {
        x.powf(y)
    }
    fn erfc(&self, x: f64) -> f64 {
        libm::erfc(x)
    }
    fn is_finite(&self, x: f64) -> bool {
        x.is_finite()
    }
    fn is_sign_positive(&self, x: f64) -> bool {
        x.is_sign_positive()
    }
    fn infinity(&self) -> f64 {
        f64::INFINITY
    }
    fn rank(&self, x: f64) -> i64 {
        let bits = x.to_bits() as i64;
        bits ^ (((bits >> 63) as u64) >> 1) as i64
    }
    fn decimal(&self, mantissa: i64, exponent: i32) -> f64 {
        if mantissa.unsigned_abs() < 1 << 53 && -16 <= exponent && exponent <= 0 {
            mantissa as f64 / POWERS[exponent.unsigned_abs() as usize]
        } else if mantissa == 1 && exponent == -300 {
            1e-300
        } else {
            format!("{mantissa}e{exponent}").parse().unwrap()
        }
    }
    fn count(&self, n: usize) -> f64 {
        n as f64
    }
}

fn bsm_price(c: &OptionContract) -> f64 {
    options_pricing_engine::bsm::bsm_price(F64, c)
}

fn bsm_price_and_greeks(c: &OptionContract) -> PricingResult {
    options_pricing_engine::bsm::bsm_price_and_greeks(F64, c)
}

fn heston_price(spot: f64, strike: f64, expiry: f64, rate: f64, div_yield: f64, params: &HestonParams, opt_type: OptionType) -> f64 {
    options_pricing_engine::heston::heston_price(F64, spot, strike, expiry, rate, div_yield, params, opt_type)
}

fn heston_price_and_greeks(spot: f64, strike: f64, expiry: f64, rate: f64, div_yield: f64, params: &HestonParams, opt_type: OptionType) -> PricingResult {
    options_pricing_engine::heston::heston_price_and_greeks(F64, spot, strike, expiry, rate, div_yield, params, opt_type)
}

fn fast_csqrt(z: Complex64) -> Complex64 {
    let r = options_pricing_engine::characteristic::fast_csqrt(
        F64,
        options_pricing_engine::complex::Complex { re: z.re, im: z.im },
    );
    Complex64::new(r.re, r.im)
}

fn params() -> HestonParams {

    HestonParams { v0: 0.04, kappa: 2.0, theta: 0.04, sigma: 0.3, rho: -0.7 }
}

#[test]
fn fast_csqrt_matches_builtin() {
    let mags   = [1e-6, 1e-3, 0.1, 1.0, 10.0, 100.0, 1e4, 1e6];
    let mut angles = vec![];
    let n = 37;
    for i in 0..n {
        angles.push(-std::f64::consts::PI + 2.0 * std::f64::consts::PI * i as f64 / (n - 1) as f64);
    }

    for &tiny in &[1e-2, 1e-4, 1e-6, 1e-8, 1e-10, 1e-12] {
        for &base in &[0.0_f64, std::f64::consts::PI, std::f64::consts::FRAC_PI_2, -std::f64::consts::FRAC_PI_2] {
            angles.push(base + tiny);
            angles.push(base - tiny);
        }
    }

    let mut worst: f64 = 0.0;
    let mut checked = 0;
    for &mag in &mags {
        for &ang in &angles {
            let z = Complex64::new(mag * ang.cos(), mag * ang.sin());
            let expected = z.sqrt();
            let got      = fast_csqrt(z);
            let err = (got - expected).norm() / expected.norm().max(1e-300);
            worst = worst.max(err);
            checked += 1;
            assert!(err < 1e-9,
                "fast_csqrt mismatch at z={z:?} (mag={mag}, ang={ang:.10}): got={got:?} expected={expected:?} rel_err={err:.2e}");
        }
    }

    for &(re, im) in &[(4.0, 0.0), (-4.0, 0.0), (-4.0, -0.0), (0.0, 4.0), (0.0, -4.0), (0.0, 0.0)] {
        let z = Complex64::new(re, im);
        let expected = z.sqrt();
        let got      = fast_csqrt(z);
        let err = (got - expected).norm();
        assert!(err < 1e-12, "fast_csqrt axis mismatch at z={z:?}: got={got:?} expected={expected:?}");
    }

    {
        let z = Complex64::new(1.0, 0.0) + Complex64::new(1e-8, 0.0) * Complex64::new(0.5, -1.0) * (Complex64::new(0.5, -1.0) + Complex64::i());
        let expected = z.sqrt();
        let got      = fast_csqrt(z);
        let err = (got - expected).norm() / expected.norm().max(1e-300);
        assert!(err < 1e-9, "regression point mismatch: z={z:?} got={got:?} expected={expected:?} err={err:.2e}");
    }
    assert!(checked > 250, "sweep too small to trust, only checked {checked} points");
    println!("fast_csqrt_matches_builtin: {checked} swept points + axis + regression point, worst rel err {worst:.2e}");
}

#[test]
fn heston_put_call_parity() {
    let p    = params();
    let call = heston_price(100.0, 100.0, 0.5, 0.03, 0.0, &p, OptionType::Call);
    let put  = heston_price(100.0, 100.0, 0.5, 0.03, 0.0, &p, OptionType::Put);
    let er   = (-0.03_f64 * 0.5).exp();
    assert!((call - put - (100.0 - 100.0*er)).abs() < 0.01);
}

#[test]
fn price_sanity() {
    let p    = params();
    let call = heston_price(100.0, 100.0, 1.0, 0.05, 0.0, &p, OptionType::Call);
    let put  = heston_price(100.0, 100.0, 1.0, 0.05, 0.0, &p, OptionType::Put);
    let er   = (-0.05_f64).exp();
    let pcp  = (call - put - 100.0 + 100.0*er).abs();
    assert!(pcp < 0.05, "pcp err = {pcp}");
    assert!(call >= 0.0);
}

#[test]
fn feller_condition() {
    assert!(params().feller_ok());
}

#[test]
fn heston_greeks_signs() {
    let p = params();
    let r = heston_price_and_greeks(100.0, 100.0, 1.0, 0.05, 0.0, &p, OptionType::Call);
    assert!(r.delta > 0.0 && r.delta < 1.0, "delta={}", r.delta);
    assert!(r.gamma > 0.0, "gamma={}", r.gamma);
    assert!(r.vega  > 0.0, "vega={}", r.vega);
    assert!(r.rho   > 0.0, "rho={}", r.rho);
}

#[test]
fn heston_greeks_put_delta_negative() {
    let p = params();
    let r = heston_price_and_greeks(100.0, 100.0, 1.0, 0.05, 0.0, &p, OptionType::Put);
    assert!(r.delta < 0.0 && r.delta > -1.0, "put delta={}", r.delta);
    assert!(r.gamma > 0.0, "gamma={}", r.gamma);
}

#[test]
fn delta_close_to_bsm() {

    let p = HestonParams { v0: 0.04, kappa: 0.1, theta: 0.04, sigma: 0.01, rho: 0.0 };
    let h = heston_price_and_greeks(100.0, 100.0, 1.0, 0.05, 0.0, &p, OptionType::Call);
    let b = bsm_price_and_greeks(&OptionContract {
        spot: 100.0, strike: 100.0, expiry: 1.0,
        rate: 0.05, div_yield: 0.0, vol: 0.2,
        opt_type: OptionType::Call,
    });
    assert!((h.delta - b.delta).abs() < 0.01, "heston delta={:.4} bsm delta={:.4}", h.delta, b.delta);

    let damp = (1.0 - (-p.kappa * 1.0_f64).exp()) / p.kappa;
    assert!((h.vega - b.vega * damp).abs() < 0.5,
        "heston vega={:.4} bsm vega*{:.4}={:.4}", h.vega, damp, b.vega * damp);
}

#[test]
fn heston_no_static_arbitrage() {
    let sets = [
        HestonParams { v0: 0.04, kappa: 2.0, theta: 0.04, sigma: 0.3, rho: -0.7 },
        HestonParams { v0: 0.09, kappa: 1.0, theta: 0.09, sigma: 0.8, rho: -0.5 },
        HestonParams { v0: 0.04, kappa: 0.5, theta: 0.04, sigma: 0.5, rho: -0.7 },
    ];
    let (s, r, q) = (100.0, 0.03, 0.0);
    let expiries = [0.02_f64, 0.1, 0.25, 0.5, 1.0, 2.0];
    let strikes  = [70.0_f64, 85.0, 100.0, 115.0, 130.0, 150.0, 200.0];
    for p in &sets {
        for &t in &expiries {
            let cap = s * (-q*t).exp();
            let mut prev = f64::INFINITY;
            for &k in &strikes {
                let c = heston_price(s, k, t, r, q, p, OptionType::Call);
                let intrinsic = (s*(-q*t).exp() - k*(-r*t).exp()).max(0.0);
                assert!(c >= intrinsic - 1e-4, "call {c} < intrinsic {intrinsic} (T={t} K={k})");
                assert!(c <= cap + 1e-4,       "call {c} > spot cap {cap} (T={t} K={k})");
                assert!(c <= prev + 1e-4,      "call not monotone in K (T={t} K={k}): {c} > {prev}");
                prev = c;
            }
        }
    }
}

#[test]
fn zero_vol_of_vol_matches_bsm() {
    let p = HestonParams { v0: 0.04, kappa: 1.0, theta: 0.04, sigma: 1e-4, rho: 0.0 };
    let (s, r, q, vol) = (100.0, 0.03, 0.0, 0.2);
    for &t in &[0.25_f64, 1.0, 2.0] {
        for &k in &[70.0_f64, 85.0, 100.0, 115.0, 130.0] {
            let h = heston_price(s, k, t, r, q, &p, OptionType::Call);
            let b = bsm_price(&OptionContract {
                spot: s, strike: k, expiry: t, rate: r, div_yield: q, vol,
                opt_type: OptionType::Call,
            });
            assert!((h - b).abs() < 0.02, "heston {h:.5} vs bsm {b:.5} (T={t} K={k})");
        }
    }
}
