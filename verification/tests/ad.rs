//! Automatic differentiation.
#![allow(dead_code)]
use num_complex::Complex64;
use options_pricing_engine::Elementary;
use options_pricing_engine::OptionType;
use options_pricing_engine::complex::Complex;

type PricingResult = options_pricing_engine::types::PricingResult<f64>;
type HestonParams = options_pricing_engine::types::HestonParams<f64>;
type BatesParams = options_pricing_engine::types::BatesParams<f64>;
type Dual = options_pricing_engine::ad::Dual<f64>;
type BatesJumpSensitivities = options_pricing_engine::BatesJumpSensitivities<f64>;

/// The powers of ten.
const POWERS: [f64; 17] = [
    1e0, 1e1, 1e2, 1e3, 1e4, 1e5, 1e6, 1e7, 1e8, 1e9, 1e10, 1e11, 1e12, 1e13, 1e14, 1e15, 1e16,
];

/// The elementary functions of double precision.
#[derive(Clone, Copy)]
struct F64;

impl Elementary<f64> for F64 {
    fn exp(&self, x: f64) -> f64 {
        x.exp()
    }
    fn ln(&self, x: f64) -> f64 {
        x.ln()
    }
    fn sqrt(&self, x: f64) -> f64 {
        x.sqrt()
    }
    fn sin(&self, x: f64) -> f64 {
        x.sin()
    }
    fn cos(&self, x: f64) -> f64 {
        x.cos()
    }
    fn atan2(&self, y: f64, x: f64) -> f64 {
        y.atan2(x)
    }
    fn hypot(&self, x: f64, y: f64) -> f64 {
        x.hypot(y)
    }
    fn powf(&self, x: f64, y: f64) -> f64 {
        x.powf(y)
    }
    fn erfc(&self, x: f64) -> f64 {
        libm::erfc(x)
    }
    fn is_finite(&self, x: f64) -> bool {
        x.is_finite()
    }
    fn is_sign_positive(&self, x: f64) -> bool {
        x.is_sign_positive()
    }
    fn infinity(&self) -> f64 {
        f64::INFINITY
    }
    fn rank(&self, x: f64) -> i64 {
        let bits = x.to_bits() as i64;
        bits ^ (((bits >> 63) as u64) >> 1) as i64
    }
    fn decimal(&self, mantissa: i64, exponent: i32) -> f64 {
        if mantissa.unsigned_abs() < 1 << 53 && -16 <= exponent && exponent <= 0 {
            mantissa as f64 / POWERS[exponent.unsigned_abs() as usize]
        } else if mantissa == 1 && exponent == -300 {
            1e-300
        } else {
            format!("{mantissa}e{exponent}").parse().unwrap()
        }
    }
    fn count(&self, n: usize) -> f64 {
        n as f64
    }
}

fn heston_price(spot: f64, strike: f64, expiry: f64, rate: f64, div_yield: f64, params: &HestonParams, opt_type: OptionType) -> f64 {
    options_pricing_engine::heston::heston_price(F64, spot, strike, expiry, rate, div_yield, params, opt_type)
}

fn heston_price_and_greeks(spot: f64, strike: f64, expiry: f64, rate: f64, div_yield: f64, params: &HestonParams, opt_type: OptionType) -> PricingResult {
    options_pricing_engine::heston::heston_price_and_greeks(F64, spot, strike, expiry, rate, div_yield, params, opt_type)
}

fn bates_price(spot: f64, strike: f64, expiry: f64, rate: f64, div_yield: f64, params: &BatesParams, opt_type: OptionType) -> f64 {
    options_pricing_engine::bates::bates_price(F64, spot, strike, expiry, rate, div_yield, params, opt_type)
}

fn bates_price_and_greeks(spot: f64, strike: f64, expiry: f64, rate: f64, div_yield: f64, params: &BatesParams, opt_type: OptionType) -> PricingResult {
    options_pricing_engine::bates::bates_price_and_greeks(F64, spot, strike, expiry, rate, div_yield, params, opt_type)
}

fn heston_greeks_ad(spot: f64, strike: f64, expiry: f64, rate: f64, div_yield: f64, params: &HestonParams, opt_type: OptionType) -> PricingResult {
    options_pricing_engine::ad::heston_greeks_ad(F64, spot, strike, expiry, rate, div_yield, params, opt_type)
}

fn heston_greeks_ad5(spot: f64, strike: f64, expiry: f64, rate: f64, div_yield: f64, params: &HestonParams, opt_type: OptionType) -> PricingResult {
    options_pricing_engine::ad::heston_greeks_ad5(F64, spot, strike, expiry, rate, div_yield, params, opt_type)
}

fn bates_greeks_ad(spot: f64, strike: f64, expiry: f64, rate: f64, div_yield: f64, heston: &HestonParams, lambda: f64, mu_j: f64, sigma_j: f64, opt_type: OptionType) -> PricingResult {
    options_pricing_engine::ad::bates_greeks_ad(F64, spot, strike, expiry, rate, div_yield, heston, lambda, mu_j, sigma_j, opt_type)
}

fn bates_jump_sensitivities_ad(spot: f64, strike: f64, expiry: f64, rate: f64, div_yield: f64, heston: &HestonParams, lambda: f64, mu_j: f64, sigma_j: f64, opt_type: OptionType) -> BatesJumpSensitivities {
    options_pricing_engine::ad::bates_jump_sensitivities_ad(F64, spot, strike, expiry, rate, div_yield, heston, lambda, mu_j, sigma_j, opt_type)
}

fn csqrt(z: Complex<Dual>) -> Complex<Dual> {
    options_pricing_engine::ad::csqrt(F64, z)
}

fn params() -> HestonParams {
    HestonParams { v0: 0.04, kappa: 2.0, theta: 0.04, sigma: 0.3, rho: -0.7 }
}

#[test]
fn bates_ad_matches_heston_ad_when_jumps_off() {
    let p = params();
    let h = heston_greeks_ad(100.0, 100.0, 1.0, 0.05, 0.0, &p, OptionType::Call);
    let b = bates_greeks_ad(100.0, 100.0, 1.0, 0.05, 0.0, &p, 0.0, 0.0, 1e-8, OptionType::Call);
    assert!((h.price - b.price).abs() < 1e-6, "price: heston={:.6} bates={:.6}", h.price, b.price);
    assert!((h.vega  - b.vega ).abs() < 1e-4, "vega:  heston={:.6} bates={:.6}", h.vega,  b.vega);
}

#[test]
fn bates_ad_matches_analytic_across_wings() {
    let heston = params();
    let (lambda, mu_j, sigma_j) = (0.5, -0.1, 0.15);
    let bp = BatesParams { heston, lambda, mu_j, sigma_j };
    let expiries = [0.02_f64, 0.1, 0.5, 1.0, 2.0];
    let strikes  = [70.0_f64, 85.0, 100.0, 115.0, 130.0];
    for &t in &expiries {
        for &k in &strikes {
            let ad  = bates_greeks_ad(100.0, k, t, 0.05, 0.0, &heston, lambda, mu_j, sigma_j, OptionType::Call);
            let std = bates_price(100.0, k, t, 0.05, 0.0, &bp, OptionType::Call);
            let err = (ad.price - std).abs();
            assert!(err < 1e-6, "T={t} K={k}: ad={:.8} std={:.8} err={err:.2e}", ad.price, std);
        }
    }
}

#[test]
fn bates_ad_vega_close_to_bump() {
    let heston = params();
    let (lambda, mu_j, sigma_j) = (0.5, -0.1, 0.15);
    let bp = BatesParams { heston, lambda, mu_j, sigma_j };
    let ad  = bates_greeks_ad(100.0, 100.0, 1.0, 0.05, 0.0, &heston, lambda, mu_j, sigma_j, OptionType::Call);
    let std = bates_price_and_greeks(100.0, 100.0, 1.0, 0.05, 0.0, &bp, OptionType::Call);
    let err = (ad.vega - std.vega).abs() / std.vega.abs().max(1e-10);
    assert!(err < 0.01, "vega rel err={err:.4}: ad={:.4} bump={:.4}", ad.vega, std.vega);
}

#[test]
fn bates_ad_greeks_signs() {
    let p = params();
    let r = bates_greeks_ad(100.0, 100.0, 1.0, 0.05, 0.0, &p, 0.5, -0.1, 0.15, OptionType::Call);
    assert!(r.delta > 0.0 && r.delta < 1.0, "delta={}", r.delta);
    assert!(r.gamma > 0.0, "gamma={}", r.gamma);
    assert!(r.vega  > 0.0, "vega={}",  r.vega);
}

#[test]
fn jump_sensitivities_price_matches_analytic() {
    let heston = params();
    let (lambda, mu_j, sigma_j) = (0.5, -0.1, 0.15);
    let bp = BatesParams { heston, lambda, mu_j, sigma_j };
    let sens = bates_jump_sensitivities_ad(100.0, 100.0, 1.0, 0.05, 0.0, &heston, lambda, mu_j, sigma_j, OptionType::Call);
    let std  = bates_price(100.0, 100.0, 1.0, 0.05, 0.0, &bp, OptionType::Call);
    assert!((sens.price - std).abs() < 1e-6, "price mismatch: ad={:.8} std={:.8}", sens.price, std);
}

#[test]
fn jump_sensitivities_match_fd() {
    let heston = params();
    let (lambda, mu_j, sigma_j) = (0.5, -0.1, 0.15);
    let (s, k, t, r, q) = (100.0, 100.0, 1.0, 0.05, 0.0);
    let ot = OptionType::Call;

    let price_at = |l: f64, mj: f64, sj: f64| {
        bates_price(s, k, t, r, q, &BatesParams { heston, lambda: l, mu_j: mj, sigma_j: sj }, ot)
    };

    let sens = bates_jump_sensitivities_ad(s, k, t, r, q, &heston, lambda, mu_j, sigma_j, ot);

    let h_l  = 1e-5;
    let fd_l = (price_at(lambda+h_l, mu_j, sigma_j) - price_at(lambda-h_l, mu_j, sigma_j)) / (2.0*h_l);
    let h_mj  = 1e-5;
    let fd_mj = (price_at(lambda, mu_j+h_mj, sigma_j) - price_at(lambda, mu_j-h_mj, sigma_j)) / (2.0*h_mj);
    let h_sj  = 1e-5;
    let fd_sj = (price_at(lambda, mu_j, sigma_j+h_sj) - price_at(lambda, mu_j, sigma_j-h_sj)) / (2.0*h_sj);

    let rel = |a: f64, b: f64| (a - b).abs() / b.abs().max(1e-8);
    assert!(rel(sens.d_lambda, fd_l) < 1e-3,
        "d_lambda: ad={:.8} fd={:.8} rel_err={:.2e}", sens.d_lambda, fd_l, rel(sens.d_lambda, fd_l));
    assert!(rel(sens.d_mu_j, fd_mj) < 1e-3,
        "d_mu_j: ad={:.8} fd={:.8} rel_err={:.2e}", sens.d_mu_j, fd_mj, rel(sens.d_mu_j, fd_mj));
    assert!(rel(sens.d_sigma_j, fd_sj) < 1e-3,
        "d_sigma_j: ad={:.8} fd={:.8} rel_err={:.2e}", sens.d_sigma_j, fd_sj, rel(sens.d_sigma_j, fd_sj));
}

#[test]
fn jump_sensitivities_signs_are_sane() {
    let heston = params();
    let sens = bates_jump_sensitivities_ad(100.0, 100.0, 1.0, 0.05, 0.0, &heston, 0.5, -0.1, 0.15, OptionType::Call);
    assert!(sens.d_mu_j < 0.0,
        "expected the drift-compensator effect to dominate here, d_mu_j={}", sens.d_mu_j);
}

#[test]
fn csqrt_matches_builtin_value_and_fd_derivative() {
    let mags = [1e-6, 1e-3, 0.1, 1.0, 10.0, 100.0, 1e4];
    let mut angles = vec![];
    let n = 25;
    for i in 0..n {
        angles.push(-std::f64::consts::PI + 2.0 * std::f64::consts::PI * i as f64 / (n - 1) as f64);
    }
    for &tiny in &[1e-2, 1e-4, 1e-6, 1e-8, 1e-10] {
        for &base in &[0.0_f64, std::f64::consts::PI, std::f64::consts::FRAC_PI_2, -std::f64::consts::FRAC_PI_2] {
            angles.push(base + tiny);
            angles.push(base - tiny);
        }
    }

    let mut checked = 0;
    let mut worst_val = 0.0_f64;
    let mut worst_dot = 0.0_f64;
    for &mag in &mags {
        for &ang in &angles {
            let a = mag * ang.cos();
            let b = mag * ang.sin();

            let h = (a.abs() + b.abs()).max(1e-300) * 1e-6;
            let f = |x: f64| Complex64::new(x, b).sqrt();
            let fd_re = (f(a+h).re - f(a-h).re) / (2.0*h);
            let fd_im = (f(a+h).im - f(a-h).im) / (2.0*h);

            let z = Complex { re: Dual::active(a), im: Dual::constant(b) };
            let got = csqrt(z);
            let expected_val = Complex64::new(a, b).sqrt();

            let val_err = ((got.re.val - expected_val.re).powi(2) + (got.im.val - expected_val.im).powi(2)).sqrt()
                / expected_val.norm().max(1e-300);
            let dot_err = ((got.re.dot - fd_re).powi(2) + (got.im.dot - fd_im).powi(2)).sqrt()
                / (fd_re.powi(2) + fd_im.powi(2)).sqrt().max(1e-6);

            worst_val = worst_val.max(val_err);
            worst_dot = worst_dot.max(dot_err);
            checked += 1;
            assert!(val_err < 1e-9,
                "csqrt value mismatch at a={a} b={b}: got=({},{}) expected=({},{}) err={val_err:.2e}",
                got.re.val, got.im.val, expected_val.re, expected_val.im);
            assert!(dot_err < 1e-4,
                "csqrt derivative mismatch at a={a} b={b}: got=({},{}) fd=({fd_re},{fd_im}) err={dot_err:.2e}",
                got.re.dot, got.im.dot);
        }
    }
    assert!(checked > 250, "sweep too small to trust, only checked {checked} points");
    println!("csqrt_matches_builtin_value_and_fd_derivative: {checked} points, worst val err {worst_val:.2e}, worst dot err {worst_dot:.2e}");
}

#[test]
fn dual5_matches_scalar_dual_across_wings() {
    let p = params();
    let expiries = [0.02_f64, 0.1, 0.5, 1.0, 2.0];
    let strikes  = [70.0_f64, 85.0, 100.0, 115.0, 130.0];
    for &t in &expiries {
        for &k in &strikes {
            let a5 = heston_greeks_ad5(100.0, k, t, 0.05, 0.0, &p, OptionType::Call);
            let a1 = heston_greeks_ad(100.0, k, t, 0.05, 0.0, &p, OptionType::Call);
            let check = |name: &str, x: f64, y: f64| {

                if y.abs() < 1e-6 {
                    assert!((x - y).abs() < 1e-8,
                        "{name} mismatch (near-zero) at T={t} K={k}: dual5={x:.10} scalar={y:.10}");
                    return;
                }
                let err = (x - y).abs() / y.abs();
                assert!(err < 1e-6, "{name} mismatch at T={t} K={k}: dual5={x:.8} scalar={y:.8} rel_err={err:.2e}");
            };
            check("price", a5.price, a1.price);
            check("vega",  a5.vega,  a1.vega);
        }
    }
}

#[test]
fn dual5_matches_scalar_dual_greeks_signs_and_magnitude() {
    let p = params();
    let a5 = heston_greeks_ad5(100.0, 100.0, 1.0, 0.05, 0.0, &p, OptionType::Call);
    let a1 = heston_greeks_ad(100.0, 100.0, 1.0, 0.05, 0.0, &p, OptionType::Call);
    assert!((a5.delta - a1.delta).abs() < 1e-6, "delta: dual5={} scalar={}", a5.delta, a1.delta);
    assert!((a5.gamma - a1.gamma).abs() < 1e-6, "gamma: dual5={} scalar={}", a5.gamma, a1.gamma);
    assert!((a5.theta - a1.theta).abs() < 1e-6, "theta: dual5={} scalar={}", a5.theta, a1.theta);
    assert!((a5.rho   - a1.rho  ).abs() < 1e-6, "rho: dual5={} scalar={}",   a5.rho,   a1.rho);
    assert!((a5.vanna - a1.vanna).abs() < 1e-4, "vanna: dual5={} scalar={}", a5.vanna, a1.vanna);
    assert!((a5.volga - a1.volga).abs() < 1e-3, "volga: dual5={} scalar={}", a5.volga, a1.volga);
}

#[test]
fn price_matches_standard() {
    let p   = params();
    let ad  = heston_greeks_ad(100.0, 100.0, 1.0, 0.05, 0.0, &p, OptionType::Call);
    let std = heston_price_and_greeks(100.0, 100.0, 1.0, 0.05, 0.0, &p, OptionType::Call);
    assert!((ad.price - std.price).abs() < 1e-10, "price: ad={:.6} std={:.6}", ad.price, std.price);
}

#[test]
fn ad_greeks_signs() {
    let p = params();
    let r = heston_greeks_ad(100.0, 100.0, 1.0, 0.05, 0.0, &p, OptionType::Call);
    assert!(r.delta > 0.0 && r.delta < 1.0, "delta={}", r.delta);
    assert!(r.gamma > 0.0, "gamma={}", r.gamma);
    assert!(r.vega  > 0.0, "vega={}",  r.vega);
    assert!(r.rho   > 0.0, "rho={}",   r.rho);
}

#[test]
fn put_delta_negative() {
    let p = params();
    let r = heston_greeks_ad(100.0, 100.0, 1.0, 0.05, 0.0, &p, OptionType::Put);
    assert!(r.delta < 0.0 && r.delta > -1.0, "put delta={}", r.delta);
}

#[test]
fn price_matches_standard_across_wings() {
    let p = params();
    let expiries = [0.02_f64, 0.1, 0.5, 1.0, 2.0];
    let strikes  = [70.0_f64, 85.0, 100.0, 115.0, 130.0];
    for &t in &expiries {
        for &k in &strikes {
            let ad  = heston_greeks_ad(100.0, k, t, 0.05, 0.0, &p, OptionType::Call);
            let std = heston_price(100.0, k, t, 0.05, 0.0, &p, OptionType::Call);
            let err = (ad.price - std).abs();
            assert!(err < 1e-6, "T={t} K={k}: ad={:.8} std={:.8} err={err:.2e}", ad.price, std);
        }
    }
}

#[test]
fn vega_close_to_bump() {
    let p   = params();
    let ad  = heston_greeks_ad(100.0, 100.0, 1.0, 0.05, 0.0, &p, OptionType::Call);
    let std = heston_price_and_greeks(100.0, 100.0, 1.0, 0.05, 0.0, &p, OptionType::Call);
    let err = (ad.vega - std.vega).abs() / std.vega.abs().max(1e-10);
    assert!(err < 0.01, "vega rel err={:.4}: ad={:.4} bump={:.4}", err, ad.vega, std.vega);
}
