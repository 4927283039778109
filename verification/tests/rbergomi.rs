//! The kernel of the hybrid scheme.
#![allow(dead_code)]
use options_pricing_engine::Elementary;

/// The powers of ten.
const POWERS: [f64; 17] = [
    1e0, 1e1, 1e2, 1e3, 1e4, 1e5, 1e6, 1e7, 1e8, 1e9, 1e10, 1e11, 1e12, 1e13, 1e14, 1e15, 1e16,
];

/// The elementary functions of double precision.
#[derive(Clone, Copy)]
struct F64;

impl Elementary<f64> for F64 {
    fn exp(&self, x: f64) -> f64 {
        x.exp()
    }
    fn ln(&self, x: f64) -> f64 {
        x.ln()
    }
    fn sqrt(&self, x: f64) -> f64 {
        x.sqrt()
    }
    fn sin(&self, x: f64) -> f64 {
        x.sin()
    }
    fn cos(&self, x: f64) -> f64 {
        x.cos()
    }
    fn atan2(&self, y: f64, x: f64) -> f64 {
        y.atan2(x)
    }
    fn hypot(&self, x: f64, y: f64) -> f64 {
        x.hypot(y)
    }
    fn powf(&self, x: f64, y: f64) -> f64 {
        x.powf(y)
    }
    fn erfc(&self, x: f64) -> f64 {
        libm::erfc(x)
    }
    fn is_finite(&self, x: f64) -> bool {
        x.is_finite()
    }
    fn is_sign_positive(&self, x: f64) -> bool {
        x.is_sign_positive()
    }
    fn infinity(&self) -> f64 {
        f64::INFINITY
    }
    fn rank(&self, x: f64) -> i64 {
        let bits = x.to_bits() as i64;
        bits ^ (((bits >> 63) as u64) >> 1) as i64
    }
    fn decimal(&self, mantissa: i64, exponent: i32) -> f64 {
        if mantissa.unsigned_abs() < 1 << 53 && -16 <= exponent && exponent <= 0 {
            mantissa as f64 / POWERS[exponent.unsigned_abs() as usize]
        } else if mantissa == 1 && exponent == -300 {
            1e-300
        } else {
            format!("{mantissa}e{exponent}").parse().unwrap()
        }
    }
    fn count(&self, n: usize) -> f64 {
        n as f64
    }
}

fn hyp2f1(a: f64, b: f64, c: f64, z: f64) -> f64 {
    options_pricing_engine::rbergomi::hyp2f1(F64, a, b, c, z)
}

fn optimal_eval_point(alpha: f64, k: usize) -> f64 {
    options_pricing_engine::rbergomi::optimal_eval_point(F64, alpha, k)
}

fn hybrid_scheme_covariance(alpha: f64, kappa: usize, n: f64) -> Vec<f64> {
    options_pricing_engine::rbergomi::hybrid_scheme_covariance(F64, alpha, kappa, n)
}

fn cholesky_lower(matrix: &[f64], dim: usize) -> Option<Vec<f64>> {
    options_pricing_engine::rbergomi::cholesky_lower(F64, &matrix.to_vec(), dim)
}

const ALPHA_PAPER: f64 = -0.43;

#[test]
fn hyp2f1_matches_numeric_quadrature() {

    let alpha = ALPHA_PAPER;
    let (a, b) = (1.0_f64, 2.0_f64);

    let g = |u: f64| if u == 0.0 { 0.0 } else {
        2.0 * u.powf(2.0 * alpha + 1.0) * (b - a + u * u).powf(alpha)
    };

    let panels = 200_000;
    let u_max  = a.sqrt();
    let h = u_max / panels as f64;
    let mut integral = g(0.0) + g(u_max);
    for i in 1..panels {
        let u = i as f64 * h;
        let w = if i % 2 == 0 { 2.0 } else { 4.0 };
        integral += w * g(u);
    }
    integral *= h / 3.0;

    let closed_form = a.powf(alpha + 1.0) * b.powf(alpha) / (alpha + 1.0)
        * hyp2f1(-alpha, 1.0, alpha + 2.0, a / b);

    let rel_err = (integral - closed_form).abs() / closed_form.abs();
    assert!(rel_err < 1e-5, "integral={integral} closed_form={closed_form} rel_err={rel_err}");
}

#[test]
fn optimal_eval_point_lies_in_cell() {
    for alpha in [-0.05, -0.2, -0.43, -0.49] {
        for k in 1..=5 {
            let b_star = optimal_eval_point(alpha, k);
            assert!(b_star > (k - 1) as f64 && b_star < k as f64,
                "alpha={alpha} k={k} b*={b_star}, expected in ({}, {})", k - 1, k);
        }
    }
}

#[test]
fn sigma_11_matches_ito_isometry() {

    let sigma = hybrid_scheme_covariance(ALPHA_PAPER, 2, 100.0);
    assert!((sigma[0] - 0.01).abs() < 1e-12);
}

#[test]
fn sigma_is_symmetric() {
    let dim = 3;
    let sigma = hybrid_scheme_covariance(ALPHA_PAPER, 2, 100.0);
    for i in 0..dim {
        for j in 0..dim {
            assert!((sigma[i * dim + j] - sigma[j * dim + i]).abs() < 1e-14);
        }
    }
}

#[test]
fn cholesky_reconstructs_hybrid_scheme_covariance() {

    let dim = 3;
    let sigma = hybrid_scheme_covariance(ALPHA_PAPER, 2, 100.0);
    let l = cholesky_lower(&sigma, dim).expect("Sigma should be positive definite");

    for i in 0..dim {
        for j in 0..dim {
            let mut recon = 0.0;
            for p in 0..dim {
                recon += l[i * dim + p] * l[j * dim + p];
            }
            let err = (recon - sigma[i * dim + j]).abs();
            assert!(err < 1e-10, "i={i} j={j} recon={recon} sigma={} err={err}", sigma[i * dim + j]);
        }
    }
}

#[test]
fn cholesky_stays_positive_definite_near_h_zero() {

    for alpha in [-0.49, -0.45, -0.40] {
        let sigma = hybrid_scheme_covariance(alpha, 2, 500.0);
        assert!(cholesky_lower(&sigma, 3).is_some(), "alpha={alpha} should stay PD");
    }
}

#[test]
fn covariance_scales_with_n_as_expected() {

    let alpha = ALPHA_PAPER;
    let s1 = hybrid_scheme_covariance(alpha, 2, 100.0);
    let s2 = hybrid_scheme_covariance(alpha, 2, 200.0);
    let expected_ratio = 2.0_f64.powf(2.0 * alpha + 1.0);
    let actual_ratio   = s1[4] / s2[4];
    assert!((actual_ratio - expected_ratio).abs() / expected_ratio < 1e-9,
        "actual={actual_ratio} expected={expected_ratio}");
}
