//! Local volatility against a reference.
#![allow(dead_code)]
use options_pricing_engine::Elementary;

type LocalVolSurface = options_pricing_engine::types::LocalVolSurface<f64>;

/// The powers of ten.
const POWERS: [f64; 17] = [
    1e0, 1e1, 1e2, 1e3, 1e4, 1e5, 1e6, 1e7, 1e8, 1e9, 1e10, 1e11, 1e12, 1e13, 1e14, 1e15, 1e16,
];

/// The elementary functions of double precision.
#[derive(Clone, Copy)]
struct F64;

impl Elementary<f64> for F64 {
    fn exp(&self, x: f64) -> f64 {
        x.exp()
    }
    fn ln(&self, x: f64) -> f64 {
        x.ln()
    }
    fn sqrt(&self, x: f64) -> f64 {
        x.sqrt()
    }
    fn sin(&self, x: f64) -> f64 {
        x.sin()
    }
    fn cos(&self, x: f64) -> f64 {
        x.cos()
    }
    fn atan2(&self, y: f64, x: f64) -> f64 {
        y.atan2(x)
    }
    fn hypot(&self, x: f64, y: f64) -> f64 {
        x.hypot(y)
    }
    fn powf(&self, x: f64, y: f64) -> f64 {
        x.powf(y)
    }
    fn erfc(&self, x: f64) -> f64 {
        libm::erfc(x)
    }
    fn is_finite(&self, x: f64) -> bool {
        x.is_finite()
    }
    fn is_sign_positive(&self, x: f64) -> bool {
        x.is_sign_positive()
    }
    fn infinity(&self) -> f64 {
        f64::INFINITY
    }
    fn rank(&self, x: f64) -> i64 {
        let bits = x.to_bits() as i64;
        bits ^ (((bits >> 63) as u64) >> 1) as i64
    }
    fn decimal(&self, mantissa: i64, exponent: i32) -> f64 {
        if mantissa.unsigned_abs() < 1 << 53 && -16 <= exponent && exponent <= 0 {
            mantissa as f64 / POWERS[exponent.unsigned_abs() as usize]
        } else if mantissa == 1 && exponent == -300 {
            1e-300
        } else {
            format!("{mantissa}e{exponent}").parse().unwrap()
        }
    }
    fn count(&self, n: usize) -> f64 {
        n as f64
    }
}

fn dupire_local_vol(surf: &LocalVolSurface, spot: f64, rate: f64, div_yield: f64, i_k: usize, j_t: usize) -> f64 {
    options_pricing_engine::local_vol::dupire_local_vol(F64, surf, spot, rate, div_yield, i_k, j_t)
}

fn monotone_cubic_interp(xs: &[f64], ys: &[f64], xq: f64) -> f64 {
    options_pricing_engine::monotone_cubic_interp(F64, &xs.to_vec(), &ys.to_vec(), xq)
}

fn reference_local_vol(
    strikes: &[f64], expiries: &[f64], local_vols: &[f64],
    spot: f64, rate: f64, div_yield: f64,
    i_k: usize, j_t: usize,
) -> f64 {
    let nk = strikes.len();
    let k = strikes[i_k];
    let t = expiries[j_t];

    let iv_col: Vec<f64> = (0..nk).map(|i| local_vols[i*expiries.len() + j_t]).collect();
    let ivar_at_k = |kk: f64| -> f64 {
        let iv = monotone_cubic_interp(strikes, &iv_col, kk);
        iv*iv*t
    };

    let ne = expiries.len();
    let iv_row: Vec<f64> = (0..ne).map(|j| local_vols[i_k*ne + j]).collect();
    let ivar_at_t = |tt: f64| -> f64 {
        let iv = monotone_cubic_interp(expiries, &iv_row, tt);
        iv*iv*tt
    };

    let x0 = (spot/k).ln() + (rate - div_yield)*t;
    let w0 = ivar_at_k(k);

    let k_of_x = |x: f64| spot * ((rate-div_yield)*t - x).exp();

    let h = 1e-4;
    let dw_dx   = (ivar_at_k(k_of_x(x0+h)) - ivar_at_k(k_of_x(x0-h))) / (2.0*h);
    let d2w_dx2 = (ivar_at_k(k_of_x(x0+h)) - 2.0*w0 + ivar_at_k(k_of_x(x0-h))) / (h*h);

    let ht = 1e-4;
    let dw_dt = (ivar_at_t(t+ht) - ivar_at_t(t-ht)) / (2.0*ht);

    let num = dw_dt;
    let denom = 1.0 - (x0/w0)*dw_dx
              + 0.25*(-0.25 - 1.0/w0 + x0*x0/(w0*w0))*dw_dx*dw_dx
              + 0.5*d2w_dx2;
    if denom <= 1e-10 || num <= 0.0 { return 0.0; }
    (num/denom).max(0.0).sqrt()
}

#[test]
fn dupire_matches_independent_x_based_reference() {

    let strikes: Vec<f64>  = vec![70.0, 85.0, 100.0, 115.0, 130.0];
    let expiries: Vec<f64> = vec![0.25, 0.5, 1.0, 2.0];
    let spot = 100.0_f64;
    let mut local_vols = vec![0.0; strikes.len()*expiries.len()];
    for (i, &k) in strikes.iter().enumerate() {
        for (j, &t) in expiries.iter().enumerate() {
            let moneyness = (k/spot).ln();

            let iv = 0.25 - 0.15*moneyness + 0.03*t.sqrt();
            local_vols[i*expiries.len()+j] = iv;
        }
    }
    let surf = LocalVolSurface::new(strikes.clone(), expiries.clone(), local_vols.clone());
    let (rate, div_yield) = (0.03, 0.01);

    for i_k in 1..strikes.len()-1 {
        for j_t in 1..expiries.len()-1 {
            let repo_val = dupire_local_vol(&surf, spot, rate, div_yield, i_k, j_t);
            let ref_val  = reference_local_vol(&strikes, &expiries, &local_vols, spot, rate, div_yield, i_k, j_t);
            println!("K={} T={}: repo={:.6} reference(x-based)={:.6}", strikes[i_k], expiries[j_t], repo_val, ref_val);
        }
    }
}
