//! Local volatility and the repair of surfaces.
#![allow(dead_code)]
use options_pricing_engine::Elementary;
use options_pricing_engine::ViolationKind;

type LocalVolSurface = options_pricing_engine::types::LocalVolSurface<f64>;
type SurfaceAudit = options_pricing_engine::repair::SurfaceAudit<f64>;

/// The powers of ten.
const POWERS: [f64; 17] = [
    1e0, 1e1, 1e2, 1e3, 1e4, 1e5, 1e6, 1e7, 1e8, 1e9, 1e10, 1e11, 1e12, 1e13, 1e14, 1e15, 1e16,
];

/// The elementary functions of double precision.
#[derive(Clone, Copy)]
struct F64;

impl Elementary<f64> for F64 {
    fn exp(&self, x: f64) -> f64 {
        x.exp()
    }
    fn ln(&self, x: f64) -> f64 {
        x.ln()
    }
    fn sqrt(&self, x: f64) -> f64 {
        x.sqrt()
    }
    fn sin(&self, x: f64) -> f64 {
        x.sin()
    }
    fn cos(&self, x: f64) -> f64 {
        x.cos()
    }
    fn atan2(&self, y: f64, x: f64) -> f64 {
        y.atan2(x)
    }
    fn hypot(&self, x: f64, y: f64) -> f64 {
        x.hypot(y)
    }
    fn powf(&self, x: f64, y: f64) -> f64 {
        x.powf(y)
    }
    fn erfc(&self, x: f64) -> f64 {
        libm::erfc(x)
    }
    fn is_finite(&self, x: f64) -> bool {
        x.is_finite()
    }
    fn is_sign_positive(&self, x: f64) -> bool {
        x.is_sign_positive()
    }
    fn infinity(&self) -> f64 {
        f64::INFINITY
    }
    fn rank(&self, x: f64) -> i64 {
        let bits = x.to_bits() as i64;
        bits ^ (((bits >> 63) as u64) >> 1) as i64
    }
    fn decimal(&self, mantissa: i64, exponent: i32) -> f64 {
        if mantissa.unsigned_abs() < 1 << 53 && -16 <= exponent && exponent <= 0 {
            mantissa as f64 / POWERS[exponent.unsigned_abs() as usize]
        } else if mantissa == 1 && exponent == -300 {
            1e-300
        } else {
            format!("{mantissa}e{exponent}").parse().unwrap()
        }
    }
    fn count(&self, n: usize) -> f64 {
        n as f64
    }
}

fn dupire_local_vol(surf: &LocalVolSurface, spot: f64, rate: f64, div_yield: f64, i_k: usize, j_t: usize) -> f64 {
    options_pricing_engine::local_vol::dupire_local_vol(F64, surf, spot, rate, div_yield, i_k, j_t)
}

fn monotone_cubic_interp(xs: &[f64], ys: &[f64], xq: f64) -> f64 {
    options_pricing_engine::monotone_cubic_interp(F64, &xs.to_vec(), &ys.to_vec(), xq)
}

fn check_and_repair_surface(surf: &mut LocalVolSurface) -> SurfaceAudit {
    options_pricing_engine::repair::check_and_repair_surface(F64, surf)
}

fn flat_surf(iv: f64) -> LocalVolSurface {
    let ks = vec![80.0, 90.0, 100.0, 110.0, 120.0];
    let ts = vec![0.25, 0.5, 1.0, 2.0];
    let n  = ks.len() * ts.len();
    LocalVolSurface::new(ks, ts, vec![iv; n])
}

#[test]
fn flat_surface_recovers_iv() {
    let lv = dupire_local_vol(&flat_surf(0.2), 100.0, 0.02, 0.0, 2, 1);
    assert!((lv - 0.2).abs() < 0.01, "local vol = {lv:.4}");
}

#[test]
fn interp_flat() {
    let xs = vec![0.0, 1.0, 2.0, 3.0];
    let ys = vec![0.2; 4];
    assert!((monotone_cubic_interp(&xs, &ys, 1.5) - 0.2).abs() < 1e-10);
}

#[test]
fn interp_no_overshoot() {
    let xs: Vec<f64> = (0..10).map(|i| i as f64).collect();
    let ys: Vec<f64> = xs.iter().map(|&x| x.sqrt()).collect();
    let mut prev = ys[0];
    for i in 1..9 {
        let y = monotone_cubic_interp(&xs, &ys, xs[i] + 0.3);
        assert!(y >= prev - 1e-10);
        prev = y;
    }
}

#[test]
fn nonuniform_grid_curvature() {

    let ks = vec![90.0, 95.0, 105.0, 125.0];
    let ts = vec![0.5, 1.0];

    let ivs = vec![0.2_f64; ks.len() * ts.len()];
    let surf = LocalVolSurface::new(ks, ts, ivs);
    let lv = dupire_local_vol(&surf, 100.0, 0.02, 0.0, 1, 0);
    assert!((lv - 0.2).abs() < 0.02, "nonuniform curvature err: lv={lv:.4}");
}

#[test]
fn interp_no_overshoot_asymmetric() {
    let xs = vec![0.0, 0.1, 0.11, 1.0, 2.0];
    let ys: Vec<f64> = vec![0.0, 0.5,  0.5, 0.6, 0.7];
    for j in 0..4 {
        let lo = ys[j].min(ys[j+1]);
        let hi = ys[j].max(ys[j+1]);
        for k in 0..5 {
            let xq = xs[j] + (xs[j+1] - xs[j]) * (k as f64 / 4.0);
            let y  = monotone_cubic_interp(&xs, &ys, xq);
            assert!(y >= lo - 1e-10 && y <= hi + 1e-10,
                "overshoot at xq={xq:.3}: y={y:.6} not in [{lo:.4},{hi:.4}]");
        }
    }
}

fn calendar_violation() -> LocalVolSurface {
    let ks = vec![90.0, 100.0, 110.0];
    let ts = vec![0.5, 1.0];

    let ivs = vec![
        0.20, 0.22,
        0.25, 0.15,
        0.20, 0.22,
    ];
    LocalVolSurface::new(ks, ts, ivs)
}

fn butterfly_violation() -> LocalVolSurface {
    let ks = vec![90.0, 100.0, 110.0];
    let ts = vec![0.5, 1.0];

    let ivs = vec![
        (0.02_f64/0.5).sqrt(), (0.03_f64/1.0).sqrt(),
        (0.05_f64/0.5).sqrt(), (0.04_f64/1.0).sqrt(),
        (0.02_f64/0.5).sqrt(), (0.03_f64/1.0).sqrt(),
    ];
    LocalVolSurface::new(ks, ts, ivs)
}

#[test]
fn detects_calendar_violation() {
    let mut surf  = calendar_violation();
    let audit = check_and_repair_surface(&mut surf);
    assert!(audit.violations.iter().any(|v| v.kind == ViolationKind::CalendarSpread),
        "calendar violation not detected");
}

#[test]
fn repairs_calendar_violation() {
    let mut surf = calendar_violation();
    check_and_repair_surface(&mut surf);

    let nk = surf.strikes.len();
    let nt = surf.expiries.len();
    for i_k in 0..nk {
        for j_t in 1..nt {
            let w_prev = surf.get(i_k, j_t-1).powi(2) * surf.expiries[j_t-1];
            let w_cur  = surf.get(i_k, j_t  ).powi(2) * surf.expiries[j_t];
            assert!(w_cur >= w_prev - 1e-10,
                "calendar still violated at i_k={i_k} j_t={j_t}: w_prev={w_prev:.6} w_cur={w_cur:.6}");
        }
    }
}

#[test]
fn detects_butterfly_violation() {
    let mut surf  = butterfly_violation();
    let audit = check_and_repair_surface(&mut surf);
    assert!(audit.violations.iter().any(|v| v.kind == ViolationKind::Butterfly),
        "butterfly violation not detected");
}

#[test]
fn repairs_butterfly_violation() {
    let mut surf = butterfly_violation();
    check_and_repair_surface(&mut surf);
    let nk = surf.strikes.len();
    let nt = surf.expiries.len();
    for j_t in 0..nt {
        for i_k in 1..(nk-1) {
            let wm = surf.get(i_k-1, j_t).powi(2) * surf.expiries[j_t];
            let w0 = surf.get(i_k,   j_t).powi(2) * surf.expiries[j_t];
            let wp = surf.get(i_k+1, j_t).powi(2) * surf.expiries[j_t];
            assert!(wm - 2.0*w0 + wp >= -1e-8,
                "butterfly still violated at i_k={i_k} j_t={j_t}");
        }
    }
}

#[test]
fn clean_surface_has_no_violations() {
    let mut surf  = LocalVolSurface::new(
        vec![90.0, 100.0, 110.0],
        vec![0.5, 1.0],
        vec![0.20, 0.20, 0.20, 0.20, 0.20, 0.20],
    );
    let audit = check_and_repair_surface(&mut surf);
    assert_eq!(audit.violations.len(), 0, "clean surface should have zero violations");
    assert_eq!(audit.repaired, 0);
}
