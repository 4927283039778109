//! Analytic sensitivities against differences.
#![allow(dead_code)]
use options_pricing_engine::Elementary;
use options_pricing_engine::OptionType;

type OptionContract = options_pricing_engine::types::OptionContract<f64>;
type PricingResult = options_pricing_engine::types::PricingResult<f64>;

/// The powers of ten.
const POWERS: [f64; 17] = [
    1e0, 1e1, 1e2, 1e3, 1e4, 1e5, 1e6, 1e7, 1e8, 1e9, 1e10, 1e11, 1e12, 1e13, 1e14, 1e15, 1e16,
];

/// The elementary functions of double precision.
#[derive(Clone, Copy)]
struct F64;

impl Elementary<f64> for F64 {
    fn exp(&self, x: f64) -> f64 {
        x.exp()
    }
    fn ln(&self, x: f64) -> f64 {
        x.ln()
    }
    fn sqrt(&self, x: f64) -> f64 {
        x.sqrt()
    }
    fn sin(&self, x: f64) -> f64 {
        x.sin()
    }
    fn cos(&self, x: f64) -> f64 {
        x.cos()
    }
    fn atan2(&self, y: f64, x: f64) -> f64 {
        y.atan2(x)
    }
    fn hypot(&self, x: f64, y: f64) -> f64 {
        x.hypot(y)
    }
    fn powf(&self, x: f64, y: f64) -> f64 {
        x.powf(y)
    }
    fn erfc(&self, x: f64) -> f64 {
        libm::erfc(x)
    }
    fn is_finite(&self, x: f64) -> bool {
        x.is_finite()
    }
    fn is_sign_positive(&self, x: f64) -> bool {
        x.is_sign_positive()
    }
    fn infinity(&self) -> f64 {
        f64::INFINITY
    }
    fn rank(&self, x: f64) -> i64 {
        let bits = x.to_bits() as i64;
        bits ^ (((bits >> 63) as u64) >> 1) as i64
    }
    fn decimal(&self, mantissa: i64, exponent: i32) -> f64 {
        if mantissa.unsigned_abs() < 1 << 53 && -16 <= exponent && exponent <= 0 {
            mantissa as f64 / POWERS[exponent.unsigned_abs() as usize]
        } else if mantissa == 1 && exponent == -300 {
            1e-300
        } else {
            format!("{mantissa}e{exponent}").parse().unwrap()
        }
    }
    fn count(&self, n: usize) -> f64 {
        n as f64
    }
}

fn bsm_price(c: &OptionContract) -> f64 {
    options_pricing_engine::bsm::bsm_price(F64, c)
}

fn bsm_price_and_greeks(c: &OptionContract) -> PricingResult {
    options_pricing_engine::bsm::bsm_price_and_greeks(F64, c)
}

fn black76_price_and_greeks(fwd: f64, strike: f64, expiry: f64, rate: f64, vol: f64, opt_type: OptionType) -> PricingResult {
    options_pricing_engine::bsm::black76_price_and_greeks(F64, fwd, strike, expiry, rate, vol, opt_type)
}

fn contract(t: f64, ot: OptionType, q: f64, r: f64, v: f64) -> OptionContract {
    OptionContract { spot: 100.0, strike: 100.0, expiry: t, rate: r, div_yield: q, vol: v, opt_type: ot }
}

fn fd_theta(c: &OptionContract, dt: f64) -> f64 {
    let up = OptionContract { expiry: c.expiry + dt, ..*c };
    let dn = OptionContract { expiry: c.expiry - dt, ..*c };
    -(bsm_price(&up) - bsm_price(&dn)) / (2.0 * dt)
}

fn fd_delta(c: &OptionContract, ds: f64) -> f64 {
    let up = OptionContract { spot: c.spot + ds, ..*c };
    let dn = OptionContract { spot: c.spot - ds, ..*c };
    (bsm_price(&up) - bsm_price(&dn)) / (2.0 * ds)
}

fn fd_vega(c: &OptionContract, dv: f64) -> f64 {
    let up = OptionContract { vol: c.vol + dv, ..*c };
    let dn = OptionContract { vol: c.vol - dv, ..*c };
    (bsm_price(&up) - bsm_price(&dn)) / (2.0 * dv)
}

fn fd_rho(c: &OptionContract, dr: f64) -> f64 {
    let up = OptionContract { rate: c.rate + dr, ..*c };
    let dn = OptionContract { rate: c.rate - dr, ..*c };
    (bsm_price(&up) - bsm_price(&dn)) / (2.0 * dr)
}

fn fd_vanna(c: &OptionContract, ds: f64, dv: f64) -> f64 {

    let up = OptionContract { vol: c.vol + dv, ..*c };
    let dn = OptionContract { vol: c.vol - dv, ..*c };
    (fd_delta(&up, ds) - fd_delta(&dn, ds)) / (2.0 * dv)
}

fn fd_volga(c: &OptionContract, dv: f64) -> f64 {

    let up = OptionContract { vol: c.vol + dv, ..*c };
    let dn = OptionContract { vol: c.vol - dv, ..*c };
    (bsm_price(&up) - 2.0*bsm_price(c) + bsm_price(&dn)) / (dv * dv)
}

fn assert_close(name: &str, analytic: f64, fd: f64, tol: f64) {
    let rel = (analytic - fd).abs() / fd.abs().max(1.0);
    assert!(rel < tol, "{name}: analytic={analytic:.6} fd={fd:.6} rel_err={rel:.6}");
}

#[test]
fn all_bsm_greeks_match_fd() {
    for ot in [OptionType::Call, OptionType::Put] {
        for &q in &[0.0, 0.02, 0.06] {
            for &r in &[0.0, 0.01, 0.05] {
                for &v in &[0.15, 0.25, 0.45] {
                    let c = contract(1.0, ot, q, r, v);
                    let g = bsm_price_and_greeks(&c);
                    assert_close("delta", g.delta, fd_delta(&c, 1e-4), 1e-4);
                    assert_close("vega",  g.vega,  fd_vega(&c, 1e-4),  1e-4);
                    assert_close("theta", g.theta, fd_theta(&c, 1e-5), 1e-3);
                    assert_close("rho",   g.rho,   fd_rho(&c, 1e-5),   1e-3);
                    assert_close("vanna", g.vanna, fd_vanna(&c, 1e-3, 1e-4), 1e-2);
                    assert_close("volga", g.volga, fd_volga(&c, 1e-3), 1e-2);
                }
            }
        }
    }
}

#[test]
fn black76_greeks_match_fd() {
    let (k, t, v) = (100.0, 1.0, 0.25);
    for ot in [OptionType::Call, OptionType::Put] {
        for &fwd in &[80.0, 100.0, 120.0] {
            for &r in &[0.0, 0.03, 0.07] {
                let g = black76_price_and_greeks(fwd, k, t, r, v, ot);
                let price = |f: f64, tt: f64| black76_price_and_greeks(f, k, tt, r, v, ot).price;
                let df = 1e-4;
                let fd_delta = (price(fwd+df, t) - price(fwd-df, t)) / (2.0*df);
                let dt = 1e-5;
                let fd_theta = -(price(fwd, t+dt) - price(fwd, t-dt)) / (2.0*dt);
                assert_close("b76 delta", g.delta, fd_delta, 1e-4);
                assert_close("b76 theta", g.theta, fd_theta, 1e-3);
            }
        }
    }
}
