//! Inverse sensitivities against differences.
#![allow(dead_code)]
use options_pricing_engine::Elementary;
use options_pricing_engine::OptionType;

type InverseGreeks = options_pricing_engine::deribit_inverse::InverseGreeks<f64>;

/// The powers of ten.
const POWERS: [f64; 17] = [
    1e0, 1e1, 1e2, 1e3, 1e4, 1e5, 1e6, 1e7, 1e8, 1e9, 1e10, 1e11, 1e12, 1e13, 1e14, 1e15, 1e16,
];

/// The elementary functions of double precision.
#[derive(Clone, Copy)]
struct F64;

impl Elementary<f64> for F64 {
    fn exp(&self, x: f64) -> f64 {
        x.exp()
    }
    fn ln(&self, x: f64) -> f64 {
        x.ln()
    }
    fn sqrt(&self, x: f64) -> f64 {
        x.sqrt()
    }
    fn sin(&self, x: f64) -> f64 {
        x.sin()
    }
    fn cos(&self, x: f64) -> f64 {
        x.cos()
    }
    fn atan2(&self, y: f64, x: f64) -> f64 {
        y.atan2(x)
    }
    fn hypot(&self, x: f64, y: f64) -> f64 {
        x.hypot(y)
    }
    fn powf(&self, x: f64, y: f64) -> f64 {
        x.powf(y)
    }
    fn erfc(&self, x: f64) -> f64 {
        libm::erfc(x)
    }
    fn is_finite(&self, x: f64) -> bool {
        x.is_finite()
    }
    fn is_sign_positive(&self, x: f64) -> bool {
        x.is_sign_positive()
    }
    fn infinity(&self) -> f64 {
        f64::INFINITY
    }
    fn rank(&self, x: f64) -> i64 {
        let bits = x.to_bits() as i64;
        bits ^ (((bits >> 63) as u64) >> 1) as i64
    }
    fn decimal(&self, mantissa: i64, exponent: i32) -> f64 {
        if mantissa.unsigned_abs() < 1 << 53 && -16 <= exponent && exponent <= 0 {
            mantissa as f64 / POWERS[exponent.unsigned_abs() as usize]
        } else if mantissa == 1 && exponent == -300 {
            1e-300
        } else {
            format!("{mantissa}e{exponent}").parse().unwrap()
        }
    }
    fn count(&self, n: usize) -> f64 {
        n as f64
    }
}

fn price_coin(opt_type: OptionType, forward: f64, strike: f64, vol: f64, t: f64) -> f64 {
    options_pricing_engine::deribit_inverse::price_coin(F64, opt_type, forward, strike, vol, t)
}

fn greeks(opt_type: OptionType, forward: f64, strike: f64, vol: f64, t: f64) -> InverseGreeks {
    options_pricing_engine::deribit_inverse::greeks(F64, opt_type, forward, strike, vol, t)
}

fn fd_delta(ot: OptionType, f: f64, k: f64, v: f64, t: f64, df: f64) -> f64 {
    (price_coin(ot, f+df, k, v, t) - price_coin(ot, f-df, k, v, t)) / (2.0*df)
}

fn fd_theta(ot: OptionType, f: f64, k: f64, v: f64, t: f64, dt: f64) -> f64 {
    -(price_coin(ot, f, k, v, t+dt) - price_coin(ot, f, k, v, t-dt)) / (2.0*dt)
}

fn fd_vega(ot: OptionType, f: f64, k: f64, v: f64, t: f64, dv: f64) -> f64 {
    (price_coin(ot, f, k, v+dv, t) - price_coin(ot, f, k, v-dv, t)) / (2.0*dv)
}

fn fd_gamma(ot: OptionType, f: f64, k: f64, v: f64, t: f64, df: f64) -> f64 {
    (price_coin(ot, f+df, k, v, t) - 2.0*price_coin(ot, f, k, v, t) + price_coin(ot, f-df, k, v, t)) / (df*df)
}

fn fd_vanna(ot: OptionType, f: f64, k: f64, v: f64, t: f64, df: f64, dv: f64) -> f64 {
    (fd_delta(ot, f, k, v+dv, t, df) - fd_delta(ot, f, k, v-dv, t, df)) / (2.0*dv)
}

fn fd_volga(ot: OptionType, f: f64, k: f64, v: f64, t: f64, dv: f64) -> f64 {
    (price_coin(ot, f, k, v+dv, t) - 2.0*price_coin(ot, f, k, v, t) + price_coin(ot, f, k, v-dv, t)) / (dv*dv)
}

fn assert_close(name: &str, a: f64, b: f64, tol: f64) {
    let rel = (a - b).abs() / b.abs().max(1e-8);
    assert!(rel < tol, "{name}: analytic={a:.8} fd={b:.8} rel_err={rel:.6}");
}

#[test]
fn inverse_greeks_match_fd_grid() {
    for ot in [OptionType::Call, OptionType::Put] {
        for &f in &[80.0, 100.0, 120.0] {
            for &t in &[0.1, 0.5, 1.5] {
                for &v in &[0.4, 0.8] {
                    let k = 100.0;
                    let g = greeks(ot, f, k, v, t);
                    assert_close("delta", g.delta, fd_delta(ot, f, k, v, t, 1e-3), 1e-3);
                    assert_close("gamma", g.gamma, fd_gamma(ot, f, k, v, t, 1e-2), 1e-2);
                    assert_close("vega",  g.vega,  fd_vega(ot, f, k, v, t, 1e-4), 1e-3);
                    assert_close("theta", g.theta, fd_theta(ot, f, k, v, t, 1e-5), 1e-3);
                    assert_close("vanna", g.vanna, fd_vanna(ot, f, k, v, t, 1e-2, 1e-4), 2e-2);
                    assert_close("volga", g.volga, fd_volga(ot, f, k, v, t, 1e-3), 2e-2);
                }
            }
        }
    }
}
