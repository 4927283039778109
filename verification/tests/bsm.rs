//! Black-Scholes-Merton and Black-76.
#![allow(dead_code)]
use options_pricing_engine::Elementary;
use options_pricing_engine::OptionType;

type OptionContract = options_pricing_engine::types::OptionContract<f64>;
type PricingResult = options_pricing_engine::types::PricingResult<f64>;

/// The powers of ten.
const POWERS: [f64; 17] = [
    1e0, 1e1, 1e2, 1e3, 1e4, 1e5, 1e6, 1e7, 1e8, 1e9, 1e10, 1e11, 1e12, 1e13, 1e14, 1e15, 1e16,
];

/// The elementary functions of double precision.
#[derive(Clone, Copy)]
struct F64;

impl Elementary<f64> for F64 {
    fn exp(&self, x: f64) -> f64 {
        x.exp()
    }
    fn ln(&self, x: f64) -> f64 {
        x.ln()
    }
    fn sqrt(&self, x: f64) -> f64 {
        x.sqrt()
    }
    fn sin(&self, x: f64) -> f64 {
        x.sin()
    }
    fn cos(&self, x: f64) -> f64 {
        x.cos()
    }
    fn atan2(&self, y: f64, x: f64) -> f64 {
        y.atan2(x)
    }
    fn hypot(&self, x: f64, y: f64) -> f64 {
        x.hypot(y)
    }
    fn powf(&self, x: f64, y: f64) -> f64 {
        x.powf(y)
    }
    fn erfc(&self, x: f64) -> f64 {
        libm::erfc(x)
    }
    fn is_finite(&self, x: f64) -> bool {
        x.is_finite()
    }
    fn is_sign_positive(&self, x: f64) -> bool {
        x.is_sign_positive()
    }
    fn infinity(&self) -> f64 {
        f64::INFINITY
    }
    fn rank(&self, x: f64) -> i64 {
        let bits = x.to_bits() as i64;
        bits ^ (((bits >> 63) as u64) >> 1) as i64
    }
    fn decimal(&self, mantissa: i64, exponent: i32) -> f64 {
        if mantissa.unsigned_abs() < 1 << 53 && -16 <= exponent && exponent <= 0 {
            mantissa as f64 / POWERS[exponent.unsigned_abs() as usize]
        } else if mantissa == 1 && exponent == -300 {
            1e-300
        } else {
            format!("{mantissa}e{exponent}").parse().unwrap()
        }
    }
    fn count(&self, n: usize) -> f64 {
        n as f64
    }
}

fn bsm_price(c: &OptionContract) -> f64 {
    options_pricing_engine::bsm::bsm_price(F64, c)
}

fn bsm_price_and_greeks(c: &OptionContract) -> PricingResult {
    options_pricing_engine::bsm::bsm_price_and_greeks(F64, c)
}

fn black76_price_and_greeks(fwd: f64, strike: f64, expiry: f64, rate: f64, vol: f64, opt_type: OptionType) -> PricingResult {
    options_pricing_engine::bsm::black76_price_and_greeks(F64, fwd, strike, expiry, rate, vol, opt_type)
}

fn atm_call() -> OptionContract {
    OptionContract {
        spot: 100.0, strike: 100.0, expiry: 1.0,
        rate: 0.05, div_yield: 0.0, vol: 0.2,
        opt_type: OptionType::Call,
    }
}

#[test]
fn bsm_call_put_parity() {
    let c = atm_call();
    let call = bsm_price(&c);
    let put  = bsm_price(&OptionContract { opt_type: OptionType::Put, ..c });
    let rhs  = c.spot*(-c.div_yield*c.expiry).exp() - c.strike*(-c.rate*c.expiry).exp();
    assert!((call - put - rhs).abs() < 1e-10);
}

#[test]
fn theta_matches_finite_difference() {
    let dt = 1.0 / 365.0;
    for q in [0.0, 0.03] {
        for opt in [OptionType::Call, OptionType::Put] {
            let c = OptionContract { div_yield: q, opt_type: opt, ..atm_call() };
            let analytic = bsm_price_and_greeks(&c).theta;
            let fd = (bsm_price(&OptionContract { expiry: c.expiry - dt, ..c })
                      - bsm_price(&c)) / dt;
            assert!((analytic - fd).abs() < 0.02,
                    "q={q} {opt:?}: analytic {analytic:.4} vs fd {fd:.4}");
        }
    }
}

#[test]
fn theta_put_call_parity() {
    let c  = OptionContract { div_yield: 0.03, ..atm_call() };
    let tc = bsm_price_and_greeks(&c).theta;
    let tp = bsm_price_and_greeks(&OptionContract { opt_type: OptionType::Put, ..c }).theta;
    let rhs = c.div_yield * c.spot * (-c.div_yield*c.expiry).exp()
            - c.rate * c.strike * (-c.rate*c.expiry).exp();
    assert!((tc - tp - rhs).abs() < 1e-10, "{tc:.6} - {tp:.6} != {rhs:.6}");
}

#[test]
fn greeks_sign_check() {
    let r = bsm_price_and_greeks(&atm_call());
    assert!(r.delta > 0.0 && r.delta < 1.0);
    assert!(r.gamma > 0.0);
    assert!(r.vega  > 0.0);
}

#[test]
fn black76_sanity() {
    let c   = atm_call();
    let fwd = c.spot * ((c.rate - c.div_yield)*c.expiry).exp();
    let b76 = black76_price_and_greeks(fwd, c.strike, c.expiry, c.rate, c.vol, c.opt_type);
    let bsm = bsm_price_and_greeks(&c);
    assert!((b76.price - bsm.price).abs() < 1e-8);
}

fn black76_price(fwd: f64, k: f64, t: f64, r: f64, v: f64, ot: OptionType) -> f64 {
    black76_price_and_greeks(fwd, k, t, r, v, ot).price
}

#[test]
fn black76_rho_matches_fd() {
    let (fwd, k, t, v) = (100.0, 95.0, 0.75, 0.22);
    for ot in [OptionType::Call, OptionType::Put] {
        let r = 0.04;
        let dr = 1e-5;
        let analytic = black76_price_and_greeks(fwd, k, t, r, v, ot).rho;
        let fd = (black76_price(fwd, k, t, r+dr, v, ot) - black76_price(fwd, k, t, r-dr, v, ot)) / (2.0*dr);
        let rel_err = (analytic - fd).abs() / fd.abs().max(1e-8);
        assert!(rel_err < 1e-5, "{ot:?}: analytic={analytic:.6} fd={fd:.6}");
    }
}
