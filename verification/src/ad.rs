//! Forward-mode differentiation: dual numbers carried through the characteristic function
//! and the quadrature give exact derivatives of a price in the parameters of its model.
use crate::bates::{jumps, jumps_spec};
use crate::characteristic::{
    cf_integrand, cf_integrand_spec, model_cf, model_cf_spec, ComplexKit, JumpParams,
};
use crate::complex::Complex;
pub use crate::dual::{Dual, Dual5};
use crate::greeks::{
    central_theta, central_theta_spec, rate_rho, rate_rho_spec, reprice, reprice_spec, spot_delta,
    spot_delta_spec, vol_bump_levels, vol_bump_levels_spec, BumpPriceable,
};
use crate::number::{
    atan2_of, cos_of, decimal_of, exp_of, fmax, frac, is_finite_of, is_sign_positive_of, larger,
    lawful, ln_of, num, ratio, regular, sin_of, sqrt_of, whole, Elementary, Number,
};
use crate::quadrature::{gk_integrate, gk_integrate_spec, Tangent};
use crate::types::{BatesParams, HestonParams, OptionType, PricingResult};
use core::ops::Neg;
use vstd::prelude::*;
use vstd::std_specs::cmp::{PartialEqIs, PartialOrdIs};
use vstd::std_specs::ops::{AddSpec, DivSpec, MulSpec, NegSpec, SubSpec};

verus! {

/// Projection `i` of a number with five derivatives: the number with the derivative in
/// parameter `i` alone.
pub open spec fn direction<T: Number>(x: Dual5<T>, i: int) -> Dual<T> {
    Dual { val: x.val, dot: x.dot[i] }
}

/// Five derivatives computed together are the five derivatives computed one at a time:
/// the operators of the two kinds of dual number agree in every direction, to the last
/// rounding.
pub proof fn law_directions_agree<T: Number, M: Elementary<T>>(
    m: M,
    x: Dual5<T>,
    y: Dual5<T>,
    i: int,
)
    requires
        0 <= i < 5,
    ensures
        direction(x.add_spec(y), i) == direction(x, i).add_spec(direction(y, i)),
        direction(x.sub_spec(y), i) == direction(x, i).sub_spec(direction(y, i)),
        direction(x.mul_spec(y), i) == direction(x, i).mul_spec(direction(y, i)),
        direction(x.div_spec(y), i) == direction(x, i).div_spec(direction(y, i)),
        direction(x.neg_spec(), i) == direction(x, i).neg_spec(),
        direction(x.exp_spec(m), i) == direction(x, i).exp_spec(m),
        direction(x.ln_spec(m), i) == direction(x, i).ln_spec(m),
        direction(x.sqrt_spec(m), i) == direction(x, i).sqrt_spec(m),
{
}

/// The derivative that rides along with an integrand, in one parameter.
#[derive(Debug, Clone, Copy)]
pub struct Slope<T> {
    pub dot: T,
}

/// The derivatives that ride along with an integrand, in five parameters.
#[derive(Debug, Clone, Copy)]
pub struct Gradient<T> {
    pub dot: [T; 5],
}

impl<T: Number, M: Elementary<T>> Tangent<T, M> for Slope<T> {
    open spec fn zero_spec() -> Slope<T> {
        Slope { dot: num::<T>(0) }
    }

    open spec fn plus_spec(self, rhs: Slope<T>) -> Slope<T> {
        Slope { dot: self.dot.add_spec(rhs.dot) }
    }

    open spec fn minus_spec(self, rhs: Slope<T>) -> Slope<T> {
        Slope { dot: self.dot.sub_spec(rhs.dot) }
    }

    open spec fn times_spec(self, w: T) -> Slope<T> {
        Slope { dot: self.dot.mul_spec(w) }
    }

    open spec fn over_spec(self, w: T) -> Slope<T> {
        Slope { dot: self.dot.div_spec(w) }
    }

    open spec fn usable_spec(self, m: M) -> bool {
        is_finite_of(m, self.dot)
    }

    fn zero() -> (res: Slope<T>) {
        Slope { dot: whole::<T>(0) }
    }

    fn plus(self, rhs: Slope<T>) -> (res: Slope<T>) {
        Slope { dot: self.dot + rhs.dot }
    }

    fn minus(self, rhs: Slope<T>) -> (res: Slope<T>) {
        Slope { dot: self.dot - rhs.dot }
    }

    fn times(self, w: T) -> (res: Slope<T>) {
        Slope { dot: self.dot * w }
    }

    fn over(self, w: T) -> (res: Slope<T>) {
        Slope { dot: self.dot / w }
    }

    fn usable(self, m: M) -> (res: bool) {
        m.is_finite(self.dot)
    }
}

impl<T: Number, M: Elementary<T>> Tangent<T, M> for Gradient<T> {
    open spec fn zero_spec() -> Gradient<T> {
        Gradient { dot: [num::<T>(0), num::<T>(0), num::<T>(0), num::<T>(0), num::<T>(0)] }
    }

    open spec fn plus_spec(self, rhs: Gradient<T>) -> Gradient<T> {
        let (a, b) = (self.dot, rhs.dot);
        Gradient {
            dot: [
                a[0].add_spec(b[0]),
                a[1].add_spec(b[1]),
                a[2].add_spec(b[2]),
                a[3].add_spec(b[3]),
                a[4].add_spec(b[4]),
            ],
        }
    }

    open spec fn minus_spec(self, rhs: Gradient<T>) -> Gradient<T> {
        let (a, b) = (self.dot, rhs.dot);
        Gradient {
            dot: [
                a[0].sub_spec(b[0]),
                a[1].sub_spec(b[1]),
                a[2].sub_spec(b[2]),
                a[3].sub_spec(b[3]),
                a[4].sub_spec(b[4]),
            ],
        }
    }

    open spec fn times_spec(self, w: T) -> Gradient<T> {
        let a = self.dot;
        Gradient {
            dot: [
                a[0].mul_spec(w),
                a[1].mul_spec(w),
                a[2].mul_spec(w),
                a[3].mul_spec(w),
                a[4].mul_spec(w),
            ],
        }
    }

    open spec fn over_spec(self, w: T) -> Gradient<T> {
        let a = self.dot;
        Gradient {
            dot: [
                a[0].div_spec(w),
                a[1].div_spec(w),
                a[2].div_spec(w),
                a[3].div_spec(w),
                a[4].div_spec(w),
            ],
        }
    }

    open spec fn usable_spec(self, m: M) -> bool {
        true
    }

    fn zero() -> (res: Gradient<T>) {
        Gradient {
            dot: [whole::<T>(0), whole::<T>(0), whole::<T>(0), whole::<T>(0), whole::<T>(0)],
        }
    }

    fn plus(self, rhs: Gradient<T>) -> (res: Gradient<T>) {
        let (a, b) = (self.dot, rhs.dot);
        Gradient { dot: [a[0] + b[0], a[1] + b[1], a[2] + b[2], a[3] + b[3], a[4] + b[4]] }
    }

    fn minus(self, rhs: Gradient<T>) -> (res: Gradient<T>) {
        let (a, b) = (self.dot, rhs.dot);
        Gradient { dot: [a[0] - b[0], a[1] - b[1], a[2] - b[2], a[3] - b[3], a[4] - b[4]] }
    }

    fn times(self, w: T) -> (res: Gradient<T>) {
        let a = self.dot;
        Gradient { dot: [a[0] * w, a[1] * w, a[2] * w, a[3] * w, a[4] * w] }
    }

    fn over(self, w: T) -> (res: Gradient<T>) {
        let a = self.dot;
        Gradient { dot: [a[0] / w, a[1] / w, a[2] / w, a[3] / w, a[4] / w] }
    }

    fn usable(self, m: M) -> (res: bool) {
        true
    }
}

/// The exponential of a complex dual number, by the rule for e to the power a times the
/// cosine and the sine of b.
pub open spec fn cexp_spec<T: Number, M: Elementary<T>>(
    m: M,
    z: Complex<Dual<T>>,
) -> Complex<Dual<T>> {
    let ea = exp_of(m, z.re.val);
    let cb = cos_of(m, z.im.val);
    let sb = sin_of(m, z.im.val);
    Complex {
        re: Dual {
            val: ea.mul_spec(cb),
            dot: ea.mul_spec(z.re.dot.mul_spec(cb).sub_spec(z.im.dot.mul_spec(sb))),
        },
        im: Dual {
            val: ea.mul_spec(sb),
            dot: ea.mul_spec(z.re.dot.mul_spec(sb).add_spec(z.im.dot.mul_spec(cb))),
        },
    }
}

/// The exponential of a complex dual number, by the rule for e to the power a times the
/// cosine and the sine of b.
pub fn cexp<T: Number, M: Elementary<T>>(m: M, z: Complex<Dual<T>>) -> (res: Complex<Dual<T>>)
    requires
        lawful::<T, M>(m),
    ensures
        res == cexp_spec(m, z),
{
    let ea = m.exp(z.re.val);
    let cb = m.cos(z.im.val);
    let sb = m.sin(z.im.val);
    Complex {
        re: Dual { val: ea * cb, dot: ea * (z.re.dot * cb - z.im.dot * sb) },
        im: Dual { val: ea * sb, dot: ea * (z.re.dot * sb + z.im.dot * cb) },
    }
}

/// The principal logarithm of a complex dual number.
pub open spec fn cln_spec<T: Number, M: Elementary<T>>(
    m: M,
    z: Complex<Dual<T>>,
) -> Complex<Dual<T>> {
    let a = z.re.val;
    let b = z.im.val;
    let r2 = a.mul_spec(a).add_spec(b.mul_spec(b));
    Complex {
        re: Dual {
            val: ln_of(m, sqrt_of(m, r2)),
            dot: a.mul_spec(z.re.dot).add_spec(b.mul_spec(z.im.dot)).div_spec(r2),
        },
        im: Dual {
            val: atan2_of(m, b, a),
            dot: a.mul_spec(z.im.dot).sub_spec(b.mul_spec(z.re.dot)).div_spec(r2),
        },
    }
}

/// The principal logarithm of a complex dual number.
pub fn cln<T: Number, M: Elementary<T>>(m: M, z: Complex<Dual<T>>) -> (res: Complex<Dual<T>>)
    requires
        lawful::<T, M>(m),
    ensures
        res == cln_spec(m, z),
{
    let a = z.re.val;
    let b = z.im.val;
    let r2 = a * a + b * b;
    Complex {
        re: Dual { val: m.ln(m.sqrt(r2)), dot: (a * z.re.dot + b * z.im.dot) / r2 },
        im: Dual { val: m.atan2(b, a), dot: (a * z.im.dot - b * z.re.dot) / r2 },
    }
}

/// The principal square root of a complex dual number. Of the two parts the one whose
/// square is a sum is computed first, and the other by division, so that nothing cancels.
pub open spec fn csqrt_spec<T: Number, M: Elementary<T>>(m: M, z: Complex<Dual<T>>) -> Complex<
    Dual<T>,
> {
    let (a, b) = (z.re, z.im);
    let plus = is_sign_positive_of(m, b.val);
    let half = Dual::constant_spec(frac::<T>(1, 2));
    let two = Dual::constant_spec(num::<T>(2));
    let r = a.mul_spec(a).add_spec(b.mul_spec(b)).sqrt_spec(m);
    if b.val.is_eq(&num::<T>(0)) {
        if a.val.is_gt(&num::<T>(0)) {
            let re = a.sqrt_spec(m);
            Complex { re, im: b.div_spec(re.mul_spec(two)) }
        } else if a.val.is_ge(&num::<T>(0)) {
            Complex { re: a.sqrt_spec(m), im: b }
        } else {
            let root = a.neg_spec().sqrt_spec(m);
            let im = if plus {
                root
            } else {
                root.neg_spec()
            };
            Complex { re: b.div_spec(im.mul_spec(two)), im }
        }
    } else if a.val.is_ge(&num::<T>(0)) {
        let re = r.add_spec(a).mul_spec(half).sqrt_spec(m);
        Complex { re, im: b.div_spec(re.mul_spec(two)) }
    } else {
        let side = r.sub_spec(a).mul_spec(half).sqrt_spec(m);
        let im = if plus {
            side
        } else {
            side.neg_spec()
        };
        Complex { re: b.div_spec(im.mul_spec(two)), im }
    }
}

/// The principal square root of a complex dual number.
pub fn csqrt<T: Number, M: Elementary<T>>(m: M, z: Complex<Dual<T>>) -> (res: Complex<Dual<T>>)
    requires
        lawful::<T, M>(m),
    ensures
        res == csqrt_spec(m, z),
{
    let (a, b) = (z.re, z.im);
    let zero = whole::<T>(0);
    let plus = m.is_sign_positive(b.val);
    let half = Dual::constant(ratio::<T>(1, 2));
    let two = Dual::constant(whole::<T>(2));
    if b.val == zero {
        if a.val > zero {
            let re = a.sqrt(m);
            return Complex { re, im: b / (re * two) };
        }
        if a.val >= zero {
            return Complex { re: a.sqrt(m), im: b };
        }
        let root = a.neg().sqrt(m);
        let im = if plus {
            root
        } else {
            root.neg()
        };
        return Complex { re: b / (im * two), im };
    }
    let r = (a * a + b * b).sqrt(m);
    if a.val >= zero {
        let re = ((r + a) * half).sqrt(m);
        Complex { re, im: b / (re * two) }
    } else {
        let side = ((r - a) * half).sqrt(m);
        let im = if plus {
            side
        } else {
            side.neg()
        };
        Complex { re: b / (im * two), im }
    }
}

/// The kit of numbers with one derivative.
#[derive(Debug, Clone, Copy)]
pub struct DualKit<M> {
    pub m: M,
}

impl<T: Number, M: Elementary<T>> ComplexKit<Dual<T>> for DualKit<M> {
    open spec fn ready(self) -> bool {
        lawful::<T, M>(self.m)
    }

    open spec fn whole_spec(self, n: int) -> Dual<T> {
        Dual::constant_spec(num::<T>(n))
    }

    open spec fn ratio_spec(self, n: int, d: int) -> Dual<T> {
        Dual::constant_spec(frac::<T>(n, d))
    }

    open spec fn exp_spec(self, x: Dual<T>) -> Dual<T> {
        x.exp_spec(self.m)
    }

    open spec fn cexp_spec(self, z: Complex<Dual<T>>) -> Complex<Dual<T>> {
        cexp_spec(self.m, z)
    }

    open spec fn cln_spec(self, z: Complex<Dual<T>>) -> Complex<Dual<T>> {
        cln_spec(self.m, z)
    }

    open spec fn csqrt_spec(self, z: Complex<Dual<T>>) -> Complex<Dual<T>> {
        csqrt_spec(self.m, z)
    }

    fn whole(self, n: i32) -> (res: Dual<T>) {
        Dual::constant(whole::<T>(n))
    }

    fn ratio(self, n: i32, d: i32) -> (res: Dual<T>) {
        Dual::constant(ratio::<T>(n, d))
    }

    fn exp(self, x: Dual<T>) -> (res: Dual<T>) {
        x.exp(self.m)
    }

    fn cexp(self, z: Complex<Dual<T>>) -> (res: Complex<Dual<T>>) {
        cexp(self.m, z)
    }

    fn cln(self, z: Complex<Dual<T>>) -> (res: Complex<Dual<T>>) {
        cln(self.m, z)
    }

    fn csqrt(self, z: Complex<Dual<T>>) -> (res: Complex<Dual<T>>) {
        csqrt(self.m, z)
    }
}

/// The exponential of a complex number with five derivatives.
pub open spec fn cexp5_spec<T: Number, M: Elementary<T>>(
    m: M,
    z: Complex<Dual5<T>>,
) -> Complex<Dual5<T>> {
    let c = exp_of(m, z.re.val).mul_spec(cos_of(m, z.im.val));
    let s = exp_of(m, z.re.val).mul_spec(sin_of(m, z.im.val));
    let a = z.re.dot;
    let b = z.im.dot;
    Complex {
        re: Dual5 {
            val: c,
            dot: [
                c.mul_spec(a[0]).sub_spec(s.mul_spec(b[0])),
                c.mul_spec(a[1]).sub_spec(s.mul_spec(b[1])),
                c.mul_spec(a[2]).sub_spec(s.mul_spec(b[2])),
                c.mul_spec(a[3]).sub_spec(s.mul_spec(b[3])),
                c.mul_spec(a[4]).sub_spec(s.mul_spec(b[4])),
            ],
        },
        im: Dual5 {
            val: s,
            dot: [
                s.mul_spec(a[0]).add_spec(c.mul_spec(b[0])),
                s.mul_spec(a[1]).add_spec(c.mul_spec(b[1])),
                s.mul_spec(a[2]).add_spec(c.mul_spec(b[2])),
                s.mul_spec(a[3]).add_spec(c.mul_spec(b[3])),
                s.mul_spec(a[4]).add_spec(c.mul_spec(b[4])),
            ],
        },
    }
}

/// The exponential of a complex number with five derivatives.
pub fn cexp5<T: Number, M: Elementary<T>>(m: M, z: Complex<Dual5<T>>) -> (res: Complex<Dual5<T>>)
    requires
        lawful::<T, M>(m),
    ensures
        res == cexp5_spec(m, z),
{
    let c = m.exp(z.re.val) * m.cos(z.im.val);
    let s = m.exp(z.re.val) * m.sin(z.im.val);
    let a = z.re.dot;
    let b = z.im.dot;
    Complex {
        re: Dual5 {
            val: c,
            dot: [
                c * a[0] - s * b[0],
                c * a[1] - s * b[1],
                c * a[2] - s * b[2],
                c * a[3] - s * b[3],
                c * a[4] - s * b[4],
            ],
        },
        im: Dual5 {
            val: s,
            dot: [
                s * a[0] + c * b[0],
                s * a[1] + c * b[1],
                s * a[2] + c * b[2],
                s * a[3] + c * b[3],
                s * a[4] + c * b[4],
            ],
        },
    }
}

/// The principal logarithm of a complex number with five derivatives.
pub open spec fn cln5_spec<T: Number, M: Elementary<T>>(
    m: M,
    z: Complex<Dual5<T>>,
) -> Complex<Dual5<T>> {
    let x = z.re.val;
    let y = z.im.val;
    let a = z.re.dot;
    let b = z.im.dot;
    let r2 = x.mul_spec(x).add_spec(y.mul_spec(y));
    Complex {
        re: Dual5 {
            val: frac::<T>(1, 2).mul_spec(ln_of(m, r2)),
            dot: [
                x.mul_spec(a[0]).add_spec(y.mul_spec(b[0])).div_spec(r2),
                x.mul_spec(a[1]).add_spec(y.mul_spec(b[1])).div_spec(r2),
                x.mul_spec(a[2]).add_spec(y.mul_spec(b[2])).div_spec(r2),
                x.mul_spec(a[3]).add_spec(y.mul_spec(b[3])).div_spec(r2),
                x.mul_spec(a[4]).add_spec(y.mul_spec(b[4])).div_spec(r2),
            ],
        },
        im: Dual5 {
            val: atan2_of(m, y, x),
            dot: [
                x.mul_spec(b[0]).sub_spec(y.mul_spec(a[0])).div_spec(r2),
                x.mul_spec(b[1]).sub_spec(y.mul_spec(a[1])).div_spec(r2),
                x.mul_spec(b[2]).sub_spec(y.mul_spec(a[2])).div_spec(r2),
                x.mul_spec(b[3]).sub_spec(y.mul_spec(a[3])).div_spec(r2),
                x.mul_spec(b[4]).sub_spec(y.mul_spec(a[4])).div_spec(r2),
            ],
        },
    }
}

/// The principal logarithm of a complex number with five derivatives.
pub fn cln5<T: Number, M: Elementary<T>>(m: M, z: Complex<Dual5<T>>) -> (res: Complex<Dual5<T>>)
    requires
        lawful::<T, M>(m),
    ensures
        res == cln5_spec(m, z),
{
    let x = z.re.val;
    let y = z.im.val;
    let a = z.re.dot;
    let b = z.im.dot;
    let r2 = x * x + y * y;
    Complex {
        re: Dual5 {
            val: ratio::<T>(1, 2) * m.ln(r2),
            dot: [
                (x * a[0] + y * b[0]) / r2,
                (x * a[1] + y * b[1]) / r2,
                (x * a[2] + y * b[2]) / r2,
                (x * a[3] + y * b[3]) / r2,
                (x * a[4] + y * b[4]) / r2,
            ],
        },
        im: Dual5 {
            val: m.atan2(y, x),
            dot: [
                (x * b[0] - y * a[0]) / r2,
                (x * b[1] - y * a[1]) / r2,
                (x * b[2] - y * a[2]) / r2,
                (x * b[3] - y * a[3]) / r2,
                (x * b[4] - y * a[4]) / r2,
            ],
        },
    }
}

/// The principal square root of a complex number with five derivatives. Of the two parts the
/// one whose square is a sum is computed first, and the other by division, so that nothing
/// cancels.
pub open spec fn csqrt5_spec<T: Number, M: Elementary<T>>(m: M, z: Complex<Dual5<T>>) -> Complex<
    Dual5<T>,
> {
    let (a, b) = (z.re, z.im);
    let plus = is_sign_positive_of(m, b.val);
    let half = Dual5::constant_spec(frac::<T>(1, 2));
    let two = Dual5::constant_spec(num::<T>(2));
    let r = a.mul_spec(a).add_spec(b.mul_spec(b)).sqrt_spec(m);
    if b.val.is_eq(&num::<T>(0)) {
        if a.val.is_gt(&num::<T>(0)) {
            let re = a.sqrt_spec(m);
            Complex { re, im: b.div_spec(re.mul_spec(two)) }
        } else if a.val.is_ge(&num::<T>(0)) {
            Complex { re: a.sqrt_spec(m), im: b }
        } else {
            let root = a.neg_spec().sqrt_spec(m);
            let im = if plus {
                root
            } else {
                root.neg_spec()
            };
            Complex { re: b.div_spec(im.mul_spec(two)), im }
        }
    } else if a.val.is_ge(&num::<T>(0)) {
        let re = r.add_spec(a).mul_spec(half).sqrt_spec(m);
        Complex { re, im: b.div_spec(re.mul_spec(two)) }
    } else {
        let side = r.sub_spec(a).mul_spec(half).sqrt_spec(m);
        let im = if plus {
            side
        } else {
            side.neg_spec()
        };
        Complex { re: b.div_spec(im.mul_spec(two)), im }
    }
}

/// The principal square root of a complex number with five derivatives.
pub fn csqrt5<T: Number, M: Elementary<T>>(m: M, z: Complex<Dual5<T>>) -> (res: Complex<Dual5<T>>)
    requires
        lawful::<T, M>(m),
    ensures
        res == csqrt5_spec(m, z),
{
    let (a, b) = (z.re, z.im);
    let zero = whole::<T>(0);
    let plus = m.is_sign_positive(b.val);
    let half = Dual5::constant(ratio::<T>(1, 2));
    let two = Dual5::constant(whole::<T>(2));
    if b.val == zero {
        if a.val > zero {
            let re = a.sqrt(m);
            return Complex { re, im: b / (re * two) };
        }
        if a.val >= zero {
            return Complex { re: a.sqrt(m), im: b };
        }
        let root = a.neg().sqrt(m);
        let im = if plus {
            root
        } else {
            root.neg()
        };
        return Complex { re: b / (im * two), im };
    }
    let r = (a * a + b * b).sqrt(m);
    if a.val >= zero {
        let re = ((r + a) * half).sqrt(m);
        Complex { re, im: b / (re * two) }
    } else {
        let side = ((r - a) * half).sqrt(m);
        let im = if plus {
            side
        } else {
            side.neg()
        };
        Complex { re: b / (im * two), im }
    }
}

/// The kit of numbers with five derivatives.
#[derive(Debug, Clone, Copy)]
pub struct Dual5Kit<M> {
    pub m: M,
}

impl<T: Number, M: Elementary<T>> ComplexKit<Dual5<T>> for Dual5Kit<M> {
    open spec fn ready(self) -> bool {
        lawful::<T, M>(self.m)
    }

    open spec fn whole_spec(self, n: int) -> Dual5<T> {
        Dual5::constant_spec(num::<T>(n))
    }

    open spec fn ratio_spec(self, n: int, d: int) -> Dual5<T> {
        Dual5::constant_spec(frac::<T>(n, d))
    }

    open spec fn exp_spec(self, x: Dual5<T>) -> Dual5<T> {
        x.exp_spec(self.m)
    }

    open spec fn cexp_spec(self, z: Complex<Dual5<T>>) -> Complex<Dual5<T>> {
        cexp5_spec(self.m, z)
    }

    open spec fn cln_spec(self, z: Complex<Dual5<T>>) -> Complex<Dual5<T>> {
        cln5_spec(self.m, z)
    }

    open spec fn csqrt_spec(self, z: Complex<Dual5<T>>) -> Complex<Dual5<T>> {
        csqrt5_spec(self.m, z)
    }

    fn whole(self, n: i32) -> (res: Dual5<T>) {
        Dual5::constant(whole::<T>(n))
    }

    fn ratio(self, n: i32, d: i32) -> (res: Dual5<T>) {
        Dual5::constant(ratio::<T>(n, d))
    }

    fn exp(self, x: Dual5<T>) -> (res: Dual5<T>) {
        x.exp(self.m)
    }

    fn cexp(self, z: Complex<Dual5<T>>) -> (res: Complex<Dual5<T>>) {
        cexp5(self.m, z)
    }

    fn cln(self, z: Complex<Dual5<T>>) -> (res: Complex<Dual5<T>>) {
        cln5(self.m, z)
    }

    fn csqrt(self, z: Complex<Dual5<T>>) -> (res: Complex<Dual5<T>>) {
        csqrt5(self.m, z)
    }
}

/// Which part of a model the jumps play in a pass: there are none, they are constants, or
/// the derivative is in one of them: the intensity, the mean or the deviation.
#[derive(Debug, Clone, Copy)]
pub enum JumpSpec<T> {
    Off,
    Const(JumpParams<T>),
    Active(JumpParams<T>, usize),
}

/// `v` as the parameter itself if `on`, else as a constant.
pub open spec fn seeded_spec<T: Number>(v: T, on: bool) -> Dual<T> {
    if on {
        Dual::active_spec(v)
    } else {
        Dual::constant_spec(v)
    }
}

/// `v` as the parameter itself if `on`, else as a constant.
pub fn seeded<T: Number>(v: T, on: bool) -> (res: Dual<T>)
    requires
        regular::<T>(),
    ensures
        res == seeded_spec(v, on),
{
    if on {
        Dual::active(v)
    } else {
        Dual::constant(v)
    }
}

/// The jumps as dual numbers.
pub open spec fn dual_jumps_spec<T: Number>(jump: JumpSpec<T>) -> Option<JumpParams<Dual<T>>> {
    match jump {
        JumpSpec::Off => None,
        JumpSpec::Const(j) => Some(
            JumpParams {
                lambda: seeded_spec(j.lambda, false),
                mu_j: seeded_spec(j.mu_j, false),
                sigma_j: seeded_spec(j.sigma_j, false),
            },
        ),
        JumpSpec::Active(j, i) => Some(
            JumpParams {
                lambda: seeded_spec(j.lambda, i == 0),
                mu_j: seeded_spec(j.mu_j, i == 1),
                sigma_j: seeded_spec(j.sigma_j, i == 2),
            },
        ),
    }
}

/// The jumps as dual numbers.
pub fn dual_jumps<T: Number>(jump: JumpSpec<T>) -> (res: Option<JumpParams<Dual<T>>>)
    requires
        regular::<T>(),
    ensures
        res == dual_jumps_spec(jump),
{
    match jump {
        JumpSpec::Off => None,
        JumpSpec::Const(j) => Some(
            JumpParams {
                lambda: seeded(j.lambda, false),
                mu_j: seeded(j.mu_j, false),
                sigma_j: seeded(j.sigma_j, false),
            },
        ),
        JumpSpec::Active(j, i) => Some(
            JumpParams {
                lambda: seeded(j.lambda, i == 0),
                mu_j: seeded(j.mu_j, i == 1),
                sigma_j: seeded(j.sigma_j, i == 2),
            },
        ),
    }
}

/// The parameters as dual numbers, with the derivative in parameter `active`: the initial
/// variance, the mean reversion, the long-run variance, the volatility of variance and the
/// correlation, in this order; in none of them beyond.
pub open spec fn dual_params_spec<T: Number>(p: HestonParams<T>, active: usize) -> HestonParams<
    Dual<T>,
> {
    HestonParams {
        v0: seeded_spec(p.v0, active == 0),
        kappa: seeded_spec(p.kappa, active == 1),
        theta: seeded_spec(p.theta, active == 2),
        sigma: seeded_spec(p.sigma, active == 3),
        rho: seeded_spec(p.rho, active == 4),
    }
}

/// The parameters as dual numbers, with the derivative in parameter `active`.
pub fn dual_params<T: Number>(p: &HestonParams<T>, active: usize) -> (res: HestonParams<Dual<T>>)
    requires
        regular::<T>(),
    ensures
        res == dual_params_spec(*p, active),
{
    HestonParams {
        v0: seeded(p.v0, active == 0),
        kappa: seeded(p.kappa, active == 1),
        theta: seeded(p.theta, active == 2),
        sigma: seeded(p.sigma, active == 3),
        rho: seeded(p.rho, active == 4),
    }
}

/// The parameters with a derivative in each.
pub open spec fn dual_params5_spec<T: Number>(p: HestonParams<T>) -> HestonParams<Dual5<T>> {
    HestonParams {
        v0: Dual5::active_spec(p.v0, 0),
        kappa: Dual5::active_spec(p.kappa, 1),
        theta: Dual5::active_spec(p.theta, 2),
        sigma: Dual5::active_spec(p.sigma, 3),
        rho: Dual5::active_spec(p.rho, 4),
    }
}

/// The parameters with a derivative in each.
pub fn dual_params5<T: Number>(p: &HestonParams<T>) -> (res: HestonParams<Dual5<T>>)
    requires
        regular::<T>(),
    ensures
        res == dual_params5_spec(*p),
{
    HestonParams {
        v0: Dual5::active(p.v0, 0),
        kappa: Dual5::active(p.kappa, 1),
        theta: Dual5::active(p.theta, 2),
        sigma: Dual5::active(p.sigma, 3),
        rho: Dual5::active(p.rho, 4),
    }
}

/// The kernel of one of the two probabilities and its derivative, as a function of the
/// frequency.
pub open spec fn dual_kernel<T: Number, M: Elementary<T>>(
    m: M,
    x: T,
    t: T,
    mu: T,
    p: HestonParams<Dual<T>>,
    jump: Option<JumpParams<Dual<T>>>,
    norm: Option<Complex<Dual<T>>>,
) -> spec_fn(T) -> (T, Slope<T>) {
    |u: T|
        {
            let r = cf_integrand_spec(
                DualKit { m },
                Dual::constant_spec(u),
                Dual::constant_spec(x),
                Dual::constant_spec(t),
                Dual::constant_spec(mu),
                p,
                jump,
                norm,
            );
            (r.val, Slope { dot: r.dot })
        }
}

/// The integral of a kernel and its derivative.
pub open spec fn dual_integral_spec<T: Number, M: Elementary<T>>(
    m: M,
    x: T,
    t: T,
    mu: T,
    p: HestonParams<Dual<T>>,
    jump: Option<JumpParams<Dual<T>>>,
    norm: Option<Complex<Dual<T>>>,
) -> Dual<T> {
    let i = gk_integrate_spec(m, dual_kernel(m, x, t, mu, p, jump, norm));
    Dual { val: i.0, dot: i.1.dot }
}

/// The integral of a kernel and its derivative.
pub fn dual_integral<T: Number, M: Elementary<T>>(
    m: M,
    x: T,
    t: T,
    mu: T,
    p: HestonParams<Dual<T>>,
    jump: Option<JumpParams<Dual<T>>>,
    norm: Option<Complex<Dual<T>>>,
) -> (res: Dual<T>)
    requires
        lawful::<T, M>(m),
    ensures
        res == dual_integral_spec(m, x, t, mu, p, jump, norm),
{
    let kit = DualKit { m };
    let f = |u: T| -> (r: (T, Slope<T>))
        ensures
            r == dual_kernel(m, x, t, mu, p, jump, norm)(u),
        {
            let v = cf_integrand(
                kit,
                Dual::constant(u),
                Dual::constant(x),
                Dual::constant(t),
                Dual::constant(mu),
                p,
                jump,
                norm,
            );
            (v.val, Slope { dot: v.dot })
        };
    let i = gk_integrate(m, f, Ghost(dual_kernel(m, x, t, mu, p, jump, norm)));
    Dual { val: i.0, dot: i.1.dot }
}

/// The kernel of one of the two probabilities and its derivatives, as a function of the
/// frequency.
pub open spec fn dual5_kernel<T: Number, M: Elementary<T>>(
    m: M,
    x: T,
    t: T,
    mu: T,
    p: HestonParams<Dual5<T>>,
    jump: Option<JumpParams<Dual5<T>>>,
    norm: Option<Complex<Dual5<T>>>,
) -> spec_fn(T) -> (T, Gradient<T>) {
    |u: T|
        {
            let r = cf_integrand_spec(
                Dual5Kit { m },
                Dual5::constant_spec(u),
                Dual5::constant_spec(x),
                Dual5::constant_spec(t),
                Dual5::constant_spec(mu),
                p,
                jump,
                norm,
            );
            (r.val, Gradient { dot: r.dot })
        }
}

/// The integral of a kernel and its derivatives.
pub open spec fn dual5_integral_spec<T: Number, M: Elementary<T>>(
    m: M,
    x: T,
    t: T,
    mu: T,
    p: HestonParams<Dual5<T>>,
    jump: Option<JumpParams<Dual5<T>>>,
    norm: Option<Complex<Dual5<T>>>,
) -> Dual5<T> {
    let i = gk_integrate_spec(m, dual5_kernel(m, x, t, mu, p, jump, norm));
    Dual5 { val: i.0, dot: i.1.dot }
}

/// The integral of a kernel and its derivatives.
pub fn dual5_integral<T: Number, M: Elementary<T>>(
    m: M,
    x: T,
    t: T,
    mu: T,
    p: HestonParams<Dual5<T>>,
    jump: Option<JumpParams<Dual5<T>>>,
    norm: Option<Complex<Dual5<T>>>,
) -> (res: Dual5<T>)
    requires
        lawful::<T, M>(m),
    ensures
        res == dual5_integral_spec(m, x, t, mu, p, jump, norm),
{
    let kit = Dual5Kit { m };
    let f = |u: T| -> (r: (T, Gradient<T>))
        ensures
            r == dual5_kernel(m, x, t, mu, p, jump, norm)(u),
        {
            let v = cf_integrand(
                kit,
                Dual5::constant(u),
                Dual5::constant(x),
                Dual5::constant(t),
                Dual5::constant(mu),
                p,
                jump,
                norm,
            );
            (v.val, Gradient { dot: v.dot })
        };
    let i = gk_integrate(m, f, Ghost(dual5_kernel(m, x, t, mu, p, jump, norm)));
    Dual5 { val: i.0, dot: i.1.dot }
}

/// One forward pass: the price and its derivative in parameter `active` of the model or in
/// the active one of its jumps. The value of a call is not below zero; a put follows by
/// parity, which has no part in the derivative.
pub open spec fn forward_pass_spec<T: Number, M: Elementary<T>>(
    m: M,
    s: T,
    k: T,
    t: T,
    r: T,
    q: T,
    p: HestonParams<T>,
    opt_type: OptionType,
    active: usize,
    jump: JumpSpec<T>,
) -> (T, T) {
    let x = ln_of(m, s.div_spec(k));
    let mu = r.sub_spec(q);
    let pi = decimal_of::<T, M>(m, 3141592653589793, -15);
    let dp = dual_params_spec(p, active);
    let dj = dual_jumps_spec(jump);
    let down = Complex {
        re: Dual::constant_spec(num::<T>(0)),
        im: Dual::constant_spec(num::<T>(-1)),
    };
    let norm = model_cf_spec(
        DualKit { m },
        down,
        Dual::constant_spec(t),
        Dual::constant_spec(mu),
        dp,
        dj,
    );
    let i1 = dual_integral_spec(m, x, t, mu, dp, dj, Some(norm));
    let i2 = dual_integral_spec(m, x, t, mu, dp, dj, None);
    let stock = s.mul_spec(exp_of(m, q.neg_spec().mul_spec(t)));
    let bond = k.mul_spec(exp_of(m, r.neg_spec().mul_spec(t)));
    let call = larger(
        stock.mul_spec(frac::<T>(1, 2).add_spec(i1.val.div_spec(pi))).sub_spec(
            bond.mul_spec(frac::<T>(1, 2).add_spec(i2.val.div_spec(pi))),
        ),
        num::<T>(0),
    );
    let dot = stock.mul_spec(i1.dot.div_spec(pi)).sub_spec(bond.mul_spec(i2.dot.div_spec(pi)));
    match opt_type {
        OptionType::Call => (call, dot),
        OptionType::Put => (call.sub_spec(stock).add_spec(bond), dot),
    }
}

/// One forward pass.
pub fn forward_pass<T: Number, M: Elementary<T>>(
    m: M,
    s: T,
    k: T,
    t: T,
    r: T,
    q: T,
    p: &HestonParams<T>,
    opt_type: OptionType,
    active: usize,
    jump: JumpSpec<T>,
) -> (res: (T, T))
    requires
        lawful::<T, M>(m),
    ensures
        res == forward_pass_spec(m, s, k, t, r, q, *p, opt_type, active, jump),
{
    let x = m.ln(s / k);
    let mu = r - q;
    let pi = m.decimal(3141592653589793, -15);
    let dp = dual_params(p, active);
    let dj = dual_jumps(jump);
    let down = Complex {
        re: Dual::constant(whole::<T>(0)),
        im: Dual::constant(whole::<T>(-1)),
    };
    let norm = model_cf(DualKit { m }, down, Dual::constant(t), Dual::constant(mu), dp, dj);
    let i1 = dual_integral(m, x, t, mu, dp, dj, Some(norm));
    let i2 = dual_integral(m, x, t, mu, dp, dj, None);
    let stock = s * m.exp(q.neg() * t);
    let bond = k * m.exp(r.neg() * t);
    let call = fmax(
        stock * (ratio::<T>(1, 2) + i1.val / pi) - bond * (ratio::<T>(1, 2) + i2.val / pi),
        whole::<T>(0),
    );
    let dot = stock * (i1.dot / pi) - bond * (i2.dot / pi);
    match opt_type {
        OptionType::Call => (call, dot),
        OptionType::Put => (call - stock + bond, dot),
    }
}

/// One joint forward pass: the price and its derivatives in all five parameters.
pub open spec fn forward_pass5_spec<T: Number, M: Elementary<T>>(
    m: M,
    s: T,
    k: T,
    t: T,
    r: T,
    q: T,
    p: HestonParams<T>,
    opt_type: OptionType,
) -> (T, [T; 5]) {
    let x = ln_of(m, s.div_spec(k));
    let mu = r.sub_spec(q);
    let pi = decimal_of::<T, M>(m, 3141592653589793, -15);
    let dp = dual_params5_spec(p);
    let down = Complex {
        re: Dual5::constant_spec(num::<T>(0)),
        im: Dual5::constant_spec(num::<T>(-1)),
    };
    let norm = model_cf_spec(
        Dual5Kit { m },
        down,
        Dual5::constant_spec(t),
        Dual5::constant_spec(mu),
        dp,
        None,
    );
    let i1 = dual5_integral_spec(m, x, t, mu, dp, None, Some(norm));
    let i2 = dual5_integral_spec(m, x, t, mu, dp, None, None);
    let stock = s.mul_spec(exp_of(m, q.neg_spec().mul_spec(t)));
    let bond = k.mul_spec(exp_of(m, r.neg_spec().mul_spec(t)));
    let call = stock.mul_spec(frac::<T>(1, 2).add_spec(i1.val.div_spec(pi))).sub_spec(
        bond.mul_spec(frac::<T>(1, 2).add_spec(i2.val.div_spec(pi))),
    );
    let a = i1.dot;
    let b = i2.dot;
    let dot = [
        stock.mul_spec(a[0].div_spec(pi)).sub_spec(bond.mul_spec(b[0].div_spec(pi))),
        stock.mul_spec(a[1].div_spec(pi)).sub_spec(bond.mul_spec(b[1].div_spec(pi))),
        stock.mul_spec(a[2].div_spec(pi)).sub_spec(bond.mul_spec(b[2].div_spec(pi))),
        stock.mul_spec(a[3].div_spec(pi)).sub_spec(bond.mul_spec(b[3].div_spec(pi))),
        stock.mul_spec(a[4].div_spec(pi)).sub_spec(bond.mul_spec(b[4].div_spec(pi))),
    ];
    match opt_type {
        OptionType::Call => (call, dot),
        OptionType::Put => (call.sub_spec(stock).add_spec(bond), dot),
    }
}

/// One joint forward pass.
pub fn forward_pass5<T: Number, M: Elementary<T>>(
    m: M,
    s: T,
    k: T,
    t: T,
    r: T,
    q: T,
    p: &HestonParams<T>,
    opt_type: OptionType,
) -> (res: (T, [T; 5]))
    requires
        lawful::<T, M>(m),
    ensures
        res == forward_pass5_spec(m, s, k, t, r, q, *p, opt_type),
{
    let x = m.ln(s / k);
    let mu = r - q;
    let pi = m.decimal(3141592653589793, -15);
    let dp = dual_params5(p);
    let down = Complex {
        re: Dual5::constant(whole::<T>(0)),
        im: Dual5::constant(whole::<T>(-1)),
    };
    let norm = model_cf(Dual5Kit { m }, down, Dual5::constant(t), Dual5::constant(mu), dp, None);
    let i1 = dual5_integral(m, x, t, mu, dp, None, Some(norm));
    let i2 = dual5_integral(m, x, t, mu, dp, None, None);
    let stock = s * m.exp(q.neg() * t);
    let bond = k * m.exp(r.neg() * t);
    let call = stock * (ratio::<T>(1, 2) + i1.val / pi) - bond * (ratio::<T>(1, 2) + i2.val / pi);
    let a = i1.dot;
    let b = i2.dot;
    let dot = [
        stock * (a[0] / pi) - bond * (b[0] / pi),
        stock * (a[1] / pi) - bond * (b[1] / pi),
        stock * (a[2] / pi) - bond * (b[2] / pi),
        stock * (a[3] / pi) - bond * (b[3] / pi),
        stock * (a[4] / pi) - bond * (b[4] / pi),
    ];
    match opt_type {
        OptionType::Call => (call, dot),
        OptionType::Put => (call - stock + bond, dot),
    }
}

/// The price and its sensitivities where the price, vega and volga come from forward
/// passes: the others are by repricing, with the steps that repricing has.
pub open spec fn with_ad_vega_spec<T: Number, M: Elementary<T>, P: BumpPriceable<T, M>>(
    m: M,
    spot: T,
    strike: T,
    expiry: T,
    rate: T,
    div_yield: T,
    p: P,
    opt_type: OptionType,
    price: T,
    vega: T,
    volga: T,
) -> PricingResult<T> {
    let ds = frac::<T>(1, 100).mul_spec(spot);
    let pu = reprice_spec(m, p, spot.add_spec(ds), strike, expiry, rate, div_yield, opt_type);
    let pd = reprice_spec(m, p, spot.sub_spec(ds), strike, expiry, rate, div_yield, opt_type);
    let (v_up, v_dn, v_span) = vol_bump_levels_spec(m, sqrt_of(m, p.v0_spec()), num::<T>(1));
    let p_vup = p.with_v0_spec(v_up.mul_spec(v_up));
    let p_vdn = p.with_v0_spec(v_dn.mul_spec(v_dn));
    PricingResult {
        price,
        delta: pu.sub_spec(pd).div_spec(num::<T>(2).mul_spec(ds)),
        gamma: pu.sub_spec(num::<T>(2).mul_spec(price)).add_spec(pd).div_spec(ds.mul_spec(ds)),
        vega,
        theta: central_theta_spec(
            m,
            expiry,
            |t: T| reprice_spec(m, p, spot, strike, t, rate, div_yield, opt_type),
        ),
        rho: rate_rho_spec(m, p, spot, strike, expiry, rate, div_yield, opt_type),
        vanna: spot_delta_spec(
            m,
            p_vup,
            spot,
            strike,
            expiry,
            rate,
            div_yield,
            opt_type,
            ds,
        ).sub_spec(
            spot_delta_spec(m, p_vdn, spot, strike, expiry, rate, div_yield, opt_type, ds),
        ).div_spec(v_span),
        volga,
    }
}

/// The price and its sensitivities where the price, vega and volga come from forward
/// passes.
pub fn with_ad_vega<T: Number, M: Elementary<T>, P: BumpPriceable<T, M>>(
    m: M,
    spot: T,
    strike: T,
    expiry: T,
    rate: T,
    div_yield: T,
    p: &P,
    opt_type: OptionType,
    price: T,
    vega: T,
    volga: T,
) -> (res: PricingResult<T>)
    requires
        lawful::<T, M>(m),
    ensures
        res == with_ad_vega_spec(
            m,
            spot,
            strike,
            expiry,
            rate,
            div_yield,
            *p,
            opt_type,
            price,
            vega,
            volga,
        ),
{
    let ds = ratio::<T>(1, 100) * spot;
    let pu = reprice(m, p, spot + ds, strike, expiry, rate, div_yield, opt_type);
    let pd = reprice(m, p, spot - ds, strike, expiry, rate, div_yield, opt_type);
    let (v_up, v_dn, v_span) = vol_bump_levels(m, m.sqrt(p.v0()), whole::<T>(1));
    let p_vup = p.with_v0(v_up * v_up);
    let p_vdn = p.with_v0(v_dn * v_dn);
    let at = |t: T| -> (r: T)
        ensures
            r == reprice_spec(m, *p, spot, strike, t, rate, div_yield, opt_type),
        { reprice(m, p, spot, strike, t, rate, div_yield, opt_type) };
    let theta = central_theta(
        m,
        expiry,
        at,
        Ghost(|t: T| reprice_spec(m, *p, spot, strike, t, rate, div_yield, opt_type)),
    );
    PricingResult {
        price,
        delta: (pu - pd) / (whole::<T>(2) * ds),
        gamma: (pu - whole::<T>(2) * price + pd) / (ds * ds),
        vega,
        theta,
        rho: rate_rho(m, p, spot, strike, expiry, rate, div_yield, opt_type),
        vanna: (
            spot_delta(m, &p_vup, spot, strike, expiry, rate, div_yield, opt_type, ds)
                - spot_delta(m, &p_vdn, spot, strike, expiry, rate, div_yield, opt_type, ds)
        )
            / v_span,
        volga,
    }
}

/// The parameters with another initial variance.
pub open spec fn at_variance_spec<T: Number>(p: HestonParams<T>, v0: T) -> HestonParams<T> {
    HestonParams { v0, ..p }
}

/// The parameters with another initial variance.
pub fn at_variance<T: Number>(p: &HestonParams<T>, v0: T) -> (res: HestonParams<T>)
    ensures
        res == at_variance_spec(*p, v0),
{
    HestonParams { v0, kappa: p.kappa, theta: p.theta, sigma: p.sigma, rho: p.rho }
}

/// The price, and vega and volga from forward passes in the initial variance: vega by the
/// chain rule, volga as the difference of two vegas over the span of the volatility step.
pub open spec fn ad_vega_spec<T: Number, M: Elementary<T>>(
    m: M,
    spot: T,
    strike: T,
    expiry: T,
    rate: T,
    div_yield: T,
    p: HestonParams<T>,
    opt_type: OptionType,
    jump: JumpSpec<T>,
) -> (T, T, T) {
    let vol = sqrt_of(m, p.v0);
    let (v_up, v_dn, v_span) = vol_bump_levels_spec(m, vol, num::<T>(1));
    let (price, d) = forward_pass_spec(
        m,
        spot,
        strike,
        expiry,
        rate,
        div_yield,
        p,
        opt_type,
        0,
        jump,
    );
    let d_up = forward_pass_spec(
        m,
        spot,
        strike,
        expiry,
        rate,
        div_yield,
        at_variance_spec(p, v_up.mul_spec(v_up)),
        opt_type,
        0,
        jump,
    ).1;
    let d_dn = forward_pass_spec(
        m,
        spot,
        strike,
        expiry,
        rate,
        div_yield,
        at_variance_spec(p, v_dn.mul_spec(v_dn)),
        opt_type,
        0,
        jump,
    ).1;
    (
        price,
        d.mul_spec(num::<T>(2)).mul_spec(vol),
        d_up.mul_spec(num::<T>(2)).mul_spec(v_up).sub_spec(
            d_dn.mul_spec(num::<T>(2)).mul_spec(v_dn),
        ).div_spec(v_span),
    )
}

/// The price, and vega and volga from forward passes in the initial variance.
pub fn ad_vega<T: Number, M: Elementary<T>>(
    m: M,
    spot: T,
    strike: T,
    expiry: T,
    rate: T,
    div_yield: T,
    p: &HestonParams<T>,
    opt_type: OptionType,
    jump: JumpSpec<T>,
) -> (res: (T, T, T))
    requires
        lawful::<T, M>(m),
    ensures
        res == ad_vega_spec(m, spot, strike, expiry, rate, div_yield, *p, opt_type, jump),
{
    let vol = m.sqrt(p.v0);
    let (v_up, v_dn, v_span) = vol_bump_levels(m, vol, whole::<T>(1));
    let (price, d) = forward_pass(
        m,
        spot,
        strike,
        expiry,
        rate,
        div_yield,
        p,
        opt_type,
        0,
        jump,
    );
    let p_vup = at_variance(p, v_up * v_up);
    let p_vdn = at_variance(p, v_dn * v_dn);
    let d_up = forward_pass(
        m,
        spot,
        strike,
        expiry,
        rate,
        div_yield,
        &p_vup,
        opt_type,
        0,
        jump,
    ).1;
    let d_dn = forward_pass(
        m,
        spot,
        strike,
        expiry,
        rate,
        div_yield,
        &p_vdn,
        opt_type,
        0,
        jump,
    ).1;
    (
        price,
        d * whole::<T>(2) * vol,
        (d_up * whole::<T>(2) * v_up - d_dn * whole::<T>(2) * v_dn) / v_span,
    )
}

/// The price of an option in Heston's model and its sensitivities, vega and volga by
/// forward passes.
pub open spec fn heston_greeks_ad_spec<T: Number, M: Elementary<T>>(
    m: M,
    spot: T,
    strike: T,
    expiry: T,
    rate: T,
    div_yield: T,
    params: HestonParams<T>,
    opt_type: OptionType,
) -> PricingResult<T> {
    let (price, vega, volga) = ad_vega_spec(
        m,
        spot,
        strike,
        expiry,
        rate,
        div_yield,
        params,
        opt_type,
        JumpSpec::Off,
    );
    with_ad_vega_spec(
        m,
        spot,
        strike,
        expiry,
        rate,
        div_yield,
        params,
        opt_type,
        price,
        vega,
        volga,
    )
}

/// The price of an option in Heston's model and its sensitivities, vega and volga by
/// forward passes.
pub fn heston_greeks_ad<T: Number, M: Elementary<T>>(
    m: M,
    spot: T,
    strike: T,
    expiry: T,
    rate: T,
    div_yield: T,
    params: &HestonParams<T>,
    opt_type: OptionType,
) -> (res: PricingResult<T>)
    requires
        lawful::<T, M>(m),
    ensures
        res == heston_greeks_ad_spec(
            m,
            spot,
            strike,
            expiry,
            rate,
            div_yield,
            *params,
            opt_type,
        ),
{
    let (price, vega, volga) = ad_vega(
        m,
        spot,
        strike,
        expiry,
        rate,
        div_yield,
        params,
        opt_type,
        JumpSpec::Off,
    );
    with_ad_vega(
        m,
        spot,
        strike,
        expiry,
        rate,
        div_yield,
        params,
        opt_type,
        price,
        vega,
        volga,
    )
}

/// The price of an option in Heston's model and its sensitivities, vega and volga by joint
/// forward passes.
pub open spec fn heston_greeks_ad5_spec<T: Number, M: Elementary<T>>(
    m: M,
    spot: T,
    strike: T,
    expiry: T,
    rate: T,
    div_yield: T,
    params: HestonParams<T>,
    opt_type: OptionType,
) -> PricingResult<T> {
    let vol = sqrt_of(m, params.v0);
    let (v_up, v_dn, v_span) = vol_bump_levels_spec(m, vol, num::<T>(1));
    let (price, d) = forward_pass5_spec(m, spot, strike, expiry, rate, div_yield, params, opt_type);
    let p_vup = at_variance_spec(params, v_up.mul_spec(v_up));
    let p_vdn = at_variance_spec(params, v_dn.mul_spec(v_dn));
    let d_up = forward_pass5_spec(m, spot, strike, expiry, rate, div_yield, p_vup, opt_type).1;
    let d_dn = forward_pass5_spec(m, spot, strike, expiry, rate, div_yield, p_vdn, opt_type).1;
    with_ad_vega_spec(
        m,
        spot,
        strike,
        expiry,
        rate,
        div_yield,
        params,
        opt_type,
        price,
        d[0].mul_spec(num::<T>(2)).mul_spec(vol),
        d_up[0].mul_spec(num::<T>(2)).mul_spec(v_up).sub_spec(
            d_dn[0].mul_spec(num::<T>(2)).mul_spec(v_dn),
        ).div_spec(v_span),
    )
}

/// The price of an option in Heston's model and its sensitivities, vega and volga by joint
/// forward passes.
pub fn heston_greeks_ad5<T: Number, M: Elementary<T>>(
    m: M,
    spot: T,
    strike: T,
    expiry: T,
    rate: T,
    div_yield: T,
    params: &HestonParams<T>,
    opt_type: OptionType,
) -> (res: PricingResult<T>)
    requires
        lawful::<T, M>(m),
    ensures
        res == heston_greeks_ad5_spec(
            m,
            spot,
            strike,
            expiry,
            rate,
            div_yield,
            *params,
            opt_type,
        ),
{
    let vol = m.sqrt(params.v0);
    let (v_up, v_dn, v_span) = vol_bump_levels(m, vol, whole::<T>(1));
    let (price, d) = forward_pass5(m, spot, strike, expiry, rate, div_yield, params, opt_type);
    let p_vup = at_variance(params, v_up * v_up);
    let p_vdn = at_variance(params, v_dn * v_dn);
    let d_up = forward_pass5(m, spot, strike, expiry, rate, div_yield, &p_vup, opt_type).1;
    let d_dn = forward_pass5(m, spot, strike, expiry, rate, div_yield, &p_vdn, opt_type).1;
    let vega = d[0] * whole::<T>(2) * vol;
    let volga = (d_up[0] * whole::<T>(2) * v_up - d_dn[0] * whole::<T>(2) * v_dn) / v_span;
    with_ad_vega(
        m,
        spot,
        strike,
        expiry,
        rate,
        div_yield,
        params,
        opt_type,
        price,
        vega,
        volga,
    )
}

/// The price of an option in Bates's model and its sensitivities, vega and volga by forward
/// passes through the jumps.
pub open spec fn bates_greeks_ad_spec<T: Number, M: Elementary<T>>(
    m: M,
    spot: T,
    strike: T,
    expiry: T,
    rate: T,
    div_yield: T,
    params: BatesParams<T>,
    opt_type: OptionType,
) -> PricingResult<T> {
    let (price, vega, volga) = ad_vega_spec(
        m,
        spot,
        strike,
        expiry,
        rate,
        div_yield,
        params.heston,
        opt_type,
        JumpSpec::Const(jumps_spec(params)),
    );
    with_ad_vega_spec(
        m,
        spot,
        strike,
        expiry,
        rate,
        div_yield,
        params,
        opt_type,
        price,
        vega,
        volga,
    )
}

/// The price of an option in Bates's model and its sensitivities, vega and volga by forward
/// passes through the jumps.
pub fn bates_greeks_ad<T: Number, M: Elementary<T>>(
    m: M,
    spot: T,
    strike: T,
    expiry: T,
    rate: T,
    div_yield: T,
    heston: &HestonParams<T>,
    lambda: T,
    mu_j: T,
    sigma_j: T,
    opt_type: OptionType,
) -> (res: PricingResult<T>)
    requires
        lawful::<T, M>(m),
    ensures
        res == bates_greeks_ad_spec(
            m,
            spot,
            strike,
            expiry,
            rate,
            div_yield,
            BatesParams { heston: *heston, lambda, mu_j, sigma_j },
            opt_type,
        ),
{
    let params = BatesParams { heston: *heston, lambda, mu_j, sigma_j };
    let (price, vega, volga) = ad_vega(
        m,
        spot,
        strike,
        expiry,
        rate,
        div_yield,
        heston,
        opt_type,
        JumpSpec::Const(jumps(&params)),
    );
    with_ad_vega(
        m,
        spot,
        strike,
        expiry,
        rate,
        div_yield,
        &params,
        opt_type,
        price,
        vega,
        volga,
    )
}

/// A price in Bates's model and its derivatives in the three parameters of the jumps.
#[derive(Debug, Clone, Copy)]
pub struct BatesJumpSensitivities<T> {
    pub price: T,
    pub d_lambda: T,
    pub d_mu_j: T,
    pub d_sigma_j: T,
}

/// The price of an option in Bates's model and its derivatives in the parameters of the
/// jumps, by one forward pass for each.
pub open spec fn bates_jump_sensitivities_ad_spec<T: Number, M: Elementary<T>>(
    m: M,
    spot: T,
    strike: T,
    expiry: T,
    rate: T,
    div_yield: T,
    params: BatesParams<T>,
    opt_type: OptionType,
) -> BatesJumpSensitivities<T> {
    let pass = |i: usize|
        forward_pass_spec(
            m,
            spot,
            strike,
            expiry,
            rate,
            div_yield,
            params.heston,
            opt_type,
            usize::MAX,
            JumpSpec::Active(jumps_spec(params), i),
        );
    BatesJumpSensitivities {
        price: pass(0).0,
        d_lambda: pass(0).1,
        d_mu_j: pass(1).1,
        d_sigma_j: pass(2).1,
    }
}

/// The price of an option in Bates's model and its derivatives in the parameters of the
/// jumps.
pub fn bates_jump_sensitivities_ad<T: Number, M: Elementary<T>>(
    m: M,
    spot: T,
    strike: T,
    expiry: T,
    rate: T,
    div_yield: T,
    heston: &HestonParams<T>,
    lambda: T,
    mu_j: T,
    sigma_j: T,
    opt_type: OptionType,
) -> (res: BatesJumpSensitivities<T>)
    requires
        lawful::<T, M>(m),
    ensures
        res == bates_jump_sensitivities_ad_spec(
            m,
            spot,
            strike,
            expiry,
            rate,
            div_yield,
            BatesParams { heston: *heston, lambda, mu_j, sigma_j },
            opt_type,
        ),
{
    let params = BatesParams { heston: *heston, lambda, mu_j, sigma_j };
    let j = jumps(&params);
    let max: usize = usize::MAX;
    let (price, d_lambda) = forward_pass(
        m,
        spot,
        strike,
        expiry,
        rate,
        div_yield,
        heston,
        opt_type,
        max,
        JumpSpec::Active(j, 0),
    );
    let d_mu_j = forward_pass(
        m,
        spot,
        strike,
        expiry,
        rate,
        div_yield,
        heston,
        opt_type,
        max,
        JumpSpec::Active(j, 1),
    ).1;
    let d_sigma_j = forward_pass(
        m,
        spot,
        strike,
        expiry,
        rate,
        div_yield,
        heston,
        opt_type,
        max,
        JumpSpec::Active(j, 2),
    ).1;
    BatesJumpSensitivities { price, d_lambda, d_mu_j, d_sigma_j }
}

} // verus!
