//! Characteristic functions of the logarithm of the price under stochastic variance and
//! jumps, over any kind of number: plain ones give prices, dual ones sensitivities.
use crate::complex::{scale, scale_spec, Complex};
use crate::exact::{
    exact, hypot_exact, lemma_difference_of_squares, lemma_sign_of_factor, lemma_square,
    lemma_square_of_product, lemma_times_add, lemma_times_cancel, lemma_times_comm, lemma_times_neg,
    lemma_times_not_negative, lemma_times_unit, lemma_twice, sqrt_exact, times,
};
use crate::number::{
    arithmetic, atan2_of, cos_of, exp_of, frac, hypot_of, is_finite_of, is_sign_positive_of, lawful,
    ln_of, num, ratio, sin_of, sqrt_of, whole, Arith, Elementary, Number,
};
use crate::types::HestonParams;
use core::ops::Neg;
use vstd::prelude::*;
use vstd::std_specs::cmp::{PartialEqIs, PartialOrdIs};
use vstd::std_specs::ops::{AddSpec, DivSpec, MulSpec, NegSpec, SubSpec};

verus! {

/// What a kind of number `N` needs for a characteristic function to be computed over it:
/// constants and the exponential, and of complex arguments the exponential, the logarithm
/// and the square root.
pub trait ComplexKit<N>: Copy {
    /// The functions of the kit are determined by their arguments.
    spec fn ready(self) -> bool;

    /// The constant `n`.
    spec fn whole_spec(self, n: int) -> N;

    /// The constant `n` over `d`.
    spec fn ratio_spec(self, n: int, d: int) -> N;

    /// The exponential of `x`.
    spec fn exp_spec(self, x: N) -> N;

    /// The exponential of `z`.
    spec fn cexp_spec(self, z: Complex<N>) -> Complex<N>;

    /// The principal logarithm of `z`.
    spec fn cln_spec(self, z: Complex<N>) -> Complex<N>;

    /// The principal square root of `z`.
    spec fn csqrt_spec(self, z: Complex<N>) -> Complex<N>;

    /// The constant `n`.
    fn whole(self, n: i32) -> (res: N)
        requires
            self.ready(),
        ensures
            res == self.whole_spec(n as int),
    ;

    /// The constant `n` over `d`.
    fn ratio(self, n: i32, d: i32) -> (res: N)
        requires
            self.ready(),
        ensures
            res == self.ratio_spec(n as int, d as int),
    ;

    /// The exponential of `x`.
    fn exp(self, x: N) -> (res: N)
        requires
            self.ready(),
        ensures
            res == self.exp_spec(x),
    ;

    /// The exponential of `z`.
    fn cexp(self, z: Complex<N>) -> (res: Complex<N>)
        requires
            self.ready(),
        ensures
            res == self.cexp_spec(z),
    ;

    /// The principal logarithm of `z`.
    fn cln(self, z: Complex<N>) -> (res: Complex<N>)
        requires
            self.ready(),
        ensures
            res == self.cln_spec(z),
    ;

    /// The principal square root of `z`.
    fn csqrt(self, z: Complex<N>) -> (res: Complex<N>)
        requires
            self.ready(),
        ensures
            res == self.csqrt_spec(z),
    ;
}

/// The lognormal jumps of a model, over any kind of number.
#[derive(Debug, Clone, Copy)]
pub struct JumpParams<N> {
    pub lambda: N,
    pub mu_j: N,
    pub sigma_j: N,
}

/// The imaginary unit.
pub open spec fn unit_i_spec<N: Arith, K: ComplexKit<N>>(k: K) -> Complex<N> {
    Complex { re: k.whole_spec(0), im: k.whole_spec(1) }
}

/// The imaginary unit.
pub fn unit_i<N: Arith, K: ComplexKit<N>>(k: K) -> (res: Complex<N>)
    requires
        k.ready(),
        arithmetic::<N>(),
    ensures
        res == unit_i_spec(k),
{
    Complex { re: k.whole(0), im: k.whole(1) }
}

/// The real number `x` as a complex one.
pub open spec fn real_part_spec<N: Arith, K: ComplexKit<N>>(k: K, x: N) -> Complex<N> {
    Complex { re: x, im: k.whole_spec(0) }
}

/// The real number `x` as a complex one.
pub fn real_part<N: Arith, K: ComplexKit<N>>(k: K, x: N) -> (res: Complex<N>)
    requires
        k.ready(),
        arithmetic::<N>(),
    ensures
        res == real_part_spec(k, x),
{
    Complex { re: x, im: k.whole(0) }
}

/// The characteristic function of Heston's model at `phi`, in the form of Albrecher and
/// others, whose logarithm does not cross its branch cut. `mu` is the drift of the
/// logarithm of the price before the variance correction: the rate less the dividend yield.
pub open spec fn stable_cf_spec<N: Arith, K: ComplexKit<N>>(
    k: K,
    phi: Complex<N>,
    t: N,
    mu: N,
    p: HestonParams<N>,
) -> Complex<N> {
    let i = unit_i_spec(k);
    let one = real_part_spec(k, k.whole_spec(1));
    let s2 = p.sigma.mul_spec(p.sigma);
    let xi = real_part_spec(k, p.kappa).sub_spec(
        scale_spec(p.rho.mul_spec(p.sigma), phi).mul_spec(i),
    );
    let d = k.csqrt_spec(xi.mul_spec(xi).add_spec(scale_spec(s2, phi).mul_spec(phi.add_spec(i))));
    let g = xi.sub_spec(d).div_spec(xi.add_spec(d));
    let edt = k.cexp_spec(scale_spec(t, d.neg_spec()));
    let a = g.mul_spec(edt).sub_spec(one).div_spec(g.sub_spec(one));
    let c = scale_spec(
        p.kappa.mul_spec(p.theta).div_spec(s2),
        scale_spec(t, xi.sub_spec(d)).sub_spec(scale_spec(k.whole_spec(2), k.cln_spec(a))),
    );
    let dd = scale_spec(p.v0, xi.sub_spec(d)).mul_spec(one.sub_spec(edt)).div_spec(
        scale_spec(s2, one.sub_spec(g.mul_spec(edt))),
    );
    k.cexp_spec(scale_spec(t, scale_spec(mu, phi).mul_spec(i)).add_spec(c).add_spec(dd))
}

/// The characteristic function of Heston's model at `phi`, in the form of Albrecher and
/// others, whose logarithm does not cross its branch cut. `mu` is the drift of the
/// logarithm of the price before the variance correction: the rate less the dividend yield.
pub fn stable_cf<N: Arith, K: ComplexKit<N>>(
    k: K,
    phi: Complex<N>,
    t: N,
    mu: N,
    p: HestonParams<N>,
) -> (res: Complex<N>)
    requires
        k.ready(),
        arithmetic::<N>(),
    ensures
        res == stable_cf_spec(k, phi, t, mu, p),
{
    let i = unit_i(k);
    let one = real_part(k, k.whole(1));
    let s2 = p.sigma * p.sigma;
    let xi = real_part(k, p.kappa) - scale(p.rho * p.sigma, phi) * i;
    let d = k.csqrt(xi * xi + scale(s2, phi) * (phi + i));
    let g = (xi - d) / (xi + d);
    let edt = k.cexp(scale(t, d.neg()));
    let a = (g * edt - one) / (g - one);
    let c = scale(p.kappa * p.theta / s2, scale(t, xi - d) - scale(k.whole(2), k.cln(a)));
    let dd = scale(p.v0, xi - d) * (one - edt) / scale(s2, one - g * edt);
    k.cexp(scale(t, scale(mu, phi) * i) + c + dd)
}

/// The factor that lognormal jumps contribute to a characteristic function, compensated so
/// that the discounted price stays a martingale.
pub open spec fn jump_cf_spec<N: Arith, K: ComplexKit<N>>(
    k: K,
    phi: Complex<N>,
    t: N,
    j: JumpParams<N>,
) -> Complex<N> {
    let i = unit_i_spec(k);
    let one = real_part_spec(k, k.whole_spec(1));
    let comp = k.exp_spec(
        j.mu_j.add_spec(k.ratio_spec(1, 2).mul_spec(j.sigma_j).mul_spec(j.sigma_j)),
    ).sub_spec(k.whole_spec(1));
    let spread = scale_spec(
        j.sigma_j,
        scale_spec(j.sigma_j, scale_spec(k.ratio_spec(1, 2), phi).mul_spec(phi)),
    );
    let jump = k.cexp_spec(scale_spec(j.mu_j, phi.mul_spec(i)).sub_spec(spread));
    k.cexp_spec(
        scale_spec(
            j.lambda.mul_spec(t),
            jump.sub_spec(one).sub_spec(scale_spec(comp, i.mul_spec(phi))),
        ),
    )
}

/// The factor that lognormal jumps contribute to a characteristic function, compensated so
/// that the discounted price stays a martingale.
pub fn jump_cf<N: Arith, K: ComplexKit<N>>(
    k: K,
    phi: Complex<N>,
    t: N,
    j: JumpParams<N>,
) -> (res: Complex<N>)
    requires
        k.ready(),
        arithmetic::<N>(),
    ensures
        res == jump_cf_spec(k, phi, t, j),
{
    let i = unit_i(k);
    let one = real_part(k, k.whole(1));
    let comp = k.exp(j.mu_j + k.ratio(1, 2) * j.sigma_j * j.sigma_j) - k.whole(1);
    let spread = scale(j.sigma_j, scale(j.sigma_j, scale(k.ratio(1, 2), phi) * phi));
    let jump = k.cexp(scale(j.mu_j, phi * i) - spread);
    k.cexp(scale(j.lambda * t, jump - one - scale(comp, i * phi)))
}

/// The characteristic function of the model at `phi`: Heston's, times the factor of the
/// jumps if there are any.
pub open spec fn model_cf_spec<N: Arith, K: ComplexKit<N>>(
    k: K,
    phi: Complex<N>,
    t: N,
    mu: N,
    p: HestonParams<N>,
    jump: Option<JumpParams<N>>,
) -> Complex<N> {
    match jump {
        None => stable_cf_spec(k, phi, t, mu, p),
        Some(j) => stable_cf_spec(k, phi, t, mu, p).mul_spec(jump_cf_spec(k, phi, t, j)),
    }
}

/// The characteristic function of the model at `phi`.
pub fn model_cf<N: Arith, K: ComplexKit<N>>(
    k: K,
    phi: Complex<N>,
    t: N,
    mu: N,
    p: HestonParams<N>,
    jump: Option<JumpParams<N>>,
) -> (res: Complex<N>)
    requires
        k.ready(),
        arithmetic::<N>(),
    ensures
        res == model_cf_spec(k, phi, t, mu, p, jump),
{
    match jump {
        None => stable_cf(k, phi, t, mu, p),
        Some(j) => stable_cf(k, phi, t, mu, p) * jump_cf(k, phi, t, j),
    }
}

/// The kernel of the inversion at frequency `u`, for a log-moneyness of `x`. With `norm`
/// the characteristic function is taken one unit down the imaginary axis and divided by
/// `norm`, which gives the probability in the units of the stock; without, in those of
/// money.
pub open spec fn cf_integrand_spec<N: Arith, K: ComplexKit<N>>(
    k: K,
    u: N,
    x: N,
    t: N,
    mu: N,
    p: HestonParams<N>,
    jump: Option<JumpParams<N>>,
    norm: Option<Complex<N>>,
) -> N {
    let zero = k.whole_spec(0);
    let cf = match norm {
        None => model_cf_spec(k, Complex { re: u, im: zero }, t, mu, p, jump),
        Some(c) => model_cf_spec(
            k,
            Complex { re: u, im: k.whole_spec(-1) },
            t,
            mu,
            p,
            jump,
        ).div_spec(c),
    };
    let numer = k.cexp_spec(Complex { re: zero, im: u.mul_spec(x) }).mul_spec(cf);
    numer.div_spec(Complex { re: zero, im: u }).re
}

/// The kernel of the inversion at frequency `u`.
pub fn cf_integrand<N: Arith, K: ComplexKit<N>>(
    k: K,
    u: N,
    x: N,
    t: N,
    mu: N,
    p: HestonParams<N>,
    jump: Option<JumpParams<N>>,
    norm: Option<Complex<N>>,
) -> (res: N)
    requires
        k.ready(),
        arithmetic::<N>(),
    ensures
        res == cf_integrand_spec(k, u, x, t, mu, p, jump, norm),
{
    let zero = k.whole(0);
    let cf = match norm {
        None => model_cf(k, Complex { re: u, im: zero }, t, mu, p, jump),
        Some(c) => model_cf(k, Complex { re: u, im: k.whole(-1) }, t, mu, p, jump) / c,
    };
    let numer = k.cexp(Complex { re: zero, im: u * x }) * cf;
    (numer / Complex { re: zero, im: u }).re
}

/// The kit of plain numbers, on top of a provider of the elementary functions.
#[derive(Debug, Clone, Copy)]
pub struct RealKit<M> {
    pub m: M,
}

/// The exponential of a complex number. At an infinite real part the direction may be
/// undefined, and then the result is chosen: zero far left, the infinity itself far right.
pub open spec fn complex_exp_spec<T: Number, M: Elementary<T>>(m: M, z: Complex<T>) -> Complex<T> {
    let vague = !is_finite_of(m, z.im);
    let unbounded = !is_finite_of(m, z.re) && z.re.is_eq(&z.re);
    if unbounded && z.re.is_lt(&num::<T>(0)) && vague {
        Complex { re: num::<T>(0), im: num::<T>(0) }
    } else if unbounded && !z.re.is_lt(&num::<T>(0)) && (vague || z.im.is_eq(&num::<T>(0))) {
        Complex {
            re: z.re,
            im: if vague {
                z.im.sub_spec(z.im)
            } else {
                z.im
            },
        }
    } else if z.re.is_ne(&z.re) && z.im.is_eq(&num::<T>(0)) {
        z
    } else {
        let r = exp_of(m, z.re);
        Complex { re: r.mul_spec(cos_of(m, z.im)), im: r.mul_spec(sin_of(m, z.im)) }
    }
}

/// The exponential of a complex number.
pub fn complex_exp<T: Number, M: Elementary<T>>(m: M, z: Complex<T>) -> (res: Complex<T>)
    requires
        lawful::<T, M>(m),
    ensures
        res == complex_exp_spec(m, z),
{
    let zero = whole::<T>(0);
    if !m.is_finite(z.re) {
        let vague = !m.is_finite(z.im);
        if z.re == z.re {
            if z.re < zero {
                if vague {
                    return Complex { re: zero, im: zero };
                }
            } else if vague {
                return Complex { re: z.re, im: z.im - z.im };
            } else if z.im == zero {
                return z;
            }
        }
    }
    if z.re != z.re && z.im == zero {
        return z;
    }
    let r = m.exp(z.re);
    Complex { re: r * m.cos(z.im), im: r * m.sin(z.im) }
}

/// The principal logarithm of a complex number.
pub open spec fn complex_ln_spec<T: Number, M: Elementary<T>>(m: M, z: Complex<T>) -> Complex<T> {
    Complex { re: ln_of(m, hypot_of(m, z.re, z.im)), im: atan2_of(m, z.im, z.re) }
}

/// The principal logarithm of a complex number.
pub fn complex_ln<T: Number, M: Elementary<T>>(m: M, z: Complex<T>) -> (res: Complex<T>)
    requires
        lawful::<T, M>(m),
    ensures
        res == complex_ln_spec(m, z),
{
    Complex { re: m.ln(m.hypot(z.re, z.im)), im: m.atan2(z.im, z.re) }
}

/// The principal square root of a complex number. Of the two parts the one whose square is
/// a sum is computed first, and the other by division, so that nothing cancels.
pub open spec fn fast_csqrt_spec<T: Number, M: Elementary<T>>(m: M, z: Complex<T>) -> Complex<T> {
    let r = hypot_of(m, z.re, z.im);
    if z.im.is_eq(&num::<T>(0)) {
        if z.re.is_ge(&num::<T>(0)) {
            Complex { re: sqrt_of(m, z.re), im: z.im }
        } else {
            Complex {
                re: num::<T>(0),
                im: if is_sign_positive_of(m, z.im) {
                    sqrt_of(m, z.re.neg_spec())
                } else {
                    sqrt_of(m, z.re.neg_spec()).neg_spec()
                },
            }
        }
    } else if z.re.is_ge(&num::<T>(0)) {
        let wide = sqrt_of(m, r.add_spec(z.re).div_spec(num::<T>(2)));
        Complex { re: wide, im: z.im.div_spec(num::<T>(2).mul_spec(wide)) }
    } else {
        let side = sqrt_of(m, r.sub_spec(z.re).div_spec(num::<T>(2)));
        let tall = if is_sign_positive_of(m, z.im) {
            side
        } else {
            side.neg_spec()
        };
        Complex { re: z.im.div_spec(num::<T>(2).mul_spec(tall)), im: tall }
    }
}

/// The principal square root of a complex number.
pub fn fast_csqrt<T: Number, M: Elementary<T>>(m: M, z: Complex<T>) -> (res: Complex<T>)
    requires
        lawful::<T, M>(m),
    ensures
        res == fast_csqrt_spec(m, z),
{
    let zero = whole::<T>(0);
    if z.im == zero {
        if z.re >= zero {
            return Complex { re: m.sqrt(z.re), im: z.im };
        }
        let root = m.sqrt(z.re.neg());
        return Complex {
            re: zero,
            im: if m.is_sign_positive(z.im) {
                root
            } else {
                root.neg()
            },
        };
    }
    let r = m.hypot(z.re, z.im);
    if z.re >= zero {
        let wide = m.sqrt((r + z.re) / whole::<T>(2));
        Complex { re: wide, im: z.im / (whole::<T>(2) * wide) }
    } else {
        let side = m.sqrt((r - z.re) / whole::<T>(2));
        let tall = if m.is_sign_positive(z.im) {
            side
        } else {
            side.neg()
        };
        Complex { re: z.im / (whole::<T>(2) * tall), im: tall }
    }
}

impl<T: Number, M: Elementary<T>> ComplexKit<T> for RealKit<M> {
    open spec fn ready(self) -> bool {
        lawful::<T, M>(self.m)
    }

    open spec fn whole_spec(self, n: int) -> T {
        num::<T>(n)
    }

    open spec fn ratio_spec(self, n: int, d: int) -> T {
        frac::<T>(n, d)
    }

    open spec fn exp_spec(self, x: T) -> T {
        exp_of(self.m, x)
    }

    open spec fn cexp_spec(self, z: Complex<T>) -> Complex<T> {
        complex_exp_spec(self.m, z)
    }

    open spec fn cln_spec(self, z: Complex<T>) -> Complex<T> {
        complex_ln_spec(self.m, z)
    }

    open spec fn csqrt_spec(self, z: Complex<T>) -> Complex<T> {
        fast_csqrt_spec(self.m, z)
    }

    fn whole(self, n: i32) -> (res: T) {
        whole::<T>(n)
    }

    fn ratio(self, n: i32, d: i32) -> (res: T) {
        ratio::<T>(n, d)
    }

    fn exp(self, x: T) -> (res: T) {
        self.m.exp(x)
    }

    fn cexp(self, z: Complex<T>) -> (res: Complex<T>) {
        complex_exp(self.m, z)
    }

    fn cln(self, z: Complex<T>) -> (res: Complex<T>) {
        complex_ln(self.m, z)
    }

    fn csqrt(self, z: Complex<T>) -> (res: Complex<T>) {
        fast_csqrt(self.m, z)
    }
}

/// The sign that the provider reports of a number other than zero is that of its value.
pub open spec fn sign_exact<T: Number, M: Elementary<T>>(m: M, v: spec_fn(T) -> real) -> bool {
    forall|x: T| v(x) != 0real ==> (#[trigger] is_sign_positive_of(m, x)) == (v(x) > 0real)
}

/// In a right triangle with legs `x` and `y` and hypotenuse `r`: where `w` is the root of half
/// the sum of `r` and `x`, and `q` is `y` over twice `w`, the squares of `w` and `q` differ by
/// `x`.
proof fn lemma_half_angle(x: real, y: real, r: real, w: real, q: real)
    requires
        x >= 0real,
        y != 0real,
        r >= 0real,
        times(r, r) == times(x, x) + times(y, y),
        w >= 0real,
        2real * times(w, w) == r + x,
        2real * times(w, q) == y,
    ensures
        times(w, w) - times(q, q) == x,
{
    lemma_square(y);
    lemma_square(x);
    lemma_times_unit(r);
    assert(r != 0real);
    let a = r + x;
    lemma_square_of_product(w, q);
    let p = times(w, q);
    assert(4real * times(p, p) == times(y, y)) by {
        lemma_times_add(p, p, p);
        lemma_times_add(y, p, p);
        lemma_times_comm(p, y);
    }
    let (ww, qq) = (times(w, w), times(q, q));
    assert(2real * times(ww, qq) == times(a, qq)) by {
        lemma_times_add(qq, ww, ww);
    }
    lemma_difference_of_squares(r, x);
    assert(times(r - x, a) == times(2real * qq, a)) by {
        lemma_times_add(a, qq, qq);
        lemma_times_comm(a, qq);
    }
    lemma_times_cancel(r - x, 2real * qq, a);
}

/// A factor of a product has its sign where the other factor is not negative.
pub proof fn lemma_sign_of_root(a: real, b: real)
    requires
        a >= 0real,
    ensures
        times(a, b) > 0real ==> b > 0real,
        times(a, b) < 0real ==> b < 0real,
{
    lemma_times_neg(a, b);
    if b <= 0real {
        lemma_times_not_negative(a, -b);
    }
    if b >= 0real {
        lemma_times_not_negative(a, b);
    }
}

/// The square root squares to its argument: without rounding, the root times itself has the
/// value of the argument, the real part of the root is not negative, and its imaginary part has
/// the sign of the argument's.
pub proof fn law_csqrt_squares<T: Number, M: Elementary<T>>(
    m: M,
    v: spec_fn(T) -> real,
    z: Complex<T>,
)
    requires
        exact(v),
        sqrt_exact(m, v),
        hypot_exact(m, v),
        sign_exact(m, v),
    ensures
        ({
            let s = fast_csqrt_spec(m, z);
            let w = s.mul_spec(s);
            &&& v(w.re) == v(z.re)
            &&& v(w.im) == v(z.im)
            &&& v(s.re) >= 0real
            &&& v(z.im) > 0real ==> v(s.im) > 0real
            &&& v(z.im) < 0real ==> v(s.im) < 0real
        }),
{
    let s = fast_csqrt_spec(m, z);
    let (x, y) = (v(z.re), v(z.im));
    let (a, b) = (v(s.re), v(s.im));
    let r = hypot_of(m, z.re, z.im);
    let two = num::<T>(2);
    lemma_times_comm(a, b);
    if y == 0real {
        lemma_times_unit(a);
        lemma_times_unit(b);
        lemma_times_unit(0real);
        if x < 0real {
            let root = v(sqrt_of(m, z.re.neg_spec()));
            lemma_times_neg(root, root);
            lemma_times_neg(root, -root);
        }
    } else {
        lemma_square(y);
        lemma_square(x);
        lemma_times_unit(v(r));
        lemma_difference_of_squares(v(r), x);
        if x >= 0real {
            let half = r.add_spec(z.re).div_spec(two);
            assert(2real * v(half) == v(r) + x) by {
                lemma_twice(v(half));
            }
            assert(2real * times(a, b) == y) by {
                assert(a != 0real) by {
                    lemma_times_unit(a);
                }
                lemma_twice(a);
                let t = two.mul_spec(s.re);
                assert(v(t) == 2real * a);
                lemma_times_add(b, a, a);
            }
            lemma_half_angle(x, y, v(r), a, b);
        } else {
            let half = r.sub_spec(z.re).div_spec(two);
            assert(2real * v(half) == v(r) - x) by {
                lemma_twice(v(half));
            }
            let side = v(sqrt_of(m, half));
            assert(times(b, b) == times(side, side)) by {
                lemma_times_neg(side, side);
                lemma_times_neg(side, -side);
            }
            assert(b != 0real) by {
                lemma_times_unit(b);
            }
            assert(2real * times(b, a) == y) by {
                lemma_twice(b);
                let t = two.mul_spec(s.im);
                assert(v(t) == 2real * b);
                lemma_times_add(a, b, b);
                lemma_times_comm(a, b);
            }
            lemma_times_neg(b, a);
            lemma_times_neg(y, y);
            lemma_times_neg(y, -y);
            lemma_times_neg(x, x);
            lemma_times_neg(x, -x);
            if y > 0real {
                lemma_half_angle(-x, y, v(r), b, a);
                lemma_sign_of_factor(b, a);
            } else {
                lemma_times_neg(b, b);
                lemma_times_neg(b, -b);
                lemma_half_angle(-x, -y, v(r), -b, a);
                lemma_sign_of_factor(-b, a);
            }
        }
    }
    lemma_sign_of_root(a, b);
}

} // verus!
