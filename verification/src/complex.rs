//! Complex quantities over any arithmetic: pairs of a real and an imaginary part.
use crate::number::{arithmetic, Arith};
use core::ops::{Add, Div, Mul, Neg, Sub};
use vstd::prelude::*;
use vstd::std_specs::ops::{
    AddSpec, AddSpecImpl, DivSpec, DivSpecImpl, MulSpec, MulSpecImpl, NegSpec, NegSpecImpl, SubSpec,
    SubSpecImpl,
};

verus! {

/// The quantity with real part `re` and imaginary part `im`.
#[derive(Debug, Clone, Copy)]
pub struct Complex<N> {
    pub re: N,
    pub im: N,
}

impl<N: Arith> Add for Complex<N> {
    type Output = Complex<N>;

    fn add(self, rhs: Complex<N>) -> Complex<N> {
        Complex { re: self.re + rhs.re, im: self.im + rhs.im }
    }
}

impl<N: Arith> AddSpecImpl for Complex<N> {
    open spec fn obeys_add_spec() -> bool {
        true
    }

    open spec fn add_req(self, rhs: Complex<N>) -> bool {
        arithmetic::<N>()
    }

    open spec fn add_spec(self, rhs: Complex<N>) -> Complex<N> {
        Complex { re: self.re.add_spec(rhs.re), im: self.im.add_spec(rhs.im) }
    }
}

impl<N: Arith> Sub for Complex<N> {
    type Output = Complex<N>;

    fn sub(self, rhs: Complex<N>) -> Complex<N> {
        Complex { re: self.re - rhs.re, im: self.im - rhs.im }
    }
}

impl<N: Arith> SubSpecImpl for Complex<N> {
    open spec fn obeys_sub_spec() -> bool {
        true
    }

    open spec fn sub_req(self, rhs: Complex<N>) -> bool {
        arithmetic::<N>()
    }

    open spec fn sub_spec(self, rhs: Complex<N>) -> Complex<N> {
        Complex { re: self.re.sub_spec(rhs.re), im: self.im.sub_spec(rhs.im) }
    }
}

impl<N: Arith> Mul for Complex<N> {
    type Output = Complex<N>;

    fn mul(self, rhs: Complex<N>) -> Complex<N> {
        Complex { re: self.re * rhs.re - self.im * rhs.im, im: self.re * rhs.im + self.im * rhs.re }
    }
}

impl<N: Arith> MulSpecImpl for Complex<N> {
    open spec fn obeys_mul_spec() -> bool {
        true
    }

    open spec fn mul_req(self, rhs: Complex<N>) -> bool {
        arithmetic::<N>()
    }

    open spec fn mul_spec(self, rhs: Complex<N>) -> Complex<N> {
        Complex {
            re: self.re.mul_spec(rhs.re).sub_spec(self.im.mul_spec(rhs.im)),
            im: self.re.mul_spec(rhs.im).add_spec(self.im.mul_spec(rhs.re)),
        }
    }
}

impl<N: Arith> Div for Complex<N> {
    type Output = Complex<N>;

    fn div(self, rhs: Complex<N>) -> Complex<N> {
        Complex {
            re: (self.re * rhs.re + self.im * rhs.im) / (rhs.re * rhs.re + rhs.im * rhs.im),
            im: (self.im * rhs.re - self.re * rhs.im) / (rhs.re * rhs.re + rhs.im * rhs.im),
        }
    }
}

impl<N: Arith> DivSpecImpl for Complex<N> {
    open spec fn obeys_div_spec() -> bool {
        true
    }

    open spec fn div_req(self, rhs: Complex<N>) -> bool {
        arithmetic::<N>()
    }

    open spec fn div_spec(self, rhs: Complex<N>) -> Complex<N> {
        Complex {
            re: self.re.mul_spec(rhs.re).add_spec(self.im.mul_spec(rhs.im)).div_spec(
                rhs.re.mul_spec(rhs.re).add_spec(rhs.im.mul_spec(rhs.im)),
            ),
            im: self.im.mul_spec(rhs.re).sub_spec(self.re.mul_spec(rhs.im)).div_spec(
                rhs.re.mul_spec(rhs.re).add_spec(rhs.im.mul_spec(rhs.im)),
            ),
        }
    }
}

impl<N: Arith> Neg for Complex<N> {
    type Output = Complex<N>;

    fn neg(self) -> Complex<N> {
        Complex { re: self.re.neg(), im: self.im.neg() }
    }
}

impl<N: Arith> NegSpecImpl for Complex<N> {
    open spec fn obeys_neg_spec() -> bool {
        true
    }

    open spec fn neg_req(self) -> bool {
        arithmetic::<N>()
    }

    open spec fn neg_spec(self) -> Complex<N> {
        Complex { re: self.re.neg_spec(), im: self.im.neg_spec() }
    }
}

/// The real quantity `k` times `z`.
pub open spec fn scale_spec<N: Arith>(k: N, z: Complex<N>) -> Complex<N> {
    Complex { re: k.mul_spec(z.re), im: k.mul_spec(z.im) }
}

/// The real quantity `k` times `z`.
pub fn scale<N: Arith>(k: N, z: Complex<N>) -> (res: Complex<N>)
    requires
        arithmetic::<N>(),
    ensures
        res == scale_spec(k, z),
{
    Complex { re: k * z.re, im: k * z.im }
}

} // verus!
