//! Dual numbers: values that carry their derivatives along.
use crate::number::{exp_of, lawful, ln_of, num, regular, sqrt_of, whole, Elementary, Number};
use core::ops::{Add, Div, Mul, Neg, Sub};
use vstd::prelude::*;
use vstd::std_specs::cmp::{PartialEqSpec, PartialEqSpecImpl};
use vstd::std_specs::ops::{
    AddSpec, AddSpecImpl, DivSpec, DivSpecImpl, MulSpec, MulSpecImpl, NegSpec, NegSpecImpl, SubSpec,
    SubSpecImpl,
};

verus! {

/// A value and its derivative in one parameter.
#[derive(Debug, Clone, Copy)]
pub struct Dual<T> {
    pub val: T,
    pub dot: T,
}

/// A value and its derivatives in five parameters.
#[derive(Debug, Clone, Copy)]
pub struct Dual5<T> {
    pub val: T,
    pub dot: [T; 5],
}

impl<T: Number> Dual<T> {
    /// A value that does not depend on the parameter.
    pub open spec fn constant_spec(v: T) -> Dual<T> {
        Dual { val: v, dot: num::<T>(0) }
    }

    /// The parameter itself.
    pub open spec fn active_spec(v: T) -> Dual<T> {
        Dual { val: v, dot: num::<T>(1) }
    }

    /// The exponential.
    pub open spec fn exp_spec<M: Elementary<T>>(self, m: M) -> Dual<T> {
        let e = exp_of(m, self.val);
        Dual { val: e, dot: e.mul_spec(self.dot) }
    }

    /// The logarithm.
    pub open spec fn ln_spec<M: Elementary<T>>(self, m: M) -> Dual<T> {
        Dual { val: ln_of(m, self.val), dot: self.dot.div_spec(self.val) }
    }

    /// The square root.
    pub open spec fn sqrt_spec<M: Elementary<T>>(self, m: M) -> Dual<T> {
        let s = sqrt_of(m, self.val);
        Dual { val: s, dot: self.dot.div_spec(num::<T>(2).mul_spec(s)) }
    }

    /// A value that does not depend on the parameter.
    pub fn constant(v: T) -> (res: Dual<T>)
        requires
            regular::<T>(),
        ensures
            res == Self::constant_spec(v),
    {
        Dual { val: v, dot: whole::<T>(0) }
    }

    /// The parameter itself.
    pub fn active(v: T) -> (res: Dual<T>)
        requires
            regular::<T>(),
        ensures
            res == Self::active_spec(v),
    {
        Dual { val: v, dot: whole::<T>(1) }
    }

    /// The exponential.
    pub fn exp<M: Elementary<T>>(self, m: M) -> (res: Dual<T>)
        requires
            lawful::<T, M>(m),
        ensures
            res == self.exp_spec(m),
    {
        let e = m.exp(self.val);
        Dual { val: e, dot: e * self.dot }
    }

    /// The logarithm.
    pub fn ln<M: Elementary<T>>(self, m: M) -> (res: Dual<T>)
        requires
            lawful::<T, M>(m),
        ensures
            res == self.ln_spec(m),
    {
        Dual { val: m.ln(self.val), dot: self.dot / self.val }
    }

    /// The square root.
    pub fn sqrt<M: Elementary<T>>(self, m: M) -> (res: Dual<T>)
        requires
            lawful::<T, M>(m),
        ensures
            res == self.sqrt_spec(m),
    {
        let s = m.sqrt(self.val);
        Dual { val: s, dot: self.dot / (whole::<T>(2) * s) }
    }
}

impl<T: Number> Add for Dual<T> {
    type Output = Dual<T>;

    fn add(self, rhs: Dual<T>) -> Dual<T> {
        Dual { val: self.val + rhs.val, dot: self.dot + rhs.dot }
    }
}

impl<T: Number> AddSpecImpl for Dual<T> {
    open spec fn obeys_add_spec() -> bool {
        true
    }

    open spec fn add_req(self, rhs: Dual<T>) -> bool {
        regular::<T>()
    }

    open spec fn add_spec(self, rhs: Dual<T>) -> Dual<T> {
        Dual { val: self.val.add_spec(rhs.val), dot: self.dot.add_spec(rhs.dot) }
    }
}

impl<T: Number> Sub for Dual<T> {
    type Output = Dual<T>;

    fn sub(self, rhs: Dual<T>) -> Dual<T> {
        Dual { val: self.val - rhs.val, dot: self.dot - rhs.dot }
    }
}

impl<T: Number> SubSpecImpl for Dual<T> {
    open spec fn obeys_sub_spec() -> bool {
        true
    }

    open spec fn sub_req(self, rhs: Dual<T>) -> bool {
        regular::<T>()
    }

    open spec fn sub_spec(self, rhs: Dual<T>) -> Dual<T> {
        Dual { val: self.val.sub_spec(rhs.val), dot: self.dot.sub_spec(rhs.dot) }
    }
}

impl<T: Number> Mul for Dual<T> {
    type Output = Dual<T>;

    fn mul(self, rhs: Dual<T>) -> Dual<T> {
        Dual { val: self.val * rhs.val, dot: self.val * rhs.dot + self.dot * rhs.val }
    }
}

impl<T: Number> MulSpecImpl for Dual<T> {
    open spec fn obeys_mul_spec() -> bool {
        true
    }

    open spec fn mul_req(self, rhs: Dual<T>) -> bool {
        regular::<T>()
    }

    open spec fn mul_spec(self, rhs: Dual<T>) -> Dual<T> {
        Dual {
            val: self.val.mul_spec(rhs.val),
            dot: self.val.mul_spec(rhs.dot).add_spec(self.dot.mul_spec(rhs.val)),
        }
    }
}

impl<T: Number> Div for Dual<T> {
    type Output = Dual<T>;

    fn div(self, rhs: Dual<T>) -> Dual<T> {
        Dual {
            val: self.val / rhs.val,
            dot: (self.dot * rhs.val - self.val * rhs.dot) / (rhs.val * rhs.val),
        }
    }
}

impl<T: Number> DivSpecImpl for Dual<T> {
    open spec fn obeys_div_spec() -> bool {
        true
    }

    open spec fn div_req(self, rhs: Dual<T>) -> bool {
        regular::<T>()
    }

    open spec fn div_spec(self, rhs: Dual<T>) -> Dual<T> {
        Dual {
            val: self.val.div_spec(rhs.val),
            dot: self.dot.mul_spec(rhs.val).sub_spec(self.val.mul_spec(rhs.dot)).div_spec(
                rhs.val.mul_spec(rhs.val),
            ),
        }
    }
}

impl<T: Number> Neg for Dual<T> {
    type Output = Dual<T>;

    fn neg(self) -> Dual<T> {
        Dual { val: self.val.neg(), dot: self.dot.neg() }
    }
}

impl<T: Number> NegSpecImpl for Dual<T> {
    open spec fn obeys_neg_spec() -> bool {
        true
    }

    open spec fn neg_req(self) -> bool {
        regular::<T>()
    }

    open spec fn neg_spec(self) -> Dual<T> {
        Dual { val: self.val.neg_spec(), dot: self.dot.neg_spec() }
    }
}

impl<T: Number> PartialEq for Dual<T> {
    fn eq(&self, other: &Dual<T>) -> (res: bool) {
        self.val == other.val
    }
}

impl<T: Number> PartialEqSpecImpl for Dual<T> {
    open spec fn obeys_eq_spec() -> bool {
        T::obeys_eq_spec()
    }

    open spec fn eq_spec(&self, other: &Dual<T>) -> bool {
        self.val.eq_spec(&other.val)
    }
}

impl<T: Number> Dual5<T> {
    /// A value that does not depend on the parameters.
    pub open spec fn constant_spec(v: T) -> Dual5<T> {
        Dual5 { val: v, dot: [num::<T>(0), num::<T>(0), num::<T>(0), num::<T>(0), num::<T>(0)] }
    }

    /// Parameter `i` itself.
    pub open spec fn active_spec(v: T, i: int) -> Dual5<T> {
        Dual5 {
            val: v,
            dot: [
                num::<T>(if i == 0 { 1 } else { 0 }),
                num::<T>(if i == 1 { 1 } else { 0 }),
                num::<T>(if i == 2 { 1 } else { 0 }),
                num::<T>(if i == 3 { 1 } else { 0 }),
                num::<T>(if i == 4 { 1 } else { 0 }),
            ],
        }
    }

    /// The exponential.
    pub open spec fn exp_spec<M: Elementary<T>>(self, m: M) -> Dual5<T> {
        let e = exp_of(m, self.val);
        let d = self.dot;
        Dual5 {
            val: e,
            dot: [
                e.mul_spec(d[0]),
                e.mul_spec(d[1]),
                e.mul_spec(d[2]),
                e.mul_spec(d[3]),
                e.mul_spec(d[4]),
            ],
        }
    }

    /// The logarithm.
    pub open spec fn ln_spec<M: Elementary<T>>(self, m: M) -> Dual5<T> {
        let v = self.val;
        let d = self.dot;
        Dual5 {
            val: ln_of(m, v),
            dot: [
                d[0].div_spec(v),
                d[1].div_spec(v),
                d[2].div_spec(v),
                d[3].div_spec(v),
                d[4].div_spec(v),
            ],
        }
    }

    /// The square root.
    pub open spec fn sqrt_spec<M: Elementary<T>>(self, m: M) -> Dual5<T> {
        let s = sqrt_of(m, self.val);
        let t = num::<T>(2).mul_spec(s);
        let d = self.dot;
        Dual5 {
            val: s,
            dot: [
                d[0].div_spec(t),
                d[1].div_spec(t),
                d[2].div_spec(t),
                d[3].div_spec(t),
                d[4].div_spec(t),
            ],
        }
    }

    /// A value that does not depend on the parameters.
    pub fn constant(v: T) -> (res: Dual5<T>)
        requires
            regular::<T>(),
        ensures
            res == Self::constant_spec(v),
    {
        let zero = whole::<T>(0);
        Dual5 { val: v, dot: [zero, zero, zero, zero, zero] }
    }

    /// Parameter `i` itself.
    pub fn active(v: T, i: usize) -> (res: Dual5<T>)
        requires
            regular::<T>(),
            i < 5,
        ensures
            res == Self::active_spec(v, i as int),
    {
        Dual5 {
            val: v,
            dot: [
                whole::<T>(if i == 0 { 1 } else { 0 }),
                whole::<T>(if i == 1 { 1 } else { 0 }),
                whole::<T>(if i == 2 { 1 } else { 0 }),
                whole::<T>(if i == 3 { 1 } else { 0 }),
                whole::<T>(if i == 4 { 1 } else { 0 }),
            ],
        }
    }

    /// The exponential.
    pub fn exp<M: Elementary<T>>(self, m: M) -> (res: Dual5<T>)
        requires
            lawful::<T, M>(m),
        ensures
            res == self.exp_spec(m),
    {
        let e = m.exp(self.val);
        let d = self.dot;
        Dual5 { val: e, dot: [e * d[0], e * d[1], e * d[2], e * d[3], e * d[4]] }
    }

    /// The logarithm.
    pub fn ln<M: Elementary<T>>(self, m: M) -> (res: Dual5<T>)
        requires
            lawful::<T, M>(m),
        ensures
            res == self.ln_spec(m),
    {
        let v = self.val;
        let d = self.dot;
        Dual5 { val: m.ln(v), dot: [d[0] / v, d[1] / v, d[2] / v, d[3] / v, d[4] / v] }
    }

    /// The square root.
    pub fn sqrt<M: Elementary<T>>(self, m: M) -> (res: Dual5<T>)
        requires
            lawful::<T, M>(m),
        ensures
            res == self.sqrt_spec(m),
    {
        let s = m.sqrt(self.val);
        let t = whole::<T>(2) * s;
        let d = self.dot;
        Dual5 { val: s, dot: [d[0] / t, d[1] / t, d[2] / t, d[3] / t, d[4] / t] }
    }
}

impl<T: Number> Add for Dual5<T> {
    type Output = Dual5<T>;

    fn add(self, rhs: Dual5<T>) -> Dual5<T> {
        Dual5 {
            val: self.val + rhs.val,
            dot: [
                self.dot[0] + rhs.dot[0],
                self.dot[1] + rhs.dot[1],
                self.dot[2] + rhs.dot[2],
                self.dot[3] + rhs.dot[3],
                self.dot[4] + rhs.dot[4],
            ],
        }
    }
}

impl<T: Number> AddSpecImpl for Dual5<T> {
    open spec fn obeys_add_spec() -> bool {
        true
    }

    open spec fn add_req(self, rhs: Dual5<T>) -> bool {
        regular::<T>()
    }

    open spec fn add_spec(self, rhs: Dual5<T>) -> Dual5<T> {
        Dual5 {
            val: self.val.add_spec(rhs.val),
            dot: [
                self.dot[0].add_spec(rhs.dot[0]),
                self.dot[1].add_spec(rhs.dot[1]),
                self.dot[2].add_spec(rhs.dot[2]),
                self.dot[3].add_spec(rhs.dot[3]),
                self.dot[4].add_spec(rhs.dot[4]),
            ],
        }
    }
}

impl<T: Number> Sub for Dual5<T> {
    type Output = Dual5<T>;

    fn sub(self, rhs: Dual5<T>) -> Dual5<T> {
        Dual5 {
            val: self.val - rhs.val,
            dot: [
                self.dot[0] - rhs.dot[0],
                self.dot[1] - rhs.dot[1],
                self.dot[2] - rhs.dot[2],
                self.dot[3] - rhs.dot[3],
                self.dot[4] - rhs.dot[4],
            ],
        }
    }
}

impl<T: Number> SubSpecImpl for Dual5<T> {
    open spec fn obeys_sub_spec() -> bool {
        true
    }

    open spec fn sub_req(self, rhs: Dual5<T>) -> bool {
        regular::<T>()
    }

    open spec fn sub_spec(self, rhs: Dual5<T>) -> Dual5<T> {
        Dual5 {
            val: self.val.sub_spec(rhs.val),
            dot: [
                self.dot[0].sub_spec(rhs.dot[0]),
                self.dot[1].sub_spec(rhs.dot[1]),
                self.dot[2].sub_spec(rhs.dot[2]),
                self.dot[3].sub_spec(rhs.dot[3]),
                self.dot[4].sub_spec(rhs.dot[4]),
            ],
        }
    }
}

impl<T: Number> Mul for Dual5<T> {
    type Output = Dual5<T>;

    fn mul(self, rhs: Dual5<T>) -> Dual5<T> {
        Dual5 {
            val: self.val * rhs.val,
            dot: [
                self.val * rhs.dot[0] + self.dot[0] * rhs.val,
                self.val * rhs.dot[1] + self.dot[1] * rhs.val,
                self.val * rhs.dot[2] + self.dot[2] * rhs.val,
                self.val * rhs.dot[3] + self.dot[3] * rhs.val,
                self.val * rhs.dot[4] + self.dot[4] * rhs.val,
            ],
        }
    }
}

impl<T: Number> MulSpecImpl for Dual5<T> {
    open spec fn obeys_mul_spec() -> bool {
        true
    }

    open spec fn mul_req(self, rhs: Dual5<T>) -> bool {
        regular::<T>()
    }

    open spec fn mul_spec(self, rhs: Dual5<T>) -> Dual5<T> {
        Dual5 {
            val: self.val.mul_spec(rhs.val),
            dot: [
                self.val.mul_spec(rhs.dot[0]).add_spec(self.dot[0].mul_spec(rhs.val)),
                self.val.mul_spec(rhs.dot[1]).add_spec(self.dot[1].mul_spec(rhs.val)),
                self.val.mul_spec(rhs.dot[2]).add_spec(self.dot[2].mul_spec(rhs.val)),
                self.val.mul_spec(rhs.dot[3]).add_spec(self.dot[3].mul_spec(rhs.val)),
                self.val.mul_spec(rhs.dot[4]).add_spec(self.dot[4].mul_spec(rhs.val)),
            ],
        }
    }
}

impl<T: Number> Div for Dual5<T> {
    type Output = Dual5<T>;

    fn div(self, rhs: Dual5<T>) -> Dual5<T> {
        Dual5 {
            val: self.val / rhs.val,
            dot: [
                (self.dot[0] * rhs.val - self.val * rhs.dot[0]) / (rhs.val * rhs.val),
                (self.dot[1] * rhs.val - self.val * rhs.dot[1]) / (rhs.val * rhs.val),
                (self.dot[2] * rhs.val - self.val * rhs.dot[2]) / (rhs.val * rhs.val),
                (self.dot[3] * rhs.val - self.val * rhs.dot[3]) / (rhs.val * rhs.val),
                (self.dot[4] * rhs.val - self.val * rhs.dot[4]) / (rhs.val * rhs.val),
            ],
        }
    }
}

impl<T: Number> DivSpecImpl for Dual5<T> {
    open spec fn obeys_div_spec() -> bool {
        true
    }

    open spec fn div_req(self, rhs: Dual5<T>) -> bool {
        regular::<T>()
    }

    open spec fn div_spec(self, rhs: Dual5<T>) -> Dual5<T> {
        Dual5 {
            val: self.val.div_spec(rhs.val),
            dot: [
                self.dot[0].mul_spec(rhs.val).sub_spec(self.val.mul_spec(rhs.dot[0])).div_spec(
                    rhs.val.mul_spec(rhs.val),
                ),
                self.dot[1].mul_spec(rhs.val).sub_spec(self.val.mul_spec(rhs.dot[1])).div_spec(
                    rhs.val.mul_spec(rhs.val),
                ),
                self.dot[2].mul_spec(rhs.val).sub_spec(self.val.mul_spec(rhs.dot[2])).div_spec(
                    rhs.val.mul_spec(rhs.val),
                ),
                self.dot[3].mul_spec(rhs.val).sub_spec(self.val.mul_spec(rhs.dot[3])).div_spec(
                    rhs.val.mul_spec(rhs.val),
                ),
                self.dot[4].mul_spec(rhs.val).sub_spec(self.val.mul_spec(rhs.dot[4])).div_spec(
                    rhs.val.mul_spec(rhs.val),
                ),
            ],
        }
    }
}

impl<T: Number> Neg for Dual5<T> {
    type Output = Dual5<T>;

    fn neg(self) -> Dual5<T> {
        Dual5 {
            val: self.val.neg(),
            dot: [
                self.dot[0].neg(),
                self.dot[1].neg(),
                self.dot[2].neg(),
                self.dot[3].neg(),
                self.dot[4].neg(),
            ],
        }
    }
}

impl<T: Number> NegSpecImpl for Dual5<T> {
    open spec fn obeys_neg_spec() -> bool {
        true
    }

    open spec fn neg_req(self) -> bool {
        regular::<T>()
    }

    open spec fn neg_spec(self) -> Dual5<T> {
        Dual5 {
            val: self.val.neg_spec(),
            dot: [
                self.dot[0].neg_spec(),
                self.dot[1].neg_spec(),
                self.dot[2].neg_spec(),
                self.dot[3].neg_spec(),
                self.dot[4].neg_spec(),
            ],
        }
    }
}

impl<T: Number> PartialEq for Dual5<T> {
    fn eq(&self, other: &Dual5<T>) -> (res: bool) {
        self.val == other.val
    }
}

impl<T: Number> PartialEqSpecImpl for Dual5<T> {
    open spec fn obeys_eq_spec() -> bool {
        T::obeys_eq_spec()
    }

    open spec fn eq_spec(&self, other: &Dual5<T>) -> bool {
        self.val.eq_spec(&other.val)
    }
}

} // verus!
