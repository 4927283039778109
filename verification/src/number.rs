//! The arithmetic that the pricing code is written over.
//!
//! Every formula of the library is generic in its number type `T`, which brings the
//! operators of `core::ops`, and in a provider `M` of the elementary functions. In a
//! contract an operator stands for the value that `vstd` names for it (`add_spec` and so
//! on), and an elementary function for the value that its provider returns, so a contract
//! fixes each result operation by operation, roundings included.
use core::ops::{Add, Div, Mul, Neg, Sub};
use vstd::prelude::*;
use vstd::std_specs::cmp::{PartialEqIs, PartialEqSpec, PartialOrdIs, PartialOrdSpec};
use vstd::std_specs::convert::FromSpec;
use vstd::std_specs::ops::{AddSpec, DivSpec, MulSpec, NegSpec, SubSpec};

verus! {

/// A type of quantities that can be added, subtracted, multiplied, divided and negated.
pub trait Arith: Copy + Add<Output = Self> + Sub<Output = Self> + Mul<Output = Self> + Div<
    Output = Self,
> + Neg<Output = Self> {

}

impl<T> Arith for T where
    T: Copy + Add<Output = T> + Sub<Output = T> + Mul<Output = T> + Div<Output = T> + Neg<
        Output = T,
    >,
 {

}

/// A type of numbers: arithmetic, an order and the small integers.
pub trait Number: Arith + PartialOrd + From<i32> {

}

impl<T> Number for T where T: Arith + PartialOrd + From<i32> {

}

/// The functions of one or two numbers that the formulas call by name. The provider is a
/// value of its own, apart from the number type, so that any number type can be given one.
pub trait Elementary<T>: Copy {
    /// e to the power `x`.
    fn exp(&self, x: T) -> T;

    /// The natural logarithm of `x`.
    fn ln(&self, x: T) -> T;

    /// The square root of `x`.
    fn sqrt(&self, x: T) -> T;

    /// The sine of `x`.
    fn sin(&self, x: T) -> T;

    /// The cosine of `x`.
    fn cos(&self, x: T) -> T;

    /// The angle of the point (`x`, `y`).
    fn atan2(&self, y: T, x: T) -> T;

    /// The length of the vector (`x`, `y`).
    fn hypot(&self, x: T, y: T) -> T;

    /// `x` to the power `y`.
    fn powf(&self, x: T, y: T) -> T;

    /// The complementary error function of `x`.
    fn erfc(&self, x: T) -> T;

    /// Whether `x` is neither infinite nor undefined.
    fn is_finite(&self, x: T) -> bool;

    /// Whether the sign of `x` is plus; a zero has a sign too.
    fn is_sign_positive(&self, x: T) -> bool;

    /// A value above every finite number.
    fn infinity(&self) -> T;

    /// The place of `x` in the total order of the number type: of two numbers the one with
    /// the smaller rank comes first.
    fn rank(&self, x: T) -> i64;

    /// The number nearest to `mantissa` times ten to the power `exponent`.
    fn decimal(&self, mantissa: i64, exponent: i32) -> T;

    /// The number nearest to the count `n`.
    fn count(&self, n: usize) -> T;
}

/// The operators of `T` take every pair of operands, and what they return is determined by
/// the operands: it is the value that `vstd` names for the operator.
pub open spec fn arithmetic<T: Arith>() -> bool {
    &&& T::obeys_add_spec()
    &&& T::obeys_sub_spec()
    &&& T::obeys_mul_spec()
    &&& T::obeys_div_spec()
    &&& T::obeys_neg_spec()
    &&& forall|a: T, b: T| #[trigger] a.add_req(b)
    &&& forall|a: T, b: T| #[trigger] a.sub_req(b)
    &&& forall|a: T, b: T| #[trigger] a.mul_req(b)
    &&& forall|a: T, b: T| #[trigger] a.div_req(b)
    &&& forall|a: T| #[trigger] a.neg_req()
}

/// Arithmetic and comparison of `T` are determined by the operands.
pub open spec fn regular<T: Number>() -> bool {
    &&& arithmetic::<T>()
    &&& T::obeys_eq_spec()
    &&& T::obeys_partial_cmp_spec()
    &&& T::obeys_from_spec()
}

/// What `m.exp(x)` returns.
pub open spec fn exp_of<T, M: Elementary<T>>(m: M, x: T) -> T {
    choose|y: T| call_ensures(M::exp, (&m, x), y)
}

/// What `m.ln(x)` returns.
pub open spec fn ln_of<T, M: Elementary<T>>(m: M, x: T) -> T {
    choose|y: T| call_ensures(M::ln, (&m, x), y)
}

/// What `m.sqrt(x)` returns.
pub open spec fn sqrt_of<T, M: Elementary<T>>(m: M, x: T) -> T {
    choose|y: T| call_ensures(M::sqrt, (&m, x), y)
}

/// What `m.sin(x)` returns.
pub open spec fn sin_of<T, M: Elementary<T>>(m: M, x: T) -> T {
    choose|y: T| call_ensures(M::sin, (&m, x), y)
}

/// What `m.cos(x)` returns.
pub open spec fn cos_of<T, M: Elementary<T>>(m: M, x: T) -> T {
    choose|y: T| call_ensures(M::cos, (&m, x), y)
}

/// What `m.atan2(y, x)` returns.
pub open spec fn atan2_of<T, M: Elementary<T>>(m: M, y: T, x: T) -> T {
    choose|r: T| call_ensures(M::atan2, (&m, y, x), r)
}

/// What `m.hypot(x, y)` returns.
pub open spec fn hypot_of<T, M: Elementary<T>>(m: M, x: T, y: T) -> T {
    choose|r: T| call_ensures(M::hypot, (&m, x, y), r)
}

/// What `m.powf(x, y)` returns.
pub open spec fn powf_of<T, M: Elementary<T>>(m: M, x: T, y: T) -> T {
    choose|r: T| call_ensures(M::powf, (&m, x, y), r)
}

/// What `m.erfc(x)` returns.
pub open spec fn erfc_of<T, M: Elementary<T>>(m: M, x: T) -> T {
    choose|y: T| call_ensures(M::erfc, (&m, x), y)
}

/// What `m.is_finite(x)` returns.
pub open spec fn is_finite_of<T, M: Elementary<T>>(m: M, x: T) -> bool {
    choose|y: bool| call_ensures(M::is_finite, (&m, x), y)
}

/// What `m.is_sign_positive(x)` returns.
pub open spec fn is_sign_positive_of<T, M: Elementary<T>>(m: M, x: T) -> bool {
    choose|y: bool| call_ensures(M::is_sign_positive, (&m, x), y)
}

/// What `m.infinity()` returns.
pub open spec fn infinity_of<T, M: Elementary<T>>(m: M) -> T {
    choose|y: T| call_ensures(M::infinity, (&m,), y)
}

/// What `m.rank(x)` returns.
pub open spec fn rank_of<T, M: Elementary<T>>(m: M, x: T) -> i64 {
    choose|y: i64| call_ensures(M::rank, (&m, x), y)
}

/// Ranks follow the order of the numbers: a number that is less than another has a lower rank.
pub open spec fn ranks_follow_order<T: Number, M: Elementary<T>>(m: M) -> bool {
    forall|x: T, y: T|
        #![trigger rank_of(m, x), rank_of(m, y)]
        x.is_lt(&y) ==> rank_of(m, x) < rank_of(m, y)
}

/// What `m.decimal(mantissa, exponent)` returns.
pub open spec fn decimal_value<T, M: Elementary<T>>(m: M, mantissa: i64, exponent: i32) -> T {
    choose|y: T| call_ensures(M::decimal, (&m, mantissa, exponent), y)
}

/// What `m.decimal(mantissa, exponent)` returns.
#[verifier::inline]
pub open spec fn decimal_of<T, M: Elementary<T>>(m: M, mantissa: int, exponent: int) -> T {
    decimal_value(m, mantissa as i64, exponent as i32)
}

/// What `m.count(n)` returns.
pub open spec fn count_of<T, M: Elementary<T>>(m: M, n: usize) -> T {
    choose|y: T| call_ensures(M::count, (&m, n), y)
}

/// Each function of the provider returns the same value whenever it is called on the same
/// arguments.
pub open spec fn repeatable<T, M: Elementary<T>>(m: M) -> bool {
    &&& forall|x: T, y: T| #[trigger] call_ensures(M::exp, (&m, x), y) ==> y == exp_of(m, x)
    &&& forall|x: T, y: T| #[trigger] call_ensures(M::ln, (&m, x), y) ==> y == ln_of(m, x)
    &&& forall|x: T, y: T| #[trigger] call_ensures(M::sqrt, (&m, x), y) ==> y == sqrt_of(m, x)
    &&& forall|x: T, y: T| #[trigger] call_ensures(M::sin, (&m, x), y) ==> y == sin_of(m, x)
    &&& forall|x: T, y: T| #[trigger] call_ensures(M::cos, (&m, x), y) ==> y == cos_of(m, x)
    &&& forall|y: T, x: T, r: T| #[trigger]
        call_ensures(M::atan2, (&m, y, x), r) ==> r == atan2_of(m, y, x)
    &&& forall|x: T, y: T, r: T| #[trigger]
        call_ensures(M::hypot, (&m, x, y), r) ==> r == hypot_of(m, x, y)
    &&& forall|x: T, y: T, r: T| #[trigger]
        call_ensures(M::powf, (&m, x, y), r) ==> r == powf_of(m, x, y)
    &&& forall|x: T, y: T| #[trigger] call_ensures(M::erfc, (&m, x), y) ==> y == erfc_of(m, x)
    &&& forall|x: T, y: bool| #[trigger]
        call_ensures(M::is_finite, (&m, x), y) ==> y == is_finite_of(m, x)
    &&& forall|x: T, y: bool| #[trigger]
        call_ensures(M::is_sign_positive, (&m, x), y) ==> y == is_sign_positive_of(m, x)
    &&& forall|y: T| #[trigger] call_ensures(M::infinity, (&m,), y) ==> y == infinity_of::<T, M>(m)
    &&& forall|x: T, y: i64| #[trigger] call_ensures(M::rank, (&m, x), y) ==> y == rank_of(m, x)
    &&& forall|a: i64, e: i32, y: T| #[trigger]
        call_ensures(M::decimal, (&m, a, e), y) ==> y == decimal_value::<T, M>(m, a, e)
    &&& forall|n: usize, y: T| #[trigger]
        call_ensures(M::count, (&m, n), y) ==> y == count_of::<T, M>(m, n)
}

/// What the formulas ask of the number type and of the provider: that results are
/// determined by arguments. Nothing is asked about what the results are.
pub open spec fn lawful<T: Number, M: Elementary<T>>(m: M) -> bool {
    &&& regular::<T>()
    &&& repeatable::<T, M>(m)
}

/// The integer `n` as a number.
#[verifier::inline]
pub open spec fn num<T: Number>(n: int) -> T {
    T::from_spec(n as i32)
}

/// The integer `n` as a number.
pub fn whole<T: Number>(n: i32) -> (r: T)
    requires
        regular::<T>(),
    ensures
        r == num::<T>(n as int),
{
    T::from(n)
}

/// The quotient of two integers as a number.
#[verifier::inline]
pub open spec fn frac<T: Number>(n: int, d: int) -> T {
    T::from_spec(n as i32).div_spec(T::from_spec(d as i32))
}

/// The quotient of two integers as a number.
pub fn ratio<T: Number>(n: i32, d: i32) -> (r: T)
    requires
        regular::<T>(),
    ensures
        r == frac::<T>(n as int, d as int),
{
    T::from(n) / T::from(d)
}

/// The larger of two numbers; of a number and an undefined value, the number.
pub open spec fn larger<T: Number>(a: T, b: T) -> T {
    if a.is_lt(&b) || a.is_ne(&a) {
        b
    } else {
        a
    }
}

/// The larger of two numbers; of a number and an undefined value, the number.
pub fn fmax<T: Number>(a: T, b: T) -> (r: T)
    requires
        regular::<T>(),
    ensures
        r == larger(a, b),
{
    if a < b || a != a {
        b
    } else {
        a
    }
}

/// The smaller of two numbers; of a number and an undefined value, the number.
pub open spec fn smaller<T: Number>(a: T, b: T) -> T {
    if a.is_gt(&b) || a.is_ne(&a) {
        b
    } else {
        a
    }
}

/// The smaller of two numbers; of a number and an undefined value, the number.
pub fn fmin<T: Number>(a: T, b: T) -> (r: T)
    requires
        regular::<T>(),
    ensures
        r == smaller(a, b),
{
    if a > b || a != a {
        b
    } else {
        a
    }
}

/// `x` moved to the nearer end of the interval from `lo` to `hi` if it lies outside it.
pub open spec fn clamped<T: Number>(x: T, lo: T, hi: T) -> T {
    let y = if x.is_lt(&lo) {
        lo
    } else {
        x
    };
    if y.is_gt(&hi) {
        hi
    } else {
        y
    }
}

/// `x` moved to the nearer end of the interval from `lo` to `hi` if it lies outside it.
pub fn clamp<T: Number>(x: T, lo: T, hi: T) -> (r: T)
    requires
        regular::<T>(),
    ensures
        r == clamped(x, lo, hi),
{
    let y = if x < lo {
        lo
    } else {
        x
    };
    if y > hi {
        hi
    } else {
        y
    }
}

/// The absolute value of `x`.
pub open spec fn magnitude<T: Number>(x: T) -> T {
    if x.is_gt(&num::<T>(0)) {
        x
    } else {
        num::<T>(0).sub_spec(x)
    }
}

/// The absolute value of `x`.
pub fn abs<T: Number>(x: T) -> (r: T)
    requires
        regular::<T>(),
    ensures
        r == magnitude(x),
{
    let zero = whole::<T>(0);
    if x > zero {
        x
    } else {
        zero - x
    }
}

/// The sum of the first `n` terms of `f`, added one after the other to zero.
pub open spec fn sum<T: Number>(f: spec_fn(int) -> T, n: int) -> T
    decreases n,
{
    if n <= 0 {
        num::<T>(0)
    } else {
        sum(f, n - 1).add_spec(f(n - 1))
    }
}

} // verus!
