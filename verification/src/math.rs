//! The normal distribution: density, distribution function and its inverse.
use crate::number::{
    decimal_of, erfc_of, exp_of, frac, lawful, ln_of, num, ratio, sqrt_of, whole, Elementary,
    Number,
};
use core::ops::Neg;
use vstd::prelude::*;
use vstd::std_specs::cmp::PartialOrdIs;
use vstd::std_specs::ops::{AddSpec, DivSpec, MulSpec, NegSpec, SubSpec};

verus! {

/// The density of the standard normal distribution at `x`.
pub open spec fn npdf_spec<T: Number, M: Elementary<T>>(m: M, x: T) -> T {
    decimal_of::<T, M>(m, 3989422804014327, -16).mul_spec(
        exp_of(m, frac::<T>(-1, 2).mul_spec(x).mul_spec(x)),
    )
}

/// The density of the standard normal distribution at `x`.
pub fn npdf<T: Number, M: Elementary<T>>(m: M, x: T) -> (res: T)
    requires
        lawful::<T, M>(m),
    ensures
        res == npdf_spec(m, x),
{
    m.decimal(3989422804014327, -16) * m.exp(ratio::<T>(-1, 2) * x * x)
}

/// The probability that a standard normal variable is at most `x`: half the complementary
/// error function of minus `x` over the root of two.
pub open spec fn ncdf_spec<T: Number, M: Elementary<T>>(m: M, x: T) -> T {
    frac::<T>(1, 2).mul_spec(
        erfc_of(m, x.neg_spec().mul_spec(decimal_of::<T, M>(m, 7071067811865476, -16))),
    )
}

/// The probability that a standard normal variable is at most `x`: half the complementary
/// error function of minus `x` over the root of two.
pub fn ncdf<T: Number, M: Elementary<T>>(m: M, x: T) -> (res: T)
    requires
        lawful::<T, M>(m),
    ensures
        res == ncdf_spec(m, x),
{
    ratio::<T>(1, 2) * m.erfc(x.neg() * m.decimal(7071067811865476, -16))
}

/// The rational approximation of Acklam to the inverse of `ncdf` for a probability within
/// the central region; `q` is the distance of the probability from one half.
pub open spec fn ncdf_inv_central_spec<T: Number, M: Elementary<T>>(m: M, q: T) -> T {
    let r = q.mul_spec(q);
    let a = decimal_of::<T, M>(m, -3969683028665376, -14).mul_spec(r).add_spec(
        decimal_of::<T, M>(m, 2209460984245205, -13),
    ).mul_spec(r).add_spec(decimal_of::<T, M>(m, -2759285104469687, -13)).mul_spec(r).add_spec(
        decimal_of::<T, M>(m, 138357751867269, -12),
    ).mul_spec(r).add_spec(decimal_of::<T, M>(m, -3066479806614716, -14)).mul_spec(r).add_spec(
        decimal_of::<T, M>(m, 2506628277459239, -15),
    );
    let b = decimal_of::<T, M>(m, -5447609879822406, -14).mul_spec(r).add_spec(
        decimal_of::<T, M>(m, 1615858368580409, -13),
    ).mul_spec(r).add_spec(decimal_of::<T, M>(m, -1556989798598866, -13)).mul_spec(r).add_spec(
        decimal_of::<T, M>(m, 6680131188771972, -14),
    ).mul_spec(r).add_spec(decimal_of::<T, M>(m, -1328068155288572, -14));
    q.mul_spec(a).div_spec(num::<T>(1).add_spec(b.mul_spec(r)))
}

/// The rational approximation of Acklam to the inverse of `ncdf` for a probability within
/// the central region; `q` is the distance of the probability from one half.
fn ncdf_inv_central<T: Number, M: Elementary<T>>(m: M, q: T) -> (res: T)
    requires
        lawful::<T, M>(m),
    ensures
        res == ncdf_inv_central_spec(m, q),
{
    let r = q * q;
    let a = (
        (
            (
                (m.decimal(-3969683028665376, -14) * r + m.decimal(2209460984245205, -13)) * r
                    + m.decimal(-2759285104469687, -13)
            )
                * r
                + m.decimal(138357751867269, -12)
        )
            * r
            + m.decimal(-3066479806614716, -14)
    )
        * r
        + m.decimal(2506628277459239, -15);
    let b = (
        (
            (m.decimal(-5447609879822406, -14) * r + m.decimal(1615858368580409, -13)) * r
                + m.decimal(-1556989798598866, -13)
        )
            * r
            + m.decimal(6680131188771972, -14)
    )
        * r
        + m.decimal(-1328068155288572, -14);
    q * a / (whole::<T>(1) + b * r)
}

/// The rational approximation of Acklam to the inverse of `ncdf` in the lower tail; `r` is
/// the root of minus twice the logarithm of the tail probability.
pub open spec fn ncdf_inv_tail_spec<T: Number, M: Elementary<T>>(m: M, r: T) -> T {
    let c = decimal_of::<T, M>(m, -7784894002430293, -18).mul_spec(r).add_spec(
        decimal_of::<T, M>(m, -3223964580411365, -16),
    ).mul_spec(r).add_spec(decimal_of::<T, M>(m, -2400758277161838, -15)).mul_spec(r).add_spec(
        decimal_of::<T, M>(m, -2549732539343734, -15),
    ).mul_spec(r).add_spec(decimal_of::<T, M>(m, 4374664141464968, -15)).mul_spec(r).add_spec(
        decimal_of::<T, M>(m, 2938163982698783, -15),
    );
    let e = decimal_of::<T, M>(m, 7784695709041462, -18).mul_spec(r).add_spec(
        decimal_of::<T, M>(m, 3224671290700398, -16),
    ).mul_spec(r).add_spec(decimal_of::<T, M>(m, 2445134137142996, -15)).mul_spec(r).add_spec(
        decimal_of::<T, M>(m, 3754408661907416, -15),
    ).mul_spec(r).add_spec(num::<T>(1));
    c.div_spec(e)
}

/// The rational approximation of Acklam to the inverse of `ncdf` in the lower tail; `r` is
/// the root of minus twice the logarithm of the tail probability.
fn ncdf_inv_tail<T: Number, M: Elementary<T>>(m: M, r: T) -> (res: T)
    requires
        lawful::<T, M>(m),
    ensures
        res == ncdf_inv_tail_spec(m, r),
{
    let c = (
        (
            (
                (m.decimal(-7784894002430293, -18) * r + m.decimal(-3223964580411365, -16)) * r
                    + m.decimal(-2400758277161838, -15)
            )
                * r
                + m.decimal(-2549732539343734, -15)
        )
            * r
            + m.decimal(4374664141464968, -15)
    )
        * r
        + m.decimal(2938163982698783, -15);
    let e = (
        (
            (m.decimal(7784695709041462, -18) * r + m.decimal(3224671290700398, -16)) * r
                + m.decimal(2445134137142996, -15)
        )
            * r
            + m.decimal(3754408661907416, -15)
    )
        * r
        + whole::<T>(1);
    c / e
}

/// The rational approximation of Acklam to the inverse of `ncdf`: one quotient of
/// polynomials for the central region, another for both tails. The probability lies
/// strictly between zero and one.
pub open spec fn ncdf_inv_spec<T: Number, M: Elementary<T>>(m: M, p: T) -> T {
    let lo = frac::<T>(2425, 100000);
    if lo.is_le(&p) && p.is_le(&num::<T>(1).sub_spec(lo)) {
        ncdf_inv_central_spec(m, p.sub_spec(frac::<T>(1, 2)))
    } else {
        if p.is_lt(&lo) {
            ncdf_inv_tail_spec(m, sqrt_of(m, num::<T>(-2).mul_spec(ln_of(m, p))))
        } else {
            ncdf_inv_tail_spec(
                m,
                sqrt_of(m, num::<T>(-2).mul_spec(ln_of(m, num::<T>(1).sub_spec(p)))),
            ).neg_spec()
        }
    }
}

/// The rational approximation of Acklam to the inverse of `ncdf`: one quotient of
/// polynomials for the central region, another for both tails. The probability lies
/// strictly between zero and one.
pub fn ncdf_inv<T: Number, M: Elementary<T>>(m: M, p: T) -> (res: T)
    requires
        lawful::<T, M>(m),
    ensures
        res == ncdf_inv_spec(m, p),
{
    let lo = ratio::<T>(2425, 100000);
    if lo <= p && p <= whole::<T>(1) - lo {
        ncdf_inv_central(m, p - ratio::<T>(1, 2))
    } else {
        if p < lo {
            ncdf_inv_tail(m, m.sqrt(whole::<T>(-2) * m.ln(p)))
        } else {
            ncdf_inv_tail(m, m.sqrt(whole::<T>(-2) * m.ln(whole::<T>(1) - p))).neg()
        }
    }
}

} // verus!
