//! Exact arithmetic: what is asked of a number type in the laws that hold up to rounding.
//!
//! The contracts of the library speak of results with their roundings. A law of the models,
//! such as the parity of puts and calls, holds of results without. It is stated over a map
//! `v` that gives each number its value, and under the hypothesis that arithmetic on numbers
//! is arithmetic on their values.
use crate::number::{
    cos_of, count_of, decimal_of, erfc_of, exp_of, frac, hypot_of, num, sin_of, sqrt_of, Elementary,
    Number,
};
use vstd::prelude::*;
use vstd::std_specs::cmp::{PartialEqSpec, PartialOrdIs, PartialOrdSpec};
use vstd::std_specs::convert::FromSpec;
use vstd::std_specs::ops::{AddSpec, DivSpec, MulSpec, NegSpec, SubSpec};

verus! {

/// The values that `v` gives the numbers are ordered as the numbers are.
pub open spec fn ordered<T: Number>(v: spec_fn(T) -> real) -> bool {
    &&& forall|a: T, b: T|
        #![trigger a.partial_cmp_spec(&b)]
        {
            &&& a.is_lt(&b) == (v(a) < v(b))
            &&& a.is_le(&b) == (v(a) <= v(b))
            &&& a.is_gt(&b) == (v(a) > v(b))
            &&& a.is_ge(&b) == (v(a) >= v(b))
        }
    &&& forall|a: T, b: T| #[trigger] a.eq_spec(&b) == (v(a) == v(b))
}

/// The product of two real numbers. It is kept opaque: proofs take it apart by the lemmas
/// below, and the solver sees linear arithmetic.
#[verifier::opaque]
pub open spec fn times(a: real, b: real) -> real {
    a * b
}

/// The values that `v` gives the numbers follow the rules of arithmetic.
pub open spec fn exact<T: Number>(v: spec_fn(T) -> real) -> bool {
    &&& forall|a: T, b: T| v(#[trigger] a.add_spec(b)) == v(a) + v(b)
    &&& forall|a: T, b: T| v(#[trigger] a.sub_spec(b)) == v(a) - v(b)
    &&& forall|a: T, b: T| v(#[trigger] a.mul_spec(b)) == times(v(a), v(b))
    &&& forall|a: T, b: T| v(b) != 0real ==> times(v(#[trigger] a.div_spec(b)), v(b)) == v(a)
    &&& forall|a: T| v(#[trigger] a.neg_spec()) == -v(a)
    &&& forall|n: i32| v(#[trigger] T::from_spec(n)) == n as real
    &&& ordered(v)
}

/// Products do not depend on the order of the factors.
pub proof fn lemma_times_comm(a: real, b: real)
    ensures
        times(a, b) == times(b, a),
{
    reveal(times);
}

/// Products do not depend on the grouping of the factors.
pub proof fn lemma_times_assoc(a: real, b: real, c: real)
    ensures
        times(times(a, b), c) == times(a, times(b, c)),
{
    reveal(times);
    assert((a * b) * c == a * (b * c)) by (nonlinear_arith);
}

/// The product with a sum is the sum of the products.
pub proof fn lemma_times_add(a: real, b: real, c: real)
    ensures
        times(a, b + c) == times(a, b) + times(a, c),
        times(b + c, a) == times(b, a) + times(c, a),
{
    reveal(times);
    assert(a * (b + c) == a * b + a * c) by (nonlinear_arith);
    assert((b + c) * a == b * a + c * a) by (nonlinear_arith);
}

/// The product with a difference is the difference of the products.
pub proof fn lemma_times_sub(a: real, b: real, c: real)
    ensures
        times(a, b - c) == times(a, b) - times(a, c),
        times(b - c, a) == times(b, a) - times(c, a),
{
    reveal(times);
    assert(a * (b - c) == a * b - a * c) by (nonlinear_arith);
    assert((b - c) * a == b * a - c * a) by (nonlinear_arith);
}

/// The product with zero, one and minus one.
pub proof fn lemma_times_unit(a: real)
    ensures
        times(a, 0real) == 0real,
        times(0real, a) == 0real,
        times(a, 1real) == a,
        times(1real, a) == a,
        times(a, -1real) == -a,
        times(-1real, a) == -a,
{
    reveal(times);
}

/// The sign of a factor is the sign of the product.
pub proof fn lemma_times_neg(a: real, b: real)
    ensures
        times(-a, b) == -times(a, b),
        times(a, -b) == -times(a, b),
{
    reveal(times);
    assert((-a) * b == -(a * b)) by (nonlinear_arith);
    assert(a * (-b) == -(a * b)) by (nonlinear_arith);
}

/// A factor other than zero can be cancelled.
pub proof fn lemma_times_cancel(a: real, b: real, c: real)
    requires
        times(a, c) == times(b, c),
        c != 0real,
    ensures
        a == b,
{
    reveal(times);
    assert(a == b) by (nonlinear_arith)
        requires
            a * c == b * c,
            c != 0real,
    ;
}

/// A square is not negative, and zero only at zero.
pub proof fn lemma_square(a: real)
    ensures
        times(a, a) >= 0real,
        a != 0real ==> times(a, a) > 0real,
{
    reveal(times);
    assert(a * a >= 0real) by (nonlinear_arith);
    if a != 0real {
        assert(a * a > 0real) by (nonlinear_arith)
            requires
                a != 0real,
        ;
    }
}

/// The product of numbers that are not negative is not negative.
pub proof fn lemma_times_not_negative(a: real, b: real)
    requires
        a >= 0real,
        b >= 0real,
    ensures
        times(a, b) >= 0real,
{
    reveal(times);
    assert(a * b >= 0real) by (nonlinear_arith)
        requires
            a >= 0real,
            b >= 0real,
    ;
}

/// The product of positive numbers is positive.
pub proof fn lemma_times_positive(a: real, b: real)
    requires
        a > 0real,
        b > 0real,
    ensures
        times(a, b) > 0real,
{
    reveal(times);
    assert(a * b > 0real) by (nonlinear_arith)
        requires
            a > 0real,
            b > 0real,
    ;
}

/// The product of the sum and the difference is the difference of the squares.
pub proof fn lemma_difference_of_squares(a: real, b: real)
    ensures
        times(a - b, a + b) == times(a, a) - times(b, b),
{
    reveal(times);
    assert((a - b) * (a + b) == a * a - b * b) by (nonlinear_arith);
}

/// Two numbers that are not negative and have the same square are the same.
pub proof fn lemma_same_square(a: real, b: real)
    requires
        a >= 0real,
        b >= 0real,
        times(a, a) == times(b, b),
    ensures
        a == b,
{
    lemma_difference_of_squares(a, b);
    lemma_times_unit(a + b);
    if a + b > 0real {
        lemma_times_cancel(a - b, 0real, a + b);
    }
}

/// The square of a product is the product of the squares.
pub proof fn lemma_square_of_product(a: real, b: real)
    ensures
        times(times(a, b), times(a, b)) == times(times(a, a), times(b, b)),
{
    reveal(times);
    assert((a * b) * (a * b) == (a * a) * (b * b)) by (nonlinear_arith);
}

/// The product as the operator has it, for a literal factor.
pub proof fn lemma_literal(k: real, a: real)
    ensures
        times(k, a) == k * a,
        times(a, k) == k * a,
{
    reveal(times);
    assert(a * k == k * a) by (nonlinear_arith);
}

/// A multiple of a factor is the multiple of the product.
pub proof fn lemma_multiple(k: real, a: real, b: real)
    ensures
        times(k * a, b) == k * times(a, b),
        times(a, k * b) == k * times(a, b),
{
    reveal(times);
    assert((k * a) * b == k * (a * b)) by (nonlinear_arith);
    assert(a * (k * b) == k * (a * b)) by (nonlinear_arith);
}

/// The product with two.
pub proof fn lemma_twice(a: real)
    ensures
        times(a, 2real) == 2real * a,
        times(2real, a) == 2real * a,
{
    reveal(times);
}

/// Where one factor is positive and the product is not negative, the other factor is not
/// negative.
pub proof fn lemma_sign_of_factor(a: real, b: real)
    requires
        a > 0real,
        times(a, b) >= 0real,
    ensures
        b >= 0real,
{
    if b < 0real {
        lemma_times_positive(a, -b);
        lemma_times_neg(a, b);
    }
}

/// The sum of the first `n` terms of `f`.
pub open spec fn total(f: spec_fn(int) -> real, n: int) -> real
    decreases n,
{
    if n <= 0 {
        0real
    } else {
        total(f, n - 1) + f(n - 1)
    }
}

/// Sums of the same terms are the same.
pub proof fn lemma_total_same(f: spec_fn(int) -> real, g: spec_fn(int) -> real, n: int)
    requires
        forall|i: int| 0 <= i < n ==> #[trigger] f(i) == g(i),
    ensures
        total(f, n) == total(g, n),
    decreases n,
{
    if n > 0 {
        lemma_total_same(f, g, n - 1);
    }
}

/// The sum of terms that are sums is the sum of the sums, the second taken `k` times.
pub proof fn lemma_total_linear(
    f: spec_fn(int) -> real,
    g: spec_fn(int) -> real,
    h: spec_fn(int) -> real,
    k: real,
    n: int,
)
    requires
        forall|i: int| 0 <= i < n ==> #[trigger] h(i) == f(i) + times(k, g(i)),
    ensures
        total(h, n) == total(f, n) + times(k, total(g, n)),
    decreases n,
{
    if n > 0 {
        lemma_total_linear(f, g, h, k, n - 1);
        lemma_times_add(k, total(g, n - 1), g(n - 1));
    } else {
        lemma_times_unit(k);
    }
}

/// A sum of which only one term is not zero.
pub proof fn lemma_total_single(f: spec_fn(int) -> real, n: int, p: int)
    requires
        0 <= p,
        forall|i: int| 0 <= i < n && i != p ==> #[trigger] f(i) == 0real,
    ensures
        total(f, n) == if p < n {
            f(p)
        } else {
            0real
        },
    decreases n,
{
    if n > 0 {
        lemma_total_single(f, n - 1, p);
    }
}

/// Two sums of which only the term `p` differs.
pub proof fn lemma_total_one(f: spec_fn(int) -> real, g: spec_fn(int) -> real, n: int, p: int)
    requires
        0 <= p,
        forall|i: int| 0 <= i < n && i != p ==> #[trigger] f(i) == g(i),
    ensures
        p < n ==> total(f, n) - total(g, n) == f(p) - g(p),
        n <= p ==> total(f, n) == total(g, n),
    decreases n,
{
    if n > 0 {
        lemma_total_one(f, g, n - 1, p);
    }
}

/// Two sums of which only the terms `p` and `q` differ.
pub proof fn lemma_total_two(
    f: spec_fn(int) -> real,
    g: spec_fn(int) -> real,
    n: int,
    p: int,
    q: int,
)
    requires
        0 <= p < q,
        forall|i: int| 0 <= i < n && i != p && i != q ==> #[trigger] f(i) == g(i),
    ensures
        q < n ==> total(f, n) - total(g, n) == f(p) + f(q) - g(p) - g(q),
        p < n <= q ==> total(f, n) - total(g, n) == f(p) - g(p),
        n <= p ==> total(f, n) == total(g, n),
    decreases n,
{
    if n > 0 {
        lemma_total_two(f, g, n - 1, p, q);
    }
}

/// One half, twice, is one.
pub proof fn lemma_half<T: Number>(v: spec_fn(T) -> real)
    requires
        exact(v),
    ensures
        v(frac::<T>(1, 2)) == 1real / 2real,
        times(v(frac::<T>(1, 2)), 2real) == 1real,
{
    lemma_fraction(v, 1, 2);
}

/// The value of a quotient of integers.
pub proof fn lemma_fraction<T: Number>(v: spec_fn(T) -> real, n: i32, d: i32)
    requires
        exact(v),
        d != 0,
    ensures
        v(frac::<T>(n as int, d as int)) == (n as real) / (d as real),
        times(v(frac::<T>(n as int, d as int)), d as real) == n as real,
{
    let q = v(frac::<T>(n as int, d as int));
    let (x, y) = (n as real, d as real);
    assert(y != 0real);
    assert(times(q, y) == x);
    reveal(times);
    assert(q == x / y) by (nonlinear_arith)
        requires
            q * y == x,
            y != 0real,
    ;
}

/// Numbers of the same value are the same.
pub open spec fn faithful<T: Number>(v: spec_fn(T) -> real) -> bool {
    forall|a: T, b: T| #[trigger] same_value(v, a, b) ==> a == b
}

/// Two numbers have the same value.
pub open spec fn same_value<T>(v: spec_fn(T) -> real, a: T, b: T) -> bool {
    v(a) == v(b)
}

/// The complementary error function is two less what it is at the opposite number.
pub open spec fn erfc_reflects<T: Number, M: Elementary<T>>(m: M, v: spec_fn(T) -> real) -> bool {
    forall|x: T, y: T|
        #![trigger erfc_of(m, x), erfc_of(m, y)]
        v(x) + v(y) == 0real ==> v(erfc_of(m, x)) + v(erfc_of(m, y)) == 2real
}

/// The square root of a number that is not negative is not negative, and squares to it.
pub open spec fn sqrt_exact<T: Number, M: Elementary<T>>(m: M, v: spec_fn(T) -> real) -> bool {
    forall|x: T|
        v(x) >= 0real ==> {
            let r = v(#[trigger] sqrt_of(m, x));
            r >= 0real && times(r, r) == v(x)
        }
}

/// The length of a vector is not negative, and squares to the sum of the squares.
pub open spec fn hypot_exact<T: Number, M: Elementary<T>>(m: M, v: spec_fn(T) -> real) -> bool {
    forall|x: T, y: T|
        {
            let r = v(#[trigger] hypot_of(m, x, y));
            r >= 0real && times(r, r) == times(v(x), v(x)) + times(v(y), v(y))
        }
}

/// At zero the exponential and the cosine are one, and the sine is zero.
pub open spec fn exact_at_zero<T: Number, M: Elementary<T>>(m: M, v: spec_fn(T) -> real) -> bool {
    &&& v(exp_of(m, num::<T>(0))) == 1real
    &&& v(cos_of(m, num::<T>(0))) == 1real
    &&& v(sin_of(m, num::<T>(0))) == 0real
}

/// The exponential of a sum is the product of the exponentials.
pub open spec fn exp_adds<T: Number, M: Elementary<T>>(m: M, v: spec_fn(T) -> real) -> bool {
    forall|x: T, y: T, z: T|
        #![trigger exp_of(m, x), exp_of(m, y), exp_of(m, z)]
        v(z) == v(x) + v(y) ==> v(exp_of(m, z)) == times(v(exp_of(m, x)), v(exp_of(m, y)))
}

/// The exponential, the complementary error function and the decimals with a positive
/// mantissa are positive.
pub open spec fn positive_functions<T: Number, M: Elementary<T>>(
    m: M,
    v: spec_fn(T) -> real,
) -> bool {
    &&& forall|x: T| v(#[trigger] exp_of(m, x)) > 0real
    &&& forall|x: T| v(#[trigger] erfc_of(m, x)) > 0real
    &&& forall|d: int, e: int|
        0 < d <= i64::MAX ==> v(#[trigger] decimal_of::<T, M>(m, d, e)) > 0real
}

/// Ten to the power `n`.
pub open spec fn power_of_ten(n: nat) -> real
    decreases n,
{
    if n == 0 {
        1real
    } else {
        10real * power_of_ten((n - 1) as nat)
    }
}

/// A decimal fraction has its own value.
pub open spec fn decimal_exact<T: Number, M: Elementary<T>>(m: M, v: spec_fn(T) -> real) -> bool {
    forall|d: int, e: int|
        i64::MIN <= d <= i64::MAX && -22 <= e <= 0 ==> times(
            v(#[trigger] decimal_of::<T, M>(m, d, e)),
            power_of_ten((-e) as nat),
        ) == d as real
}

/// A count has its own value.
pub open spec fn count_exact<T: Number, M: Elementary<T>>(m: M, v: spec_fn(T) -> real) -> bool {
    forall|n: usize| v(#[trigger] count_of::<T, M>(m, n)) == n as real
}

/// Quotients by the same positive number are ordered as what is divided.
pub proof fn lemma_quotients_ordered<T: Number>(v: spec_fn(T) -> real, a: T, b: T, c: T)
    requires
        exact(v),
        v(a) <= v(b),
        v(c) > 0real,
    ensures
        v(a.div_spec(c)) <= v(b.div_spec(c)),
{
    let (x, y) = (v(a.div_spec(c)), v(b.div_spec(c)));
    lemma_times_sub(v(c), y, x);
    lemma_times_comm(v(c), y - x);
    lemma_sign_of_factor(v(c), y - x);
}

/// The root of a positive number is positive.
pub proof fn lemma_root_positive<T: Number, M: Elementary<T>>(
    m: M,
    v: spec_fn(T) -> real,
    x: T,
)
    requires
        sqrt_exact(m, v),
        v(x) > 0real,
    ensures
        v(sqrt_of(m, x)) > 0real,
        times(v(sqrt_of(m, x)), v(sqrt_of(m, x))) == v(x),
{
    lemma_times_unit(v(sqrt_of(m, x)));
}

/// The quotient of positive numbers is positive.
pub proof fn lemma_quotient_positive<T: Number>(v: spec_fn(T) -> real, a: T, b: T)
    requires
        exact(v),
        v(a) > 0real,
        v(b) > 0real,
    ensures
        v(a.div_spec(b)) > 0real,
{
    let q = v(a.div_spec(b));
    lemma_times_comm(q, v(b));
    lemma_sign_of_factor(v(b), q);
    lemma_times_unit(v(b));
}

} // verus!
