//! What carried derivatives are: arithmetic on numbers with derivatives is arithmetic to first
//! order, and each operation is undone by its inverse, the derivative with it; and complex
//! division undoes multiplication.
use crate::complex::Complex;
use crate::dual::Dual;
use crate::exact::{
    exact, exp_adds, lemma_multiple, lemma_root_positive, lemma_square, lemma_times_add,
    lemma_times_assoc, lemma_times_cancel, lemma_times_comm, lemma_times_neg, lemma_times_sub,
    lemma_times_unit, lemma_twice, sqrt_exact, times,
};
use crate::number::{exp_of, ln_of, num, Elementary, Number};
use crate::sensitivity_laws::{lemma_interchange, lemma_swap};
use vstd::prelude::*;
use vstd::std_specs::ops::{AddSpec, DivSpec, MulSpec, NegSpec, SubSpec};

verus! {

/// The number with its parameter moved by `h`, to first order.
pub open spec fn moved_by<T>(v: spec_fn(T) -> real, a: Dual<T>, h: real) -> real {
    v(a.val) + times(h, v(a.dot))
}

/// Sums, differences, opposites and products of numbers with derivatives are those of the numbers
/// with their parameter moved, for every move, but for the square of the move in a product. A
/// constant does not move, the parameter moves by the move.
pub proof fn law_dual_arithmetic_to_first_order<T: Number>(
    v: spec_fn(T) -> real,
    a: Dual<T>,
    b: Dual<T>,
    x: T,
    h: real,
)
    requires
        exact(v),
    ensures
        moved_by(v, a.add_spec(b), h) == moved_by(v, a, h) + moved_by(v, b, h),
        moved_by(v, a.sub_spec(b), h) == moved_by(v, a, h) - moved_by(v, b, h),
        moved_by(v, a.neg_spec(), h) == -moved_by(v, a, h),
        moved_by(v, a.mul_spec(b), h) == times(moved_by(v, a, h), moved_by(v, b, h)) - times(
            times(h, h),
            times(v(a.dot), v(b.dot)),
        ),
        moved_by(v, Dual::constant_spec(x), h) == v(x),
        moved_by(v, Dual::active_spec(x), h) == v(x) + h,
{
    let (p, q) = (v(a.val), v(a.dot));
    let (r, s) = (v(b.val), v(b.dot));
    lemma_times_add(h, q, s);
    lemma_times_sub(h, q, s);
    lemma_times_neg(h, q);
    lemma_times_unit(h);
    // The product of the moved numbers, term by term.
    let (hq, hs) = (times(h, q), times(h, s));
    lemma_times_add(r + hs, p, hq);
    lemma_times_add(p, r, hs);
    lemma_times_add(hq, r, hs);
    lemma_times_add(h, times(p, s), times(q, r));
    lemma_swap(p, h, s);
    lemma_times_assoc(h, q, r);
    lemma_interchange(h, q, h, s);
}

/// A quotient times what was divided by is what was divided, and its derivative with it.
pub proof fn law_dual_quotient_undone<T: Number>(v: spec_fn(T) -> real, a: Dual<T>, b: Dual<T>)
    requires
        exact(v),
        v(b.val) != 0real,
    ensures
        ({
            let c = a.div_spec(b).mul_spec(b);
            v(c.val) == v(a.val) && v(c.dot) == v(a.dot)
        }),
{
    let (p, q) = (v(a.val), v(a.dot));
    let (r, s) = (v(b.val), v(b.dot));
    let c = a.div_spec(b);
    let (x, y) = (v(c.val), v(c.dot));
    lemma_square(r);
    assert(times(x, r) == p);
    assert(times(y, times(r, r)) == times(q, r) - times(p, s));
    // The derivative of the product, times the divisor.
    let d = times(x, s) + times(y, r);
    assert(times(d, r) == times(q, r)) by {
        lemma_times_add(r, times(x, s), times(y, r));
        lemma_times_assoc(x, s, r);
        lemma_times_comm(s, r);
        lemma_times_assoc(x, r, s);
        lemma_times_assoc(y, r, r);
    }
    lemma_times_cancel(d, q, r);
}

/// The square of a root is the number, and its derivative with it.
pub proof fn law_dual_root_squares<T: Number, M: Elementary<T>>(
    m: M,
    v: spec_fn(T) -> real,
    a: Dual<T>,
)
    requires
        exact(v),
        sqrt_exact(m, v),
        v(a.val) > 0real,
    ensures
        ({
            let r = a.sqrt_spec(m);
            let c = r.mul_spec(r);
            v(c.val) == v(a.val) && v(c.dot) == v(a.dot) && v(r.val) > 0real
        }),
{
    lemma_root_positive(m, v, a.val);
    let r = a.sqrt_spec(m);
    let (s, d) = (v(r.val), v(r.dot));
    lemma_twice(s);
    assert(times(d, 2real * s) == v(a.dot));
    lemma_multiple(2real, d, s);
    lemma_times_comm(d, s);
}

/// The exponential of a logarithm is the number, and its derivative with it.
pub proof fn law_dual_exponential_undoes_logarithm<T: Number, M: Elementary<T>>(
    m: M,
    v: spec_fn(T) -> real,
    a: Dual<T>,
)
    requires
        exact(v),
        v(a.val) > 0real,
        v(exp_of(m, ln_of(m, a.val))) == v(a.val),
    ensures
        ({
            let c = a.ln_spec(m).exp_spec(m);
            v(c.val) == v(a.val) && v(c.dot) == v(a.dot)
        }),
{
    let d = v(a.ln_spec(m).dot);
    assert(times(d, v(a.val)) == v(a.dot));
    lemma_times_comm(d, v(a.val));
}

/// The exponential of a sum is the product of the exponentials, and its derivative with it.
pub proof fn law_dual_exponential_of_sum<T: Number, M: Elementary<T>>(
    m: M,
    v: spec_fn(T) -> real,
    a: Dual<T>,
    b: Dual<T>,
)
    requires
        exact(v),
        exp_adds(m, v),
    ensures
        ({
            let c = a.add_spec(b).exp_spec(m);
            let d = a.exp_spec(m).mul_spec(b.exp_spec(m));
            v(c.val) == v(d.val) && v(c.dot) == v(d.dot)
        }),
{
    let (e, f) = (v(exp_of(m, a.val)), v(exp_of(m, b.val)));
    let sum = a.val.add_spec(b.val);
    assert(v(exp_of(m, sum)) == times(e, f));
    lemma_times_add(times(e, f), v(a.dot), v(b.dot));
    lemma_times_assoc(e, f, v(b.dot));
    lemma_times_comm(e, v(a.dot));
    lemma_times_assoc(v(a.dot), e, f);
    lemma_times_comm(v(a.dot), times(e, f));
}

/// A complex quotient times what was divided by is what was divided; and the imaginary unit squares
/// to minus one.
pub proof fn law_complex_quotient_undone<T: Number>(
    v: spec_fn(T) -> real,
    z: Complex<T>,
    w: Complex<T>,
)
    requires
        exact(v),
        v(w.re) != 0real || v(w.im) != 0real,
    ensures
        ({
            let q = z.div_spec(w).mul_spec(w);
            v(q.re) == v(z.re) && v(q.im) == v(z.im)
        }),
        ({
            let i = Complex { re: num::<T>(0), im: num::<T>(1) };
            let s = i.mul_spec(i);
            v(s.re) == -1real && v(s.im) == 0real
        }),
{
    let (a, b) = (v(z.re), v(z.im));
    let (c, e) = (v(w.re), v(w.im));
    let d = times(c, c) + times(e, e);
    lemma_square(c);
    lemma_square(e);
    let q = z.div_spec(w);
    let (x, y) = (v(q.re), v(q.im));
    let (ac, be, bc, ae) = (times(a, c), times(b, e), times(b, c), times(a, e));
    assert(times(x, d) == ac + be);
    assert(times(y, d) == bc - ae);
    // Each part of the product times the square of the length.
    let re = times(x, c) - times(y, e);
    let im = times(x, e) + times(y, c);
    lemma_times_assoc(x, c, d);
    lemma_times_comm(c, d);
    lemma_times_assoc(x, d, c);
    lemma_times_assoc(y, e, d);
    lemma_times_comm(e, d);
    lemma_times_assoc(y, d, e);
    lemma_times_assoc(x, e, d);
    lemma_times_assoc(x, d, e);
    lemma_times_assoc(y, c, d);
    lemma_times_assoc(y, d, c);
    lemma_times_sub(d, times(x, c), times(y, e));
    lemma_times_add(d, times(x, e), times(y, c));
    lemma_times_add(c, ac, be);
    lemma_times_sub(e, bc, ae);
    lemma_times_add(e, ac, be);
    lemma_times_sub(c, bc, ae);
    lemma_times_assoc(a, c, c);
    lemma_times_assoc(a, e, e);
    lemma_times_assoc(b, c, c);
    lemma_times_assoc(b, e, e);
    lemma_times_assoc(a, c, e);
    lemma_times_assoc(a, e, c);
    lemma_times_assoc(b, c, e);
    lemma_times_assoc(b, e, c);
    lemma_times_comm(c, e);
    lemma_times_add(a, times(c, c), times(e, e));
    lemma_times_add(b, times(c, c), times(e, e));
    lemma_times_cancel(re, a, d);
    lemma_times_cancel(im, b, d);
    lemma_times_unit(0real);
    lemma_times_unit(1real);
}

} // verus!
