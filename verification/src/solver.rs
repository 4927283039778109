//! The root search behind every implied volatility: a guarded Halley iteration, and a
//! bisection for when its starting point is too far off.
use crate::exact::{exact, lemma_half, lemma_literal};
use crate::number::{
    abs, clamp, clamped, decimal_of, frac, lawful, magnitude, num, ratio, whole, Elementary, Number,
};
use vstd::prelude::*;
use vstd::std_specs::cmp::PartialOrdIs;
use vstd::std_specs::ops::{AddSpec, DivSpec, MulSpec, SubSpec};

verus! {

/// Iterations of Halley's method before the search settles for what it has.
pub const MAX_ITER: u32 = 10;

/// Halvings of the bracket before a bisection settles for its middle.
pub const MAX_HALVINGS: u32 = 60;

/// The executable function `f` computes the mathematical function `spec`.
pub open spec fn computes<A, B, F: Fn(A) -> B>(f: &F, spec: spec_fn(A) -> B) -> bool {
    &&& forall|x: A| #[trigger] call_requires(*f, (x,))
    &&& forall|x: A, y: B| #[trigger] call_ensures(*f, (x,), y) ==> y == spec(x)
}

/// A bisection of the bracket from `lo` to `hi` with at most `n` halvings: the half on whose
/// ends `f` changes from negative to not negative is kept, until the bracket is narrower
/// than a billionth.
pub open spec fn bisect_from<T: Number, M: Elementary<T>>(
    m: M,
    f: spec_fn(T) -> T,
    lo: T,
    hi: T,
    n: nat,
) -> T
    decreases n,
{
    let mid = frac::<T>(1, 2).mul_spec(lo.add_spec(hi));
    if n == 0 {
        mid
    } else {
        let below = f(mid).is_lt(&num::<T>(0));
        let lo2 = if below {
            mid
        } else {
            lo
        };
        let hi2 = if below {
            hi
        } else {
            mid
        };
        if hi2.sub_spec(lo2).is_lt(&decimal_of::<T, M>(m, 1, -9)) {
            mid
        } else {
            bisect_from(m, f, lo2, hi2, (n - 1) as nat)
        }
    }
}

/// The bisection of the volatilities from a hundredth of a percent to a thousand percent;
/// `None` if `f` has the same sign on both.
pub open spec fn bisect_spec<T: Number, M: Elementary<T>>(m: M, f: spec_fn(T) -> T) -> Option<T> {
    let lo = decimal_of::<T, M>(m, 1, -4);
    let hi = num::<T>(10);
    if f(lo).mul_spec(f(hi)).is_gt(&num::<T>(0)) {
        None
    } else {
        Some(bisect_from(m, f, lo, hi, MAX_HALVINGS as nat))
    }
}

/// The bisection of the volatilities from a hundredth of a percent to a thousand percent.
pub(crate) fn bisect<T: Number, M: Elementary<T>, F: Fn(T) -> T>(
    m: M,
    f: F,
    Ghost(fs): Ghost<spec_fn(T) -> T>,
) -> (res: Option<T>)
    requires
        lawful::<T, M>(m),
        computes(&f, fs),
    ensures
        res == bisect_spec(m, fs),
{
    let mut lo = m.decimal(1, -4);
    let mut hi = whole::<T>(10);
    if f(lo) * f(hi) > whole::<T>(0) {
        return None;
    }
    let ghost lo0 = lo;
    let ghost hi0 = hi;
    let mut left: u32 = MAX_HALVINGS;
    while left > 0
        invariant
            lawful::<T, M>(m),
            computes(&f, fs),
            bisect_from(m, fs, lo, hi, left as nat) == bisect_from(
                m,
                fs,
                lo0,
                hi0,
                MAX_HALVINGS as nat,
            ),
            bisect_spec(m, fs) == Some(bisect_from(m, fs, lo0, hi0, MAX_HALVINGS as nat)),
        decreases left,
    {
        let mid = ratio::<T>(1, 2) * (lo + hi);
        if f(mid) < whole::<T>(0) {
            lo = mid;
        } else {
            hi = mid;
        }
        if hi - lo < m.decimal(1, -9) {
            return Some(mid);
        }
        left = left - 1;
    }
    Some(ratio::<T>(1, 2) * (lo + hi))
}

/// One step of Halley's method from `v`, where the function is off by `err` and has the
/// given first and second derivatives. The correction of the second order is kept between
/// one half and two, and a step to zero or below ends just above zero.
pub open spec fn halley_step_spec<T: Number, M: Elementary<T>>(
    m: M,
    v: T,
    err: T,
    slope: T,
    curvature: T,
) -> T {
    let denom = clamped(
        num::<T>(1).sub_spec(
            err.mul_spec(curvature).div_spec(num::<T>(2).mul_spec(slope).mul_spec(slope)),
        ),
        frac::<T>(1, 2),
        num::<T>(2),
    );
    let next = v.sub_spec(err.div_spec(slope.mul_spec(denom)));
    if next.is_le(&num::<T>(0)) {
        decimal_of::<T, M>(m, 1, -8)
    } else {
        next
    }
}

/// One step of Halley's method.
pub fn halley_step<T: Number, M: Elementary<T>>(m: M, v: T, err: T, slope: T, curvature: T) -> (res:
    T)
    requires
        lawful::<T, M>(m),
    ensures
        res == halley_step_spec(m, v, err, slope, curvature),
{
    let denom = clamp(
        whole::<T>(1) - err * curvature / (whole::<T>(2) * slope * slope),
        ratio::<T>(1, 2),
        whole::<T>(2),
    );
    let next = v - err / (slope * denom);
    if next <= whole::<T>(0) {
        m.decimal(1, -8)
    } else {
        next
    }
}

/// Halley's method on `f` from `v` with `n` iterations left; `g` gives the first and second
/// derivatives. An iterate where `f` is within a ten-billionth of zero is the answer. The
/// search fails where the slope vanishes, and where the last iterate is not within a
/// millionth of zero.
pub open spec fn halley_from<T: Number, M: Elementary<T>>(
    m: M,
    f: spec_fn(T) -> T,
    g: spec_fn(T) -> (T, T),
    v: T,
    n: nat,
) -> Option<T>
    decreases n,
{
    let err = f(v);
    if n == 0 {
        if magnitude(err).is_lt(&decimal_of::<T, M>(m, 1, -6)) {
            Some(v)
        } else {
            None
        }
    } else if magnitude(err).is_lt(&decimal_of::<T, M>(m, 1, -10)) {
        Some(v)
    } else if magnitude(g(v).0).is_lt(&decimal_of::<T, M>(m, 1, -14)) {
        None
    } else {
        halley_from(m, f, g, halley_step_spec(m, v, err, g(v).0, g(v).1), (n - 1) as nat)
    }
}

/// Halley's method on `f` from `v0`.
pub(crate) fn halley_solve<T: Number, M: Elementary<T>, F: Fn(T) -> T, G: Fn(T) -> (T, T)>(
    m: M,
    f: F,
    g: G,
    v0: T,
    Ghost(fs): Ghost<spec_fn(T) -> T>,
    Ghost(gs): Ghost<spec_fn(T) -> (T, T)>,
) -> (res: Option<T>)
    requires
        lawful::<T, M>(m),
        computes(&f, fs),
        computes(&g, gs),
    ensures
        res == halley_from(m, fs, gs, v0, MAX_ITER as nat),
{
    let mut v = v0;
    let mut left: u32 = MAX_ITER;
    while left > 0
        invariant
            lawful::<T, M>(m),
            computes(&f, fs),
            computes(&g, gs),
            halley_from(m, fs, gs, v, left as nat) == halley_from(
                m,
                fs,
                gs,
                v0,
                MAX_ITER as nat,
            ),
        decreases left,
    {
        let err = f(v);
        if abs(err) < m.decimal(1, -10) {
            return Some(v);
        }
        let (slope, curvature) = g(v);
        if abs(slope) < m.decimal(1, -14) {
            return None;
        }
        v = halley_step(m, v, err, slope, curvature);
        left = left - 1;
    }
    if abs(f(v)) < m.decimal(1, -6) {
        Some(v)
    } else {
        None
    }
}

/// What Halley's method answers solves the equation: `f` is within a ten-billionth, or at
/// the last iterate a millionth, of zero there.
pub proof fn law_halley_answer_is_root<T: Number, M: Elementary<T>>(
    m: M,
    f: spec_fn(T) -> T,
    g: spec_fn(T) -> (T, T),
    v: T,
    n: nat,
)
    ensures
        halley_from(m, f, g, v, n) matches Some(x)
            ==> magnitude(f(x)).is_lt(&decimal_of::<T, M>(m, 1, -10))
            || magnitude(f(x)).is_lt(&decimal_of::<T, M>(m, 1, -6)),
    decreases n,
{
    if n > 0 {
        law_halley_answer_is_root(
            m,
            f,
            g,
            halley_step_spec(m, v, f(v), g(v).0, g(v).1),
            (n - 1) as nat,
        );
    }
}

/// A bisection stays in its bracket and closes in on a change of sign: without rounding, its
/// answer lies between two points of the bracket, `f` is negative at the lower one and not at
/// the upper one, and either the two are less than a billionth apart or they are the bracket
/// halved as often as there are halvings.
pub proof fn law_bisection_isolates<T: Number, M: Elementary<T>>(
    m: M,
    v: spec_fn(T) -> real,
    f: spec_fn(T) -> T,
    lo: T,
    hi: T,
    n: nat,
) -> (ends: (T, T))
    requires
        exact(v),
        v(lo) <= v(hi),
        v(f(lo)) < 0real,
        v(f(hi)) >= 0real,
    ensures
        ({
            let x = v(bisect_from(m, f, lo, hi, n));
            let (a, b) = ends;
            &&& v(lo) <= v(a) <= x <= v(b) <= v(hi)
            &&& v(f(a)) < 0real
            &&& v(f(b)) >= 0real
            &&& v(b) - v(a) < v(decimal_of::<T, M>(m, 1, -9)) || is_halved(
                v(b) - v(a),
                v(hi) - v(lo),
                n,
            )
        }),
    decreases n,
{
    let mid = frac::<T>(1, 2).mul_spec(lo.add_spec(hi));
    lemma_half::<T>(v);
    lemma_literal(1real / 2real, v(lo) + v(hi));
    if n == 0 {
        (lo, hi)
    } else {
        let below = f(mid).is_lt(&num::<T>(0));
        let lo2 = if below {
            mid
        } else {
            lo
        };
        let hi2 = if below {
            hi
        } else {
            mid
        };
        if hi2.sub_spec(lo2).is_lt(&decimal_of::<T, M>(m, 1, -9)) {
            (lo2, hi2)
        } else {
            law_bisection_isolates(m, v, f, lo2, hi2, (n - 1) as nat)
        }
    }
}

/// `w` is `d` halved `n` times.
pub open spec fn is_halved(w: real, d: real, n: nat) -> bool
    decreases n,
{
    if n == 0 {
        w == d
    } else {
        is_halved(w, d / 2real, (n - 1) as nat)
    }
}

/// Halley's method answers with a positive number, from a positive start.
pub proof fn law_halley_answer_is_positive<T: Number, M: Elementary<T>>(
    m: M,
    v: spec_fn(T) -> real,
    f: spec_fn(T) -> T,
    g: spec_fn(T) -> (T, T),
    x: T,
    n: nat,
)
    requires
        exact(v),
        v(decimal_of::<T, M>(m, 1, -8)) > 0real,
        v(x) > 0real,
    ensures
        halley_from(m, f, g, x, n) matches Some(y) ==> v(y) > 0real,
    decreases n,
{
    if n > 0 {
        law_halley_answer_is_positive(
            m,
            v,
            f,
            g,
            halley_step_spec(m, x, f(x), g(x).0, g(x).1),
            (n - 1) as nat,
        );
    }
}

/// A bisection between positive numbers ends at one.
pub proof fn law_bisection_is_positive<T: Number, M: Elementary<T>>(
    m: M,
    v: spec_fn(T) -> real,
    f: spec_fn(T) -> T,
    lo: T,
    hi: T,
    n: nat,
)
    requires
        exact(v),
        v(lo) > 0real,
        v(hi) > 0real,
    ensures
        v(bisect_from(m, f, lo, hi, n)) > 0real,
    decreases n,
{
    let mid = frac::<T>(1, 2).mul_spec(lo.add_spec(hi));
    lemma_half::<T>(v);
    lemma_literal(1real / 2real, v(lo) + v(hi));
    if n > 0 {
        let below = f(mid).is_lt(&num::<T>(0));
        let lo2 = if below {
            mid
        } else {
            lo
        };
        let hi2 = if below {
            hi
        } else {
            mid
        };
        law_bisection_is_positive(m, v, f, lo2, hi2, (n - 1) as nat);
    }
}

} // verus!
