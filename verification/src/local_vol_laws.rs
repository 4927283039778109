//! What holds of the monotone spline and of local volatility without rounding: the spline
//! goes through its points, runs from one to the next without turning, and reproduces straight
//! lines; on a flat surface local volatility is the volatility.
use crate::exact::{
    exact, lemma_difference_of_squares, lemma_fraction, lemma_half, lemma_literal, lemma_multiple,
    lemma_same_square, lemma_sign_of_factor, lemma_square, lemma_square_of_product, lemma_times_add,
    lemma_times_assoc, lemma_times_cancel, lemma_times_comm, lemma_times_neg,
    lemma_times_not_negative, lemma_times_positive, lemma_times_sub, lemma_times_unit, ordered,
    sqrt_exact, times,
};
use crate::local_vol::{
    chord_spec, dupire_formula_spec, dupire_local_vol_spec, expiry_slice, hermite_spec,
    interior_node, interval_of, law_nodes_up_to, limiter_spec, monotone_cubic_interp_spec,
    nodes_up_to, offset_spec, slope_spec, spline_curvature_spec, spline_slope_spec, strike_slice,
    total_var_spec,
};
use crate::number::{
    decimal_of, frac, larger, ln_of, magnitude, num, smaller, sqrt_of, Elementary, Number,
};
use crate::types::LocalVolSurface;
use vstd::prelude::*;
use vstd::std_specs::cmp::PartialOrdIs;
use vstd::std_specs::convert::FromSpec;
use vstd::std_specs::ops::{AddSpec, DivSpec, MulSpec, SubSpec};

verus! {

/// The values of the elements rise strictly.
pub open spec fn increasing<T>(v: spec_fn(T) -> real, xs: Seq<T>) -> bool {
    forall|i: int, j: int| 0 <= i < j < xs.len() ==> v(#[trigger] xs[i]) < v(#[trigger] xs[j])
}

/// The interval of a point within the grid is one whose ends enclose the point.
pub proof fn law_interval_encloses<T: Number>(v: spec_fn(T) -> real, xs: Seq<T>, xq: T)
    requires
        ordered(v),
        increasing(v, xs),
        xs.len() >= 2,
        v(xs[0]) <= v(xq) <= v(xs[xs.len() - 1]),
    ensures
        0 <= interval_of(xs, xq) <= xs.len() - 2,
        v(xs[interval_of(xs, xq)]) <= v(xq) <= v(xs[interval_of(xs, xq) + 1]),
{
    law_nodes_up_to(xs, xq);
    assert(xs[0].is_le(&xq));
    let c = nodes_up_to(xs, xq);
    assert(c >= 1) by {
        if c == 0 {
            assert(!xs[0].is_le(&xq));
        }
    }
    assert(xs[c - 1].is_le(&xq));
    if c == xs.len() {
        assert(xs[c - 2].is_le(&xq));
    } else {
        assert(!xs[c].is_le(&xq));
    }
}

/// The quotient of a number between zero and a positive one is between zero and one.
proof fn lemma_quotient_range(q: real, d: real, n: real)
    requires
        times(q, d) == n,
        d > 0real,
        0real <= n <= d,
    ensures
        0real <= q <= 1real,
{
    lemma_times_comm(q, d);
    lemma_sign_of_factor(d, q);
    lemma_times_sub(d, 1real, q);
    lemma_times_unit(d);
    lemma_sign_of_factor(d, 1real - q);
}

/// The cubic in terms of the weights of its values and of its slopes.
pub proof fn lemma_hermite<T: Number>(
    v: spec_fn(T) -> real,
    t: T,
    dx: T,
    y0: T,
    y1: T,
    m0: T,
    m1: T,
)
    requires
        exact(v),
    ensures
        ({
            let t2 = times(v(t), v(t));
            let t3 = times(t2, v(t));
            v(hermite_spec(t, dx, y0, y1, m0, m1)) == times(
                2real * t3 - 3real * t2 + 1real,
                v(y0),
            ) + times(t3 - 2real * t2 + v(t), times(v(dx), v(m0))) + times(
                3real * t2 - 2real * t3,
                v(y1),
            ) + times(t3 - t2, times(v(dx), v(m1)))
        }),
{
    let x = v(t);
    let t2 = times(x, x);
    let t3 = times(t2, x);
    lemma_multiple(2real, x, x);
    lemma_multiple(3real, x, x);
    lemma_multiple(-2real, x, x);
    lemma_literal(2real, x);
    lemma_literal(3real, x);
    lemma_literal(-2real, x);
    lemma_multiple(2real, t2, x);
    lemma_multiple(-2real, t2, x);
    assert(T::from_spec(-2i32) == num::<T>(-2));
    lemma_times_assoc(t3 - 2real * t2 + x, v(dx), v(m0));
    lemma_times_assoc(t3 - t2, v(dx), v(m1));
}

/// At the ends of its interval the cubic has the given values.
proof fn lemma_hermite_ends<T: Number>(
    v: spec_fn(T) -> real,
    t: T,
    dx: T,
    y0: T,
    y1: T,
    m0: T,
    m1: T,
)
    requires
        exact(v),
    ensures
        v(t) == 0real ==> v(hermite_spec(t, dx, y0, y1, m0, m1)) == v(y0),
        v(t) == 1real ==> v(hermite_spec(t, dx, y0, y1, m0, m1)) == v(y1),
{
    lemma_hermite(v, t, dx, y0, y1, m0, m1);
    lemma_times_unit(0real);
    lemma_times_unit(1real);
    lemma_times_unit(v(y0));
    lemma_times_unit(v(y1));
    lemma_times_unit(times(v(dx), v(m0)));
    lemma_times_unit(times(v(dx), v(m1)));
}

/// The share of the way from one value to the other that a cubic has gone at the fraction `x`
/// of its interval, with slopes of `a` and `b` times that of the chord at the ends.
pub open spec fn share(x: real, a: real, b: real) -> real {
    let t2 = times(x, x);
    let t3 = times(t2, x);
    3real * t2 - 2real * t3 + times(t3 - 2real * t2 + x, a) - times(t2 - t3, b)
}

/// The cubic goes its share of the way.
proof fn lemma_hermite_share<T: Number>(
    v: spec_fn(T) -> real,
    t: T,
    dx: T,
    y0: T,
    y1: T,
    m0: T,
    m1: T,
    a: real,
    b: real,
)
    requires
        exact(v),
        times(v(dx), v(m0)) == times(a, v(y1) - v(y0)),
        times(v(dx), v(m1)) == times(b, v(y1) - v(y0)),
    ensures
        v(hermite_spec(t, dx, y0, y1, m0, m1)) == v(y0) + times(
            share(v(t), a, b),
            v(y1) - v(y0),
        ),
{
    let x = v(t);
    let t2 = times(x, x);
    let t3 = times(t2, x);
    let rise = v(y1) - v(y0);
    let h01 = 3real * t2 - 2real * t3;
    let h10 = t3 - 2real * t2 + x;
    let h11 = t2 - t3;
    lemma_hermite(v, t, dx, y0, y1, m0, m1);
    assert(times(1real - h01, v(y0)) + times(h01, v(y1)) == v(y0) + times(h01, rise)) by {
        lemma_times_sub(v(y0), 1real, h01);
        lemma_times_unit(v(y0));
        lemma_times_sub(h01, v(y1), v(y0));
    }
    lemma_times_assoc(h10, a, rise);
    lemma_times_assoc(h11, b, rise);
    lemma_times_neg(h11, times(b, rise));
    lemma_times_add(rise, h01, times(h10, a));
    lemma_times_sub(rise, h01 + times(h10, a), times(h11, b));
}

/// The share is none of the way at the start and all of it at the end; with the slopes of the
/// chord it is the fraction of the interval.
pub proof fn lemma_share_ends(x: real, a: real, b: real)
    ensures
        x == 0real ==> share(x, a, b) == 0real,
        x == 1real ==> share(x, a, b) == 1real,
        a == 1real && b == 1real ==> share(x, a, b) == x,
{
    let t2 = times(x, x);
    let t3 = times(t2, x);
    lemma_times_unit(0real);
    lemma_times_unit(1real);
    lemma_times_unit(a);
    lemma_times_unit(b);
    lemma_times_unit(t3 - 2real * t2 + x);
    lemma_times_unit(t2 - t3);
}

/// A linear function of two numbers between zero and three that is negative at no corner is
/// negative nowhere.
proof fn lemma_corners(a: real, b: real, f: real, g: real, h: real)
    requires
        0real <= a <= 3real,
        0real <= b <= 3real,
        f >= 0real,
        f + 3real * g >= 0real,
        f + 3real * h >= 0real,
        f + 3real * g + 3real * h >= 0real,
    ensures
        f + times(g, a) + times(h, b) >= 0real,
{
    lemma_times_sub(g, 3real, a);
    lemma_times_sub(h, 3real, b);
    lemma_times_comm(3real - a, g);
    lemma_times_comm(3real - b, h);
    lemma_times_comm(g, a);
    lemma_times_comm(h, b);
    lemma_literal(3real, g);
    lemma_literal(3real, h);
    lemma_times_neg(3real - a, g);
    lemma_times_neg(3real - b, h);
    if g >= 0real {
        lemma_times_not_negative(a, g);
    } else {
        lemma_times_not_negative(3real - a, -g);
    }
    if h >= 0real {
        lemma_times_not_negative(b, h);
    } else {
        lemma_times_not_negative(3real - b, -h);
    }
}

/// With slopes between zero and three times that of the chord, the share never falls.
proof fn lemma_share_rises(x: real, y: real, a: real, b: real)
    requires
        0real <= x <= y <= 1real,
        0real <= a <= 3real,
        0real <= b <= 3real,
    ensures
        share(x, a, b) <= share(y, a, b),
{
    let d = y - x;
    let (x2, y2, xy) = (times(x, x), times(y, y), times(x, y));
    let (x3, y3) = (times(x2, x), times(y2, y));
    let q = x2 + xy + y2;
    lemma_times_comm(x, y);
    assert(y2 - x2 == times(d, x + y)) by {
        lemma_difference_of_squares(y, x);
    }
    assert(y3 - x3 == times(d, q)) by {
        lemma_times_sub(q, y, x);
        lemma_times_add(y, x2 + xy, y2);
        lemma_times_add(y, x2, xy);
        lemma_times_add(x, x2 + xy, y2);
        lemma_times_add(x, x2, xy);
        lemma_times_comm(y, q);
        lemma_times_comm(x, q);
        // The mixed terms are the same products.
        lemma_times_assoc(x, x, y);
        lemma_times_assoc(x, y, x);
        lemma_times_assoc(x, y, y);
        lemma_times_comm(x, y2);
    }
    // The bounds on the squares of numbers between zero and one.
    lemma_times_not_negative(x, 1real - x);
    lemma_times_not_negative(y, 1real - y);
    lemma_times_not_negative(x, 1real - y);
    lemma_times_not_negative(y, 1real - x);
    lemma_times_sub(x, 1real, x);
    lemma_times_sub(y, 1real, y);
    lemma_times_sub(x, 1real, y);
    lemma_times_sub(y, 1real, x);
    lemma_times_comm(x, 1real - x);
    lemma_times_comm(y, 1real - y);
    lemma_times_comm(x, 1real - y);
    lemma_times_comm(y, 1real - x);
    lemma_times_unit(x);
    lemma_times_unit(y);
    lemma_times_not_negative(x, y);
    lemma_square(x);
    lemma_square(y);
    // The growth at the four corners, each a product with the distance.
    let (s, c) = (times(d, x + y), times(d, q));
    assert(3real * s - 2real * c >= 0real) by {
        lemma_times_not_negative(d, 3real * (x + y) - 2real * q);
        lemma_times_sub(d, 3real * (x + y), 2real * q);
        lemma_times_comm(d, 3real * (x + y) - 2real * q);
        lemma_times_comm(d, 3real * (x + y));
        lemma_times_comm(d, 2real * q);
        lemma_multiple(3real, d, x + y);
        lemma_multiple(2real, d, q);
    }
    assert(c >= 0real) by {
        lemma_times_not_negative(d, q);
    }
    assert(c - 3real * s + 3real * d >= 0real) by {
        let (k, l) = (1real - x, 1real - y);
        let z = times(k, k) + times(k, l) + times(l, l);
        lemma_times_not_negative(k, l);
        lemma_square(k);
        lemma_square(l);
        assert(z == q - 3real * (x + y) + 3real) by {
            lemma_times_sub(k, 1real, x);
            lemma_times_sub(l, 1real, x);
            lemma_times_sub(l, 1real, y);
            lemma_times_unit(k);
            lemma_times_unit(l);
            lemma_times_comm(x, k);
            lemma_times_comm(x, l);
            lemma_times_comm(y, l);
            lemma_times_comm(k, l);
        }
        lemma_times_not_negative(d, z);
        lemma_times_comm(d, z);
        lemma_times_add(d, q - 3real * (x + y), 3real);
        lemma_times_sub(d, q, 3real * (x + y));
        lemma_times_comm(d, q);
        lemma_times_comm(d, 3real * (x + y));
        lemma_multiple(3real, d, x + y);
        lemma_literal(3real, d);
    }
    assert(4real * c - 6real * s + 3real * d >= 0real) by {
        let (k, l) = (2real * x - 1real, 2real * y - 1real);
        lemma_square(k);
        lemma_square(l);
        lemma_square(k + l);
        assert(times(k, k) == 4real * x2 - 4real * x + 1real) by {
            lemma_square_of_difference(x, 1real);
        }
        assert(times(l, l) == 4real * y2 - 4real * y + 1real) by {
            lemma_square_of_difference(y, 1real);
        }
        let w = x + y;
        assert(times(k + l, k + l) == 4real * times(w, w) - 8real * w + 4real) by {
            lemma_square_of_difference(w, 2real);
            assert(k + l == 2real * w - 2real);
        }
        assert(times(w, w) == x2 + 2real * xy + y2) by {
            lemma_times_add(w, x, y);
            lemma_times_comm(x, w);
            lemma_times_comm(y, w);
            lemma_times_add(x, x, y);
            lemma_times_add(y, x, y);
        }
        let z = 4real * q - 6real * w + 3real;
        assert(z >= 0real);
        lemma_times_not_negative(d, z);
        lemma_times_comm(d, z);
        lemma_times_add(d, 4real * q - 6real * w, 3real);
        lemma_times_sub(d, 4real * q, 6real * w);
        lemma_times_comm(d, 4real * q);
        lemma_times_comm(d, 6real * w);
        lemma_multiple(4real, d, q);
        lemma_multiple(6real, d, w);
        lemma_literal(3real, d);
    }
    lemma_corners(a, b, 3real * s - 2real * c, c - 2real * s + d, c - s);
    lemma_times_sub(a, y3 - 2real * y2 + y, x3 - 2real * x2 + x);
    lemma_times_sub(b, y2 - y3, x2 - x3);
    lemma_times_neg(c - s, b);
}

/// The square of twice a number less another.
proof fn lemma_square_of_difference(x: real, k: real)
    ensures
        times(2real * x - k, 2real * x - k) == 4real * times(x, x) - 4real * k * x + k * k,
{
    reveal(times);
    assert((2real * x - k) * (2real * x - k) == 4real * (x * x) - 4real * k * x + k * k)
        by (nonlinear_arith);
}

/// A slope that a cubic may have at an end of an interval whose chord has the slope `d`: it has
/// the sign of the chord and is at most three times as steep.
pub open spec fn is_tame(s: real, d: real) -> bool {
    &&& d > 0real ==> 0real <= s <= 3real * d
    &&& d < 0real ==> 3real * d <= s <= 0real
    &&& d == 0real ==> s == 0real
}

/// How many times as steep as the chord a slope is.
pub open spec fn steepness(s: real, d: real) -> real {
    if d == 0real {
        0real
    } else {
        s / d
    }
}

/// A tame slope is the chord's times a factor between zero and three.
pub proof fn lemma_steepness(s: real, d: real)
    requires
        is_tame(s, d),
    ensures
        0real <= steepness(s, d) <= 3real,
        times(steepness(s, d), d) == s,
        s == d && d != 0real ==> steepness(s, d) == 1real,
{
    let r = steepness(s, d);
    lemma_times_unit(r);
    if d != 0real {
        reveal(times);
        assert((s / d) * d == s) by (nonlinear_arith)
            requires
                d != 0real,
        ;
        assert(times(r, d) == s);
        lemma_times_sub(d, 3real, r);
        lemma_literal(3real, d);
        lemma_times_comm(r, d);
        lemma_times_comm(3real - r, d);
        lemma_times_neg(d, r);
        lemma_times_neg(d, 3real - r);
        if d > 0real {
            lemma_sign_of_factor(d, r);
            lemma_sign_of_factor(d, 3real - r);
        } else {
            lemma_sign_of_factor(-d, r);
            lemma_sign_of_factor(-d, 3real - r);
        }
        if s == d {
            lemma_times_unit(d);
            lemma_times_cancel(r, 1real, d);
        }
    }
}

/// A number that is not negative and whose square is at most nine is at most three.
proof fn lemma_at_most_three(a: real)
    requires
        a >= 0real,
        times(a, a) <= 9real,
    ensures
        a <= 3real,
{
    if a > 3real {
        lemma_difference_of_squares(a, 3real);
        lemma_times_positive(a - 3real, a + 3real);
        lemma_literal(3real, 3real);
    }
}

/// A limited slope is the chord's times a factor between zero and three, if the slopes have
/// the sign of the chord; and a slope like the chord's is not limited.
proof fn lemma_limited<T: Number, M: Elementary<T>>(
    m: M,
    v: spec_fn(T) -> real,
    mi: T,
    mi1: T,
    delta: T,
) -> (ab: (real, real))
    requires
        exact(v),
        sqrt_exact(m, v),
        v(decimal_of::<T, M>(m, 1, -15)) > 0real,
        v(delta) > 0real ==> v(mi) >= 0real && v(mi1) >= 0real,
        v(delta) < 0real ==> v(mi) <= 0real && v(mi1) <= 0real,
    ensures
        ({
            let lim = limiter_spec(m, mi, mi1, delta);
            &&& 0real <= ab.0 <= 3real
            &&& 0real <= ab.1 <= 3real
            &&& v(lim.mul_spec(mi)) == times(ab.0, v(delta))
            &&& v(lim.mul_spec(mi1)) == times(ab.1, v(delta))
            &&& v(magnitude(delta)) >= v(decimal_of::<T, M>(m, 1, -15)) && v(mi) == v(delta) && v(
                mi1,
            ) == v(delta) ==> ab == (1real, 1real)
        }),
{
    let lim = limiter_spec(m, mi, mi1, delta);
    let d = v(delta);
    lemma_times_unit(v(mi));
    lemma_times_unit(v(mi1));
    lemma_times_unit(d);
    if magnitude(delta).is_lt(&decimal_of::<T, M>(m, 1, -15)) {
        (0real, 0real)
    } else {
        assert(d != 0real);
        let a = mi.div_spec(delta);
        let b = mi1.div_spec(delta);
        let cond = a.mul_spec(a).add_spec(a.mul_spec(b)).add_spec(b.mul_spec(b));
        let (x, y) = (v(a), v(b));
        assert(x >= 0real && y >= 0real) by {
            lemma_times_comm(x, d);
            lemma_times_comm(y, d);
            lemma_times_neg(d, x);
            lemma_times_neg(d, y);
            if d > 0real {
                lemma_sign_of_factor(d, x);
                lemma_sign_of_factor(d, y);
            } else {
                lemma_sign_of_factor(-d, x);
                lemma_sign_of_factor(-d, y);
            }
        }
        lemma_times_not_negative(x, y);
        lemma_square(x);
        lemma_square(y);
        if v(mi) == d {
            lemma_times_cancel(x, 1real, d);
        }
        if v(mi1) == d {
            lemma_times_cancel(y, 1real, d);
        }
        if x == 1real && y == 1real {
            lemma_times_unit(1real);
        }
        if cond.is_le(&num::<T>(9)) {
            lemma_at_most_three(x);
            lemma_at_most_three(y);
            (x, y)
        } else {
            let q = v(num::<T>(9).div_spec(cond));
            let c = v(cond);
            lemma_times_comm(q, c);
            lemma_sign_of_factor(c, q);
            let r = v(lim);
            lemma_times_not_negative(r, x);
            lemma_times_not_negative(r, y);
            lemma_square_of_product(r, x);
            lemma_square_of_product(r, y);
            let rest_x = c - times(x, x);
            let rest_y = c - times(y, y);
            lemma_times_add(q, times(x, x), rest_x);
            lemma_times_add(q, times(y, y), rest_y);
            lemma_times_not_negative(q, rest_x);
            lemma_times_not_negative(q, rest_y);
            lemma_at_most_three(times(r, x));
            lemma_at_most_three(times(r, y));
            lemma_times_assoc(r, x, d);
            lemma_times_assoc(r, y, d);
            (times(r, x), times(r, y))
        }
    }
}

/// A slope of the sign of the chord is tame when it is limited; and a slope like the chord's is
/// kept.
pub proof fn lemma_limited_tame<T: Number, M: Elementary<T>>(
    m: M,
    v: spec_fn(T) -> real,
    mi: T,
    mi1: T,
    delta: T,
)
    requires
        exact(v),
        sqrt_exact(m, v),
        v(decimal_of::<T, M>(m, 1, -15)) > 0real,
        v(delta) > 0real ==> v(mi) >= 0real && v(mi1) >= 0real,
        v(delta) < 0real ==> v(mi) <= 0real && v(mi1) <= 0real,
    ensures
        ({
            let lim = limiter_spec(m, mi, mi1, delta);
            &&& is_tame(v(lim.mul_spec(mi)), v(delta))
            &&& is_tame(v(lim.mul_spec(mi1)), v(delta))
            &&& v(magnitude(delta)) >= v(decimal_of::<T, M>(m, 1, -15)) && v(mi) == v(delta) && v(
                mi1,
            ) == v(delta) ==> v(lim.mul_spec(mi)) == v(delta) && v(lim.mul_spec(mi1)) == v(delta)
        }),
{
    let d = v(delta);
    let (a, b) = lemma_limited(m, v, mi, mi1, delta);
    lemma_times_unit(d);
    lemma_times_unit(a);
    lemma_times_unit(b);
    lemma_literal(3real, d);
    lemma_times_sub(d, 3real, a);
    lemma_times_sub(d, 3real, b);
    lemma_times_neg(a, d);
    lemma_times_neg(b, d);
    lemma_times_neg(3real - a, d);
    lemma_times_neg(3real - b, d);
    if d >= 0real {
        lemma_times_not_negative(a, d);
        lemma_times_not_negative(b, d);
        lemma_times_not_negative(3real - a, d);
        lemma_times_not_negative(3real - b, d);
    } else {
        lemma_times_not_negative(a, -d);
        lemma_times_not_negative(b, -d);
        lemma_times_not_negative(3real - a, -d);
        lemma_times_not_negative(3real - b, -d);
    }
}

/// At a point with the value of a node the spline has the value of the node.
pub proof fn lemma_at_node<T: Number, M: Elementary<T>>(
    m: M,
    v: spec_fn(T) -> real,
    xs: Seq<T>,
    ys: Seq<T>,
    xq: T,
    i: int,
)
    requires
        exact(v),
        increasing(v, xs),
        xs.len() == ys.len(),
        0 <= i < xs.len(),
        v(xq) == v(xs[i]),
    ensures
        v(monotone_cubic_interp_spec(m, xs, ys, xq)) == v(ys[i]),
{
    let n = xs.len() as int;
    if n >= 2 {
        assert(v(xs[0]) <= v(xs[i]) && v(xs[i]) <= v(xs[n - 1]));
        law_interval_encloses(v, xs, xq);
        let k = interval_of(xs, xq);
        assert(k == i || k + 1 == i) by {
            if k < i - 1 {
                assert(v(xs[k + 1]) < v(xs[i]));
            }
            if k > i {
                assert(v(xs[i]) < v(xs[k]));
            }
        }
        let dx = xs[k + 1].sub_spec(xs[k]);
        let t = xq.sub_spec(xs[k]).div_spec(dx);
        assert(v(xs[k]) < v(xs[k + 1]));
        assert(times(v(t), v(dx)) == v(xq) - v(xs[k]));
        lemma_times_unit(v(dx));
        if k == i {
            lemma_times_cancel(v(t), 0real, v(dx));
        } else {
            lemma_times_cancel(v(t), 1real, v(dx));
        }
        lemma_hermite_ends(
            v,
            t,
            dx,
            ys[k],
            ys[k + 1],
            limited_slope(m, xs, ys, k, k),
            limited_slope(m, xs, ys, k, k + 1),
        );
    }
}

/// The spline goes through its points.
pub proof fn law_interp_at_nodes<T: Number, M: Elementary<T>>(
    m: M,
    v: spec_fn(T) -> real,
    xs: Seq<T>,
    ys: Seq<T>,
    i: int,
)
    requires
        exact(v),
        increasing(v, xs),
        xs.len() == ys.len(),
        0 <= i < xs.len(),
    ensures
        v(monotone_cubic_interp_spec(m, xs, ys, xs[i])) == v(ys[i]),
{
    lemma_at_node(m, v, xs, ys, xs[i], i);
}

/// Beyond the ends of its grid the spline keeps the value that it has there, to the last
/// rounding.
pub proof fn law_flat_ends<T: Number, M: Elementary<T>>(
    m: M,
    v: spec_fn(T) -> real,
    xs: Seq<T>,
    ys: Seq<T>,
    xq: T,
)
    requires
        ordered(v),
        increasing(v, xs),
        xs.len() == ys.len(),
        xs.len() >= 1,
    ensures
        v(xq) < v(xs[0]) ==> monotone_cubic_interp_spec(m, xs, ys, xq) == ys[0],
        v(xq) > v(xs[xs.len() - 1]) ==> monotone_cubic_interp_spec(m, xs, ys, xq)
            == ys[ys.len() - 1],
{
    let n = xs.len() as int;
    assert(n > 1 ==> v(xs[0]) < v(xs[n - 1]));
    assert(xq.is_lt(&xs[0]) == (v(xq) < v(xs[0])));
    assert(xq.is_gt(&xs[n - 1]) == (v(xq) > v(xs[n - 1])));
}

/// The chords between the points have the sign of the rise from first to second.
pub proof fn lemma_chord<T: Number>(v: spec_fn(T) -> real, x0: T, y0: T, x1: T, y1: T)
    requires
        exact(v),
        v(x0) < v(x1),
    ensures
        times(v(chord_spec(x0, y0, x1, y1)), v(x1) - v(x0)) == v(y1) - v(y0),
        v(y0) <= v(y1) ==> v(chord_spec(x0, y0, x1, y1)) >= 0real,
        v(y0) >= v(y1) ==> v(chord_spec(x0, y0, x1, y1)) <= 0real,
{
    let c = v(chord_spec(x0, y0, x1, y1));
    let dx = v(x1) - v(x0);
    assert(v(x1.sub_spec(x0)) == dx);
    lemma_times_comm(c, dx);
    lemma_times_neg(dx, c);
    if v(y0) <= v(y1) {
        lemma_sign_of_factor(dx, c);
    }
    if v(y0) >= v(y1) {
        lemma_sign_of_factor(dx, -c);
    }
}

/// The slope at a node has the sign of the chords on both sides, where it is not zero.
proof fn lemma_slope_sign<T: Number>(v: spec_fn(T) -> real, xs: Seq<T>, ys: Seq<T>, i: int)
    requires
        exact(v),
        xs.len() == ys.len(),
        xs.len() >= 2,
        0 <= i < xs.len(),
    ensures
        ({
            let s = v(slope_spec(xs, ys, i));
            let left = v(chord_spec(xs[i - 1], ys[i - 1], xs[i], ys[i]));
            let right = v(chord_spec(xs[i], ys[i], xs[i + 1], ys[i + 1]));
            &&& i > 0 && left > 0real ==> s >= 0real
            &&& i > 0 && left < 0real ==> s <= 0real
            &&& i < xs.len() - 1 && right > 0real ==> s >= 0real
            &&& i < xs.len() - 1 && right < 0real ==> s <= 0real
        }),
{
    if 0 < i < xs.len() - 1 {
        let left = chord_spec(xs[i - 1], ys[i - 1], xs[i], ys[i]);
        let right = chord_spec(xs[i], ys[i], xs[i + 1], ys[i + 1]);
        let zero = num::<T>(0);
        assert(left.is_gt(&zero) == (v(left) > 0real));
        assert(left.is_lt(&zero) == (v(left) < 0real));
        assert(right.is_gt(&zero) == (v(right) > 0real));
        assert(right.is_lt(&zero) == (v(right) < 0real));
        lemma_half::<T>(v);
        lemma_literal(1real / 2real, v(left) + v(right));
    }
}

/// The slope of the spline at node `k` as it is limited between node `j` and the next.
pub open spec fn limited_slope<T: Number, M: Elementary<T>>(
    m: M,
    xs: Seq<T>,
    ys: Seq<T>,
    j: int,
    k: int,
) -> T {
    limiter_spec(
        m,
        slope_spec(xs, ys, j),
        slope_spec(xs, ys, j + 1),
        chord_spec(xs[j], ys[j], xs[j + 1], ys[j + 1]),
    ).mul_spec(slope_spec(xs, ys, k))
}

/// How steep the spline is at node `k` against the chord from node `j` to the next.
pub open spec fn node_steepness<T: Number, M: Elementary<T>>(
    m: M,
    v: spec_fn(T) -> real,
    xs: Seq<T>,
    ys: Seq<T>,
    j: int,
    k: int,
) -> real {
    steepness(
        v(limited_slope(m, xs, ys, j, k)),
        v(chord_spec(xs[j], ys[j], xs[j + 1], ys[j + 1])),
    )
}

/// Between nodes `j` and `j + 1` the spline goes its share of the way from one value to the
/// other.
pub proof fn lemma_interp_share<T: Number, M: Elementary<T>>(
    m: M,
    v: spec_fn(T) -> real,
    xs: Seq<T>,
    ys: Seq<T>,
    j: int,
    xq: T,
)
    requires
        exact(v),
        sqrt_exact(m, v),
        v(decimal_of::<T, M>(m, 1, -15)) > 0real,
        increasing(v, xs),
        xs.len() == ys.len(),
        0 <= j < xs.len() - 1,
        v(xs[j]) <= v(xq) <= v(xs[j + 1]),
    ensures
        ({
            let x = v(xq.sub_spec(xs[j]).div_spec(xs[j + 1].sub_spec(xs[j])));
            let a = node_steepness(m, v, xs, ys, j, j);
            let b = node_steepness(m, v, xs, ys, j, j + 1);
            &&& 0real <= x <= 1real
            &&& times(x, v(xs[j + 1]) - v(xs[j])) == v(xq) - v(xs[j])
            &&& 0real <= a <= 3real
            &&& 0real <= b <= 3real
            &&& v(monotone_cubic_interp_spec(m, xs, ys, xq)) == v(ys[j]) + times(
                share(x, a, b),
                v(ys[j + 1]) - v(ys[j]),
            )
        }),
{
    let n = xs.len() as int;
    let dx = xs[j + 1].sub_spec(xs[j]);
    let t = xq.sub_spec(xs[j]).div_spec(dx);
    let x = v(t);
    let (mi, mi1) = (limited_slope(m, xs, ys, j, j), limited_slope(m, xs, ys, j, j + 1));
    let delta = chord_spec(xs[j], ys[j], xs[j + 1], ys[j + 1]);
    let rise = v(ys[j + 1]) - v(ys[j]);
    let a = node_steepness(m, v, xs, ys, j, j);
    let b = node_steepness(m, v, xs, ys, j, j + 1);
    assert(v(xs[j]) < v(xs[j + 1]));
    lemma_slope_sign(v, xs, ys, j);
    lemma_slope_sign(v, xs, ys, j + 1);
    lemma_chord(v, xs[j], ys[j], xs[j + 1], ys[j + 1]);
    lemma_limited_tame(m, v, slope_spec(xs, ys, j), slope_spec(xs, ys, j + 1), delta);
    lemma_steepness(v(mi), v(delta));
    lemma_steepness(v(mi1), v(delta));
    lemma_quotient_range(x, v(dx), v(xq) - v(xs[j]));
    assert(v(xs[0]) <= v(xs[j]) && v(xs[j + 1]) <= v(xs[n - 1]));
    law_interval_encloses(v, xs, xq);
    if interval_of(xs, xq) == j {
        assert(times(v(dx), v(mi)) == times(a, rise)) by {
            lemma_times_comm(v(dx), times(a, v(delta)));
            lemma_times_assoc(a, v(delta), v(dx));
        }
        assert(times(v(dx), v(mi1)) == times(b, rise)) by {
            lemma_times_comm(v(dx), times(b, v(delta)));
            lemma_times_assoc(b, v(delta), v(dx));
        }
        lemma_hermite_share(v, t, dx, ys[j], ys[j + 1], mi, mi1, a, b);
    } else {
        let k = interval_of(xs, xq);
        lemma_share_ends(x, a, b);
        lemma_times_unit(rise);
        lemma_times_unit(v(dx));
        if k > j {
            assert(v(xs[j + 1]) <= v(xs[k]));
            lemma_times_cancel(x, 1real, v(dx));
            lemma_at_node(m, v, xs, ys, xq, j + 1);
        } else {
            assert(v(xs[k + 1]) <= v(xs[j]));
            lemma_times_cancel(x, 0real, v(dx));
            lemma_at_node(m, v, xs, ys, xq, j);
        }
    }
}

/// The spline does not turn between two nodes: from one to the next it does not fall where the
/// value at the second is not less, and does not rise where it is not more.
pub proof fn law_monotone_between_nodes<T: Number, M: Elementary<T>>(
    m: M,
    v: spec_fn(T) -> real,
    xs: Seq<T>,
    ys: Seq<T>,
    j: int,
    x: T,
    y: T,
)
    requires
        exact(v),
        sqrt_exact(m, v),
        v(decimal_of::<T, M>(m, 1, -15)) > 0real,
        increasing(v, xs),
        xs.len() == ys.len(),
        0 <= j < xs.len() - 1,
        v(xs[j]) <= v(x) <= v(y) <= v(xs[j + 1]),
    ensures
        ({
            let f = v(monotone_cubic_interp_spec(m, xs, ys, x));
            let g = v(monotone_cubic_interp_spec(m, xs, ys, y));
            &&& v(ys[j]) <= v(ys[j + 1]) ==> v(ys[j]) <= f <= g <= v(ys[j + 1])
            &&& v(ys[j]) >= v(ys[j + 1]) ==> v(ys[j]) >= f >= g >= v(ys[j + 1])
        }),
{
    let dx = v(xs[j + 1]) - v(xs[j]);
    let rise = v(ys[j + 1]) - v(ys[j]);
    let d = xs[j + 1].sub_spec(xs[j]);
    let (p, q) = (v(x.sub_spec(xs[j]).div_spec(d)), v(y.sub_spec(xs[j]).div_spec(d)));
    let a = node_steepness(m, v, xs, ys, j, j);
    let b = node_steepness(m, v, xs, ys, j, j + 1);
    assert(v(xs[j]) < v(xs[j + 1]));
    lemma_interp_share(m, v, xs, ys, j, x);
    lemma_interp_share(m, v, xs, ys, j, y);
    assert(p <= q) by {
        lemma_times_sub(dx, q, p);
        lemma_times_comm(dx, q - p);
        lemma_sign_of_factor(dx, q - p);
    }
    let (s, t) = (share(p, a, b), share(q, a, b));
    lemma_share_rises(0real, p, a, b);
    lemma_share_rises(p, q, a, b);
    lemma_share_rises(q, 1real, a, b);
    lemma_share_ends(0real, a, b);
    lemma_share_ends(1real, a, b);
    lemma_times_sub(rise, t, s);
    lemma_times_sub(rise, 1real, t);
    lemma_times_unit(rise);
    lemma_times_neg(s, rise);
    lemma_times_neg(t - s, rise);
    lemma_times_neg(1real - t, rise);
    if rise >= 0real {
        lemma_times_not_negative(s, rise);
        lemma_times_not_negative(t - s, rise);
        lemma_times_not_negative(1real - t, rise);
    } else {
        lemma_times_not_negative(s, -rise);
        lemma_times_not_negative(t - s, -rise);
        lemma_times_not_negative(1real - t, -rise);
    }
}

/// The spline does not overshoot: whatever the points, it stays between the two values next to
/// it.
pub proof fn law_no_overshoot<T: Number, M: Elementary<T>>(
    m: M,
    v: spec_fn(T) -> real,
    xs: Seq<T>,
    ys: Seq<T>,
    xq: T,
)
    requires
        exact(v),
        sqrt_exact(m, v),
        v(decimal_of::<T, M>(m, 1, -15)) > 0real,
        increasing(v, xs),
        xs.len() == ys.len(),
        xs.len() >= 2,
        v(xs[0]) <= v(xq) <= v(xs[xs.len() - 1]),
    ensures
        ({
            let i = interval_of(xs, xq);
            let w = v(monotone_cubic_interp_spec(m, xs, ys, xq));
            &&& v(xs[i]) <= v(xq) <= v(xs[i + 1])
            &&& v(ys[i]) <= w <= v(ys[i + 1]) || v(ys[i + 1]) <= w <= v(ys[i])
        }),
{
    law_interval_encloses(v, xs, xq);
    law_monotone_between_nodes(m, v, xs, ys, interval_of(xs, xq), xq, xq);
}

/// The points lie on the straight line with the value `c` at zero and the slope `s`.
pub open spec fn on_line<T>(
    v: spec_fn(T) -> real,
    xs: Seq<T>,
    ys: Seq<T>,
    c: real,
    s: real,
) -> bool {
    &&& xs.len() == ys.len()
    &&& forall|i: int| 0 <= i < xs.len() ==> v(#[trigger] ys[i]) == c + times(s, v(xs[i]))
}

/// The slope is zero, or steep enough not to be taken for zero.
pub open spec fn clear_slope<T: Number, M: Elementary<T>>(
    m: M,
    v: spec_fn(T) -> real,
    s: real,
) -> bool {
    let eps = v(decimal_of::<T, M>(m, 1, -15));
    eps > 0real && (s == 0real || s >= eps || s <= -eps)
}

/// On a straight line every chord has the slope of the line.
proof fn lemma_line_chord<T: Number>(
    v: spec_fn(T) -> real,
    xs: Seq<T>,
    ys: Seq<T>,
    c: real,
    s: real,
    i: int,
)
    requires
        exact(v),
        increasing(v, xs),
        on_line(v, xs, ys, c, s),
        0 <= i < xs.len() - 1,
    ensures
        v(chord_spec(xs[i], ys[i], xs[i + 1], ys[i + 1])) == s,
{
    lemma_chord(v, xs[i], ys[i], xs[i + 1], ys[i + 1]);
    let dx = v(xs[i + 1]) - v(xs[i]);
    assert(v(ys[i]) == c + times(s, v(xs[i])));
    assert(v(ys[i + 1]) == c + times(s, v(xs[i + 1])));
    lemma_times_sub(s, v(xs[i + 1]), v(xs[i]));
    lemma_times_cancel(v(chord_spec(xs[i], ys[i], xs[i + 1], ys[i + 1])), s, dx);
}

/// On a straight line the slope at every node is that of the line.
proof fn lemma_line_slope<T: Number>(
    v: spec_fn(T) -> real,
    xs: Seq<T>,
    ys: Seq<T>,
    c: real,
    s: real,
    i: int,
)
    requires
        exact(v),
        increasing(v, xs),
        on_line(v, xs, ys, c, s),
        xs.len() >= 2,
        0 <= i < xs.len(),
    ensures
        v(slope_spec(xs, ys, i)) == s,
{
    let n = xs.len() as int;
    if i <= 0 {
        lemma_line_chord(v, xs, ys, c, s, 0);
    } else if i >= n - 1 {
        lemma_line_chord(v, xs, ys, c, s, n - 2);
    } else {
        lemma_line_chord(v, xs, ys, c, s, i - 1);
        lemma_line_chord(v, xs, ys, c, s, i);
        let zero = num::<T>(0);
        let left = chord_spec(xs[i - 1], ys[i - 1], xs[i], ys[i]);
        let right = chord_spec(xs[i], ys[i], xs[i + 1], ys[i + 1]);
        assert(left.is_gt(&zero) == (v(left) > 0real));
        assert(left.is_lt(&zero) == (v(left) < 0real));
        assert(right.is_gt(&zero) == (v(right) > 0real));
        assert(right.is_lt(&zero) == (v(right) < 0real));
        lemma_half::<T>(v);
        lemma_literal(1real / 2real, s + s);
    }
}

/// The spline through points on a straight line is the line.
pub proof fn law_line_is_reproduced<T: Number, M: Elementary<T>>(
    m: M,
    v: spec_fn(T) -> real,
    xs: Seq<T>,
    ys: Seq<T>,
    c: real,
    s: real,
    xq: T,
)
    requires
        exact(v),
        sqrt_exact(m, v),
        clear_slope::<T, M>(m, v, s),
        increasing(v, xs),
        on_line(v, xs, ys, c, s),
        xs.len() >= 2,
        v(xs[0]) <= v(xq) <= v(xs[xs.len() - 1]),
    ensures
        v(monotone_cubic_interp_spec(m, xs, ys, xq)) == c + times(s, v(xq)),
{
    law_interval_encloses(v, xs, xq);
    let i = interval_of(xs, xq);
    let dx = v(xs[i + 1]) - v(xs[i]);
    let x = v(xq.sub_spec(xs[i]).div_spec(xs[i + 1].sub_spec(xs[i])));
    let a = node_steepness(m, v, xs, ys, i, i);
    let b = node_steepness(m, v, xs, ys, i, i + 1);
    lemma_line_slope(v, xs, ys, c, s, i);
    lemma_line_slope(v, xs, ys, c, s, i + 1);
    lemma_line_chord(v, xs, ys, c, s, i);
    lemma_interp_share(m, v, xs, ys, i, xq);
    let rise = v(ys[i + 1]) - v(ys[i]);
    assert(v(ys[i]) == c + times(s, v(xs[i])));
    assert(v(ys[i + 1]) == c + times(s, v(xs[i + 1])));
    lemma_times_sub(s, v(xs[i + 1]), v(xs[i]));
    lemma_times_sub(s, v(xq), v(xs[i]));
    if s == 0real {
        lemma_times_unit(share(x, a, b));
        lemma_times_unit(v(xq));
        lemma_times_unit(v(xs[i]));
        lemma_times_unit(v(xs[i + 1]));
    } else {
        let delta = chord_spec(xs[i], ys[i], xs[i + 1], ys[i + 1]);
        lemma_limited_tame(m, v, slope_spec(xs, ys, i), slope_spec(xs, ys, i + 1), delta);
        lemma_steepness(s, s);
        lemma_share_ends(x, a, b);
        lemma_times_comm(s, dx);
        lemma_times_assoc(x, dx, s);
        lemma_times_comm(v(xq) - v(xs[i]), s);
    }
}

/// The points at which the spline is sampled around a node lie within the grid.
pub proof fn lemma_offset<T: Number>(v: spec_fn(T) -> real, xs: Seq<T>, i: int)
    requires
        exact(v),
        increasing(v, xs),
        xs.len() >= 2,
        0 <= i < xs.len(),
    ensures
        v(offset_spec(xs, i)) > 0real,
        i > 0 ==> v(xs[i]) - 100real * v(offset_spec(xs, i)) >= v(xs[i - 1]),
        i < xs.len() - 1 ==> v(xs[i]) + 100real * v(offset_spec(xs, i)) <= v(xs[i + 1]),
{
    let n = xs.len() as int;
    let gap = if i <= 0 {
        xs[1].sub_spec(xs[0])
    } else if i >= n - 1 {
        xs[n - 1].sub_spec(xs[n - 2])
    } else {
        smaller(xs[i].sub_spec(xs[i - 1]), xs[i + 1].sub_spec(xs[i]))
    };
    if i > 0 {
        assert(v(xs[i - 1]) < v(xs[i]));
    }
    if i < n - 1 {
        assert(v(xs[i]) < v(xs[i + 1]));
    }
    assert(v(gap) > 0real);
    lemma_fraction(v, 1, 100);
    lemma_literal(1real / 100real, v(gap));
}

/// On a straight line the slope of the spline is that of the line.
proof fn lemma_line_spline_slope<T: Number, M: Elementary<T>>(
    m: M,
    v: spec_fn(T) -> real,
    xs: Seq<T>,
    ys: Seq<T>,
    c: real,
    s: real,
    i: int,
)
    requires
        exact(v),
        sqrt_exact(m, v),
        clear_slope::<T, M>(m, v, s),
        increasing(v, xs),
        on_line(v, xs, ys, c, s),
        xs.len() >= 2,
        0 <= i < xs.len(),
    ensures
        v(spline_slope_spec(m, xs, ys, i)) == s,
{
    let n = xs.len() as int;
    lemma_offset(v, xs, i);
    let h = offset_spec(xs, i);
    let lo = if i <= 0 {
        xs[i]
    } else {
        xs[i].sub_spec(h)
    };
    let hi = if i >= n - 1 {
        xs[i]
    } else {
        xs[i].add_spec(h)
    };
    assert(v(xs[0]) <= v(lo)) by {
        if i > 1 {
            assert(v(xs[0]) < v(xs[i - 1]));
        }
    }
    assert(v(hi) <= v(xs[n - 1])) by {
        if i < n - 2 {
            assert(v(xs[i + 1]) < v(xs[n - 1]));
        }
    }
    assert(v(xs[0]) <= v(xs[i]) && v(xs[i]) <= v(xs[n - 1]));
    law_line_is_reproduced(m, v, xs, ys, c, s, lo);
    law_line_is_reproduced(m, v, xs, ys, c, s, hi);
    lemma_times_sub(s, v(hi), v(lo));
    lemma_times_cancel(v(spline_slope_spec(m, xs, ys, i)), s, v(hi) - v(lo));
}

/// On a level line the curvature of the spline is zero.
pub proof fn lemma_level_curvature<T: Number, M: Elementary<T>>(
    m: M,
    v: spec_fn(T) -> real,
    xs: Seq<T>,
    ys: Seq<T>,
    c: real,
    i: int,
)
    requires
        exact(v),
        sqrt_exact(m, v),
        clear_slope::<T, M>(m, v, 0real),
        increasing(v, xs),
        on_line(v, xs, ys, c, 0real),
        0 <= i < xs.len(),
    ensures
        v(spline_curvature_spec(m, xs, ys, i)) == 0real,
{
    let n = xs.len() as int;
    if n >= 3 {
        let k = interior_node(n, i);
        lemma_offset(v, xs, k);
        let h = offset_spec(xs, k);
        let x = xs[k];
        assert(v(xs[0]) <= v(xs[k - 1]) && v(xs[k - 1]) < v(x));
        assert(v(x) < v(xs[k + 1]) && v(xs[k + 1]) <= v(xs[n - 1]));
        let hi = x.add_spec(h);
        let lo = x.sub_spec(h);
        law_line_is_reproduced(m, v, xs, ys, c, 0real, hi);
        law_line_is_reproduced(m, v, xs, ys, c, 0real, x);
        law_line_is_reproduced(m, v, xs, ys, c, 0real, lo);
        lemma_times_unit(v(hi));
        lemma_times_unit(v(x));
        lemma_times_unit(v(lo));
        lemma_literal(2real, c);
        lemma_times_positive(v(h), v(h));
        let hh = times(v(h), v(h));
        lemma_times_unit(hh);
        lemma_times_cancel(v(spline_curvature_spec(m, xs, ys, i)), 0real, hh);
    }
}

/// On a flat surface local volatility is the volatility of the surface.
pub proof fn law_flat_surface<T: Number, M: Elementary<T>>(
    m: M,
    v: spec_fn(T) -> real,
    surf: LocalVolSurface<T>,
    spot: T,
    rate: T,
    div_yield: T,
    i_k: int,
    j_t: int,
    vol: real,
)
    requires
        exact(v),
        sqrt_exact(m, v),
        0real < v(decimal_of::<T, M>(m, 1, -15)) <= times(vol, vol),
        v(decimal_of::<T, M>(m, 1, -10)) < 1real,
        increasing(v, surf.strikes@),
        increasing(v, surf.expiries@),
        surf.expiries@.len() >= 2,
        0 <= i_k < surf.strikes@.len(),
        0 <= j_t < surf.expiries@.len(),
        vol > 0real,
        v(surf.expiries@[j_t]) != 0real,
        forall|i: int, j: int|
            0 <= i < surf.strikes@.len() && 0 <= j < surf.expiries@.len() ==> v(
                #[trigger] surf.at(i, j),
            ) == vol,
    ensures
        v(dupire_local_vol_spec(m, surf, spot, rate, div_yield, i_k, j_t)) == vol,
{
    let s2 = times(vol, vol);
    let ks = surf.strikes@;
    let ts = surf.expiries@;
    let by_t = expiry_slice(surf, i_k);
    let by_k = strike_slice(surf, j_t);
    let w = total_var_spec(surf, i_k, j_t);
    let c = v(w);
    assert(on_line(v, ts, by_t, 0real, s2)) by {
        assert forall|j: int| 0 <= j < ts.len() implies v(#[trigger] by_t[j]) == 0real + times(
            s2,
            v(ts[j]),
        ) by {
            assert(v(surf.at(i_k, j)) == vol);
        }
    }
    assert(on_line(v, ks, by_k, c, 0real)) by {
        assert(v(surf.at(i_k, j_t)) == vol);
        assert forall|i: int| 0 <= i < ks.len() implies v(#[trigger] by_k[i]) == c + times(
            0real,
            v(ks[i]),
        ) by {
            assert(v(surf.at(i, j_t)) == vol);
            lemma_times_unit(v(ks[i]));
        }
    }
    lemma_line_spline_slope(m, v, ts, by_t, 0real, s2, j_t);
    if ks.len() >= 2 {
        lemma_line_spline_slope(m, v, ks, by_k, c, 0real, i_k);
    }
    lemma_level_curvature(m, v, ks, by_k, c, i_k);
    let x = ln_of(m, spot.div_spec(ks[i_k])).add_spec(rate.sub_spec(div_yield).mul_spec(ts[j_t]));
    let dt = spline_slope_spec(m, ts, by_t, j_t);
    let dk = spline_slope_spec(m, ks, by_k, i_k);
    let d2 = spline_curvature_spec(m, ks, by_k, i_k);
    assert(v(dt) == s2 && v(dk) == 0real && v(d2) == 0real);
    lemma_level_formula(m, v, w, x, dt, dk, d2, vol);
}

/// Dupire's formula where total variance does not depend on the strike.
pub proof fn lemma_level_formula<T: Number, M: Elementary<T>>(
    m: M,
    v: spec_fn(T) -> real,
    w: T,
    x: T,
    dt: T,
    dk: T,
    d2: T,
    vol: real,
)
    requires
        exact(v),
        sqrt_exact(m, v),
        v(decimal_of::<T, M>(m, 1, -10)) < 1real,
        vol > 0real,
        v(dt) == times(vol, vol),
        v(dk) == 0real,
        v(d2) == 0real,
    ensures
        v(dupire_formula_spec(m, w, x, dt, dk, d2)) == vol,
{
    let one = num::<T>(1);
    let first = x.div_spec(w);
    let second = frac::<T>(1, 4).mul_spec(
        frac::<T>(-1, 4).sub_spec(one.div_spec(w)).add_spec(
            x.mul_spec(x).div_spec(w.mul_spec(w)),
        ),
    );
    let half = frac::<T>(1, 2);
    let denom = one.sub_spec(first.mul_spec(dk)).add_spec(
        second.mul_spec(dk).mul_spec(dk),
    ).add_spec(half.mul_spec(d2));
    lemma_times_unit(v(first));
    lemma_times_unit(v(second));
    lemma_times_unit(v(second.mul_spec(dk)));
    lemma_times_unit(v(half));
    assert(v(denom) == 1real);
    lemma_square(vol);
    let q = dt.div_spec(denom);
    lemma_times_unit(v(q));
    let r = v(sqrt_of(m, larger(q, num::<T>(0))));
    lemma_same_square(r, vol);
}

} // verus!
