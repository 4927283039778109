//! What the derivatives of the spline are taken from: they depend on the points near the node
//! alone, and are exact on straight lines and on parabolas; and what Dupire's formula makes of
//! them.
use crate::exact::{
    exact, faithful, lemma_fraction, lemma_half, lemma_literal, lemma_multiple,
    lemma_quotient_positive, lemma_sign_of_factor, lemma_square, lemma_square_of_product,
    lemma_times_add, lemma_times_assoc, lemma_times_cancel, lemma_times_comm, lemma_times_positive,
    lemma_times_sub, lemma_times_unit, ordered, same_value, sqrt_exact, times,
};
use crate::greek_laws::{lemma_chord_of_quadratic, quadratic};
use crate::local_vol::{
    chord_spec, dupire_formula_spec, dupire_local_vol_spec, expiry_slice, interval_of,
    law_nodes_up_to, limiter_spec, monotone_cubic_interp_spec, nodes_up_to, offset_spec, slope_spec,
    spline_curvature_spec, spline_slope_spec, strike_slice, total_var_spec,
};
use crate::local_vol_laws::{
    clear_slope, increasing, lemma_chord, lemma_hermite, lemma_interp_share, lemma_level_curvature,
    lemma_level_formula, lemma_limited_tame, lemma_offset, lemma_share_ends, lemma_steepness,
    node_steepness, on_line, share,
};
use crate::number::{decimal_of, frac, ln_of, magnitude, num, Elementary, Number};
use crate::types::LocalVolSurface;
use vstd::prelude::*;
use vstd::std_specs::cmp::PartialOrdIs;
use vstd::std_specs::ops::{AddSpec, DivSpec, MulSpec, SubSpec};

verus! {

/// Two sets of points, as many in each, of which those from position `lo` to `hi` are the same.
pub open spec fn agree_near<T>(
    xs: Seq<T>,
    ys: Seq<T>,
    us: Seq<T>,
    ws: Seq<T>,
    lo: int,
    hi: int,
) -> bool {
    &&& xs.len() == ys.len() && us.len() == xs.len() && ws.len() == xs.len()
    &&& forall|k: int|
        #![trigger xs[k]]
        #![trigger ys[k]]
        #![trigger us[k]]
        #![trigger ws[k]]
        lo <= k <= hi && 0 <= k < xs.len() ==> xs[k] == us[k] && ys[k] == ws[k]
}

/// A point from node `a` on and before the next, or at the last node, belongs to the interval of
/// the node.
proof fn lemma_interval<T: Number>(v: spec_fn(T) -> real, xs: Seq<T>, xq: T, a: int)
    requires
        ordered(v),
        increasing(v, xs),
        0 <= a < xs.len() - 1,
        v(xs[a]) <= v(xq),
        v(xq) < v(xs[a + 1]) || a == xs.len() - 2 && v(xq) <= v(xs[a + 1]),
    ensures
        interval_of(xs, xq) == a,
{
    law_nodes_up_to(xs, xq);
    let c = nodes_up_to(xs, xq);
    assert(c > a) by {
        if c <= a {
            assert(!xs[c].is_le(&xq));
            assert(v(xs[c]) > v(xq));
        }
    }
    if c > a + 1 {
        assert(xs[a + 1].is_le(&xq));
        assert(v(xs[a + 1]) <= v(xq));
    }
}

/// The spline is local: at a point from node `a` on and before the next, or at the last node, it
/// does not depend on the points other than the two nodes and their neighbours, to the last
/// rounding.
pub proof fn law_spline_is_local<T: Number, M: Elementary<T>>(
    m: M,
    v: spec_fn(T) -> real,
    xs: Seq<T>,
    ys: Seq<T>,
    us: Seq<T>,
    ws: Seq<T>,
    a: int,
    xq: T,
)
    requires
        ordered(v),
        increasing(v, xs),
        increasing(v, us),
        agree_near(xs, ys, us, ws, a - 1, a + 2),
        0 <= a < xs.len() - 1,
        v(xs[a]) <= v(xq),
        v(xq) < v(xs[a + 1]) || a == xs.len() - 2 && v(xq) <= v(xs[a + 1]),
    ensures
        monotone_cubic_interp_spec(m, xs, ys, xq) == monotone_cubic_interp_spec(m, us, ws, xq),
{
    let n = xs.len() as int;
    assert(us[a] == xs[a] && us[a + 1] == xs[a + 1] && ws[a] == ys[a] && ws[a + 1] == ys[a + 1]);
    lemma_interval(v, xs, xq, a);
    lemma_interval(v, us, xq, a);
    lemma_inside(v, xs, xq, a);
    lemma_inside(v, us, xq, a);
    lemma_slope_is_local(xs, ys, us, ws, a);
    lemma_slope_is_local(xs, ys, us, ws, a + 1);
}

/// A point of an interval lies beyond neither end of the grid.
proof fn lemma_inside<T: Number>(v: spec_fn(T) -> real, xs: Seq<T>, xq: T, a: int)
    requires
        ordered(v),
        increasing(v, xs),
        0 <= a < xs.len() - 1,
        v(xs[a]) <= v(xq) <= v(xs[a + 1]),
    ensures
        !xq.is_lt(&xs[0]),
        !xq.is_gt(&xs[xs.len() - 1]),
{
    let n = xs.len() as int;
    assert(v(xs[0]) <= v(xs[a]));
    assert(v(xs[a + 1]) <= v(xs[n - 1]));
    assert(xq.is_lt(&xs[0]) == (v(xq) < v(xs[0])));
    assert(xq.is_gt(&xs[n - 1]) == (v(xq) > v(xs[n - 1])));
}

/// The slope of the interpolant at a node depends on the node and its neighbours.
proof fn lemma_slope_is_local<T: Number>(
    xs: Seq<T>,
    ys: Seq<T>,
    us: Seq<T>,
    ws: Seq<T>,
    i: int,
)
    requires
        agree_near(xs, ys, us, ws, i - 1, i + 1),
        xs.len() >= 2,
        0 <= i < xs.len(),
    ensures
        slope_spec(xs, ys, i) == slope_spec(us, ws, i),
{
    let n = xs.len() as int;
    if i <= 0 {
        assert(xs[0] == us[0] && xs[1] == us[1]);
    } else if i >= n - 1 {
        assert(xs[n - 2] == us[n - 2] && xs[n - 1] == us[n - 1]);
    } else {
        assert(xs[i - 1] == us[i - 1] && xs[i] == us[i] && xs[i + 1] == us[i + 1]);
    }
}

/// The offset at a node depends on the node and its neighbours.
proof fn lemma_offset_is_local<T: Number>(
    xs: Seq<T>,
    ys: Seq<T>,
    us: Seq<T>,
    ws: Seq<T>,
    i: int,
)
    requires
        agree_near(xs, ys, us, ws, i - 1, i + 1),
        xs.len() >= 2,
        0 <= i < xs.len(),
    ensures
        offset_spec(xs, i) == offset_spec(us, i),
{
    let n = xs.len() as int;
    if i <= 0 {
        assert(xs[0] == us[0] && xs[1] == us[1]);
    } else if i >= n - 1 {
        assert(xs[n - 2] == us[n - 2] && xs[n - 1] == us[n - 1]);
    } else {
        assert(xs[i - 1] == us[i - 1] && xs[i] == us[i] && xs[i + 1] == us[i + 1]);
    }
}

/// The slope of the spline at a node is local: where two sets of points agree from two nodes before
/// to two nodes after it, the slopes are the same, wherever the other points are, to the last
/// rounding.
pub proof fn law_slope_is_local<T: Number, M: Elementary<T>>(
    m: M,
    v: spec_fn(T) -> real,
    xs: Seq<T>,
    ys: Seq<T>,
    us: Seq<T>,
    ws: Seq<T>,
    i: int,
)
    requires
        exact(v),
        increasing(v, xs),
        increasing(v, us),
        agree_near(xs, ys, us, ws, i - 2, i + 2),
        0 <= i < xs.len(),
    ensures
        spline_slope_spec(m, xs, ys, i) == spline_slope_spec(m, us, ws, i),
{
    let n = xs.len() as int;
    if n >= 2 {
        lemma_offset_is_local(xs, ys, us, ws, i);
        lemma_offset(v, xs, i);
        let h = offset_spec(xs, i);
        assert(xs[i] == us[i]);
        if i < n - 1 {
            law_spline_is_local(m, v, xs, ys, us, ws, i, xs[i].add_spec(h));
        } else {
            assert(v(xs[n - 2]) < v(xs[n - 1]));
            law_spline_is_local(m, v, xs, ys, us, ws, n - 2, xs[i]);
        }
        if i > 0 {
            law_spline_is_local(m, v, xs, ys, us, ws, i - 1, xs[i].sub_spec(h));
        } else {
            assert(v(xs[0]) < v(xs[1]));
            law_spline_is_local(m, v, xs, ys, us, ws, 0, xs[i]);
        }
    }
}

/// The curvature of the spline at a node with two neighbours is local: where two sets of points
/// agree from two nodes before to two nodes after it, the curvatures are the same, to the last
/// rounding. At an end of the grid the curvature is that of the next node.
pub proof fn law_curvature_is_local<T: Number, M: Elementary<T>>(
    m: M,
    v: spec_fn(T) -> real,
    xs: Seq<T>,
    ys: Seq<T>,
    us: Seq<T>,
    ws: Seq<T>,
    i: int,
)
    requires
        exact(v),
        increasing(v, xs),
        increasing(v, us),
        agree_near(xs, ys, us, ws, i - 2, i + 2),
        0 < i < xs.len() - 1,
    ensures
        spline_curvature_spec(m, xs, ys, i) == spline_curvature_spec(m, us, ws, i),
        i == 1 ==> spline_curvature_spec(m, xs, ys, 0) == spline_curvature_spec(m, xs, ys, i),
        i == xs.len() - 2 ==> spline_curvature_spec(m, xs, ys, i + 1) == spline_curvature_spec(
            m,
            xs,
            ys,
            i,
        ),
{
    lemma_offset_is_local(xs, ys, us, ws, i);
    lemma_offset(v, xs, i);
    let h = offset_spec(xs, i);
    assert(xs[i] == us[i]);
    assert(v(xs[i]) < v(xs[i + 1]));
    law_spline_is_local(m, v, xs, ys, us, ws, i, xs[i].add_spec(h));
    law_spline_is_local(m, v, xs, ys, us, ws, i, xs[i]);
    law_spline_is_local(m, v, xs, ys, us, ws, i - 1, xs[i].sub_spec(h));
}

/// The points from position `lo` to `hi` lie on the straight line with the value `c` at zero and
/// the slope `s`.
pub open spec fn line_near<T>(
    v: spec_fn(T) -> real,
    xs: Seq<T>,
    ys: Seq<T>,
    c: real,
    s: real,
    lo: int,
    hi: int,
) -> bool {
    &&& xs.len() == ys.len()
    &&& forall|k: int|
        lo <= k <= hi && 0 <= k < xs.len() ==> v(#[trigger] ys[k]) == c + times(s, v(xs[k]))
}

/// The chord between two points on a line has the slope of the line.
proof fn lemma_chord_on_line<T: Number>(
    v: spec_fn(T) -> real,
    xs: Seq<T>,
    ys: Seq<T>,
    c: real,
    s: real,
    i: int,
)
    requires
        exact(v),
        increasing(v, xs),
        line_near(v, xs, ys, c, s, i, i + 1),
        0 <= i < xs.len() - 1,
    ensures
        v(chord_spec(xs[i], ys[i], xs[i + 1], ys[i + 1])) == s,
{
    assert(v(xs[i]) < v(xs[i + 1]));
    lemma_chord(v, xs[i], ys[i], xs[i + 1], ys[i + 1]);
    assert(v(ys[i]) == c + times(s, v(xs[i])));
    assert(v(ys[i + 1]) == c + times(s, v(xs[i + 1])));
    lemma_times_sub(s, v(xs[i + 1]), v(xs[i]));
    lemma_times_cancel(
        v(chord_spec(xs[i], ys[i], xs[i + 1], ys[i + 1])),
        s,
        v(xs[i + 1]) - v(xs[i]),
    );
}

/// At a node that lies on a line with its neighbours, the slope is that of the line.
proof fn lemma_node_on_line<T: Number>(
    v: spec_fn(T) -> real,
    xs: Seq<T>,
    ys: Seq<T>,
    c: real,
    s: real,
    i: int,
)
    requires
        exact(v),
        increasing(v, xs),
        line_near(v, xs, ys, c, s, i - 1, i + 1),
        xs.len() >= 2,
        0 <= i < xs.len(),
    ensures
        v(slope_spec(xs, ys, i)) == s,
{
    let n = xs.len() as int;
    if i <= 0 {
        lemma_chord_on_line(v, xs, ys, c, s, 0);
    } else if i >= n - 1 {
        lemma_chord_on_line(v, xs, ys, c, s, n - 2);
    } else {
        lemma_chord_on_line(v, xs, ys, c, s, i - 1);
        lemma_chord_on_line(v, xs, ys, c, s, i);
        let zero = num::<T>(0);
        let left = chord_spec(xs[i - 1], ys[i - 1], xs[i], ys[i]);
        let right = chord_spec(xs[i], ys[i], xs[i + 1], ys[i + 1]);
        assert(left.is_gt(&zero) == (v(left) > 0real));
        assert(left.is_lt(&zero) == (v(left) < 0real));
        assert(right.is_gt(&zero) == (v(right) > 0real));
        assert(right.is_lt(&zero) == (v(right) < 0real));
        lemma_half::<T>(v);
        lemma_literal(1real / 2real, s + s);
    }
}

/// Between two nodes that lie on a straight line with their neighbours, the spline is the line,
/// whatever the points elsewhere.
pub proof fn law_line_is_reproduced_locally<T: Number, M: Elementary<T>>(
    m: M,
    v: spec_fn(T) -> real,
    xs: Seq<T>,
    ys: Seq<T>,
    c: real,
    s: real,
    a: int,
    xq: T,
)
    requires
        exact(v),
        sqrt_exact(m, v),
        clear_slope::<T, M>(m, v, s),
        increasing(v, xs),
        line_near(v, xs, ys, c, s, a - 1, a + 2),
        0 <= a < xs.len() - 1,
        v(xs[a]) <= v(xq) <= v(xs[a + 1]),
    ensures
        v(monotone_cubic_interp_spec(m, xs, ys, xq)) == c + times(s, v(xq)),
{
    assert(v(xs[a]) < v(xs[a + 1]));
    let dx = v(xs[a + 1]) - v(xs[a]);
    let x = v(xq.sub_spec(xs[a]).div_spec(xs[a + 1].sub_spec(xs[a])));
    let p = node_steepness(m, v, xs, ys, a, a);
    let q = node_steepness(m, v, xs, ys, a, a + 1);
    lemma_node_on_line(v, xs, ys, c, s, a);
    lemma_node_on_line(v, xs, ys, c, s, a + 1);
    lemma_chord_on_line(v, xs, ys, c, s, a);
    lemma_interp_share(m, v, xs, ys, a, xq);
    assert(v(ys[a]) == c + times(s, v(xs[a])));
    assert(v(ys[a + 1]) == c + times(s, v(xs[a + 1])));
    lemma_times_sub(s, v(xs[a + 1]), v(xs[a]));
    lemma_times_sub(s, v(xq), v(xs[a]));
    if s == 0real {
        lemma_times_unit(share(x, p, q));
        lemma_times_unit(v(xq));
        lemma_times_unit(v(xs[a]));
        lemma_times_unit(v(xs[a + 1]));
    } else {
        let delta = chord_spec(xs[a], ys[a], xs[a + 1], ys[a + 1]);
        lemma_limited_tame(m, v, slope_spec(xs, ys, a), slope_spec(xs, ys, a + 1), delta);
        lemma_steepness(s, s);
        lemma_share_ends(x, p, q);
        lemma_times_comm(s, dx);
        lemma_times_assoc(x, dx, s);
        lemma_times_comm(v(xq) - v(xs[a]), s);
    }
}

/// Where the points from two nodes before to two nodes after a node lie on a straight line, the
/// slope of the spline at the node is that of the line, whatever the points elsewhere.
pub proof fn law_slope_of_local_line<T: Number, M: Elementary<T>>(
    m: M,
    v: spec_fn(T) -> real,
    xs: Seq<T>,
    ys: Seq<T>,
    c: real,
    s: real,
    i: int,
)
    requires
        exact(v),
        sqrt_exact(m, v),
        clear_slope::<T, M>(m, v, s),
        increasing(v, xs),
        line_near(v, xs, ys, c, s, i - 2, i + 2),
        xs.len() >= 2,
        0 <= i < xs.len(),
    ensures
        v(spline_slope_spec(m, xs, ys, i)) == s,
{
    let n = xs.len() as int;
    lemma_offset(v, xs, i);
    let h = offset_spec(xs, i);
    let lo = if i <= 0 {
        xs[i]
    } else {
        xs[i].sub_spec(h)
    };
    let hi = if i >= n - 1 {
        xs[i]
    } else {
        xs[i].add_spec(h)
    };
    if i > 0 {
        assert(v(xs[i - 1]) < v(xs[i]));
        law_line_is_reproduced_locally(m, v, xs, ys, c, s, i - 1, lo);
        law_line_is_reproduced_locally(m, v, xs, ys, c, s, i - 1, xs[i]);
    }
    if i < n - 1 {
        assert(v(xs[i]) < v(xs[i + 1]));
        law_line_is_reproduced_locally(m, v, xs, ys, c, s, i, hi);
        law_line_is_reproduced_locally(m, v, xs, ys, c, s, i, xs[i]);
    }
    lemma_times_sub(s, v(hi), v(lo));
    lemma_times_cancel(v(spline_slope_spec(m, xs, ys, i)), s, v(hi) - v(lo));
}

/// The points from position `lo` to `hi` stand at equal distances `d` on a parabola that rises from
/// each to the next.
pub open spec fn parabola_near<T>(
    v: spec_fn(T) -> real,
    xs: Seq<T>,
    ys: Seq<T>,
    a: real,
    b: real,
    c: real,
    d: real,
    lo: int,
    hi: int,
) -> bool {
    &&& xs.len() == ys.len()
    &&& 0 <= lo && hi < xs.len()
    &&& d > 0real
    &&& forall|k: int| lo <= k <= hi ==> v(#[trigger] ys[k]) == quadratic(a, b, c, v(xs[k]))
    &&& forall|k: int, l: int|
        lo <= k <= hi && lo <= l <= hi && l == k + 1 ==> v(#[trigger] xs[l]) == v(#[trigger] xs[k])
            + d && v(ys[k]) < v(ys[l])
}

/// On the interval from `x` of the length `d` the parabola is even enough, and steep enough, for
/// its slopes at the ends to be kept.
pub open spec fn is_even<T: Number, M: Elementary<T>>(
    m: M,
    v: spec_fn(T) -> real,
    b: real,
    c: real,
    d: real,
    x: real,
) -> bool {
    let p = b + 2real * times(c, x);
    let q = b + 2real * times(c, x + d);
    let mean = b + times(c, x + x + d);
    &&& times(p, p) + times(p, q) + times(q, q) <= 9real * times(mean, mean)
    &&& mean >= v(decimal_of::<T, M>(m, 1, -15)) > 0real
}

/// At a node between two others on such a parabola the slope is that of the parabola.
proof fn lemma_parabola_slope<T: Number>(
    v: spec_fn(T) -> real,
    xs: Seq<T>,
    ys: Seq<T>,
    a: real,
    b: real,
    c: real,
    d: real,
    i: int,
)
    requires
        exact(v),
        parabola_near(v, xs, ys, a, b, c, d, i - 1, i + 1),
    ensures
        v(slope_spec(xs, ys, i)) == b + 2real * times(c, v(xs[i])),
        v(chord_spec(xs[i], ys[i], xs[i + 1], ys[i + 1])) == b + times(
            c,
            v(xs[i]) + v(xs[i + 1]),
        ),
        v(chord_spec(xs[i - 1], ys[i - 1], xs[i], ys[i])) == b + times(
            c,
            v(xs[i - 1]) + v(xs[i]),
        ),
        v(xs[i + 1]) == v(xs[i]) + d,
        v(xs[i - 1]) == v(xs[i]) - d,
{
    let left = chord_spec(xs[i - 1], ys[i - 1], xs[i], ys[i]);
    let right = chord_spec(xs[i], ys[i], xs[i + 1], ys[i + 1]);
    let (p, x, q) = (v(xs[i - 1]), v(xs[i]), v(xs[i + 1]));
    assert(x == p + d && q == x + d);
    assert(v(ys[i - 1]) == quadratic(a, b, c, p));
    assert(v(ys[i]) == quadratic(a, b, c, x));
    assert(v(ys[i + 1]) == quadratic(a, b, c, q));
    lemma_chord(v, xs[i - 1], ys[i - 1], xs[i], ys[i]);
    lemma_chord(v, xs[i], ys[i], xs[i + 1], ys[i + 1]);
    lemma_chord_of_quadratic(a, b, c, x, p);
    lemma_chord_of_quadratic(a, b, c, q, x);
    lemma_times_cancel(v(left), b + times(c, x + p), d);
    lemma_times_cancel(v(right), b + times(c, q + x), d);
    let zero = num::<T>(0);
    assert(left.is_gt(&zero) == (v(left) > 0real));
    assert(left.is_lt(&zero) == (v(left) < 0real));
    assert(right.is_gt(&zero) == (v(right) > 0real));
    assert(right.is_lt(&zero) == (v(right) < 0real));
    lemma_half::<T>(v);
    lemma_literal(1real / 2real, v(left) + v(right));
    lemma_times_add(c, x + p, q + x);
    lemma_multiple(4real, c, x);
    assert((x + p) + (q + x) == 4real * x);
}

/// The monomial of the second degree over a fraction of an interval.
proof fn lemma_fraction_of_square(c: real, t: real, d: real)
    ensures
        times(times(t, t), times(times(c, d), d)) == times(times(c, times(t, d)), times(t, d)),
{
    reveal(times);
    assert((t * t) * ((c * d) * d) == (c * (t * d)) * (t * d)) by (nonlinear_arith);
}

/// A cubic with the values and slopes of a parabola at its ends is the parabola.
proof fn lemma_hermite_parabola(t: real, y: real, p: real, q: real)
    ensures
        ({
            let t2 = times(t, t);
            let t3 = times(t2, t);
            times(2real * t3 - 3real * t2 + 1real, y) + times(t3 - 2real * t2 + t, p) + times(
                3real * t2 - 2real * t3,
                y + p + q,
            ) + times(t3 - t2, p + 2real * q) == y + times(t, p) + times(t2, q)
        }),
{
    let t2 = times(t, t);
    let t3 = times(t2, t);
    let h00 = 2real * t3 - 3real * t2 + 1real;
    let h10 = t3 - 2real * t2 + t;
    let h01 = 3real * t2 - 2real * t3;
    let h11 = t3 - t2;
    lemma_times_add(h01, y + p, q);
    lemma_times_add(h01, y, p);
    lemma_times_add(h11, p, 2real * q);
    lemma_multiple(2real, h11, q);
    lemma_times_add(y, h00, h01);
    lemma_times_unit(y);
    lemma_times_add(p, h10, h01);
    lemma_times_add(p, h10 + h01, h11);
    lemma_times_add(q, h01, 2real * h11);
    assert(h00 + h01 == 1real);
    assert(h10 + h01 + h11 == t);
    assert(h01 + 2real * h11 == t2);
}

/// The factor that slopes are limited by is one where they lie inside the region.
proof fn lemma_not_limited<T: Number, M: Elementary<T>>(
    m: M,
    v: spec_fn(T) -> real,
    mi: T,
    mi1: T,
    delta: T,
)
    requires
        exact(v),
        v(delta) >= v(decimal_of::<T, M>(m, 1, -15)) > 0real,
        times(v(mi), v(mi)) + times(v(mi), v(mi1)) + times(v(mi1), v(mi1)) <= 9real * times(
            v(delta),
            v(delta),
        ),
    ensures
        v(limiter_spec(m, mi, mi1, delta)) == 1real,
{
    let (a, b) = (mi.div_spec(delta), mi1.div_spec(delta));
    let cond = a.mul_spec(a).add_spec(a.mul_spec(b)).add_spec(b.mul_spec(b));
    let (x, y, d) = (v(a), v(b), v(delta));
    let dd = times(d, d);
    assert(!magnitude(delta).is_lt(&decimal_of::<T, M>(m, 1, -15)));
    lemma_square_of_product(x, d);
    lemma_square_of_product(y, d);
    assert(times(times(x, d), times(y, d)) == times(times(x, y), dd)) by {
        lemma_times_assoc(x, d, times(y, d));
        lemma_times_assoc(d, y, d);
        lemma_times_comm(d, y);
        lemma_times_assoc(y, d, d);
        lemma_times_assoc(x, y, dd);
    }
    lemma_times_add(dd, times(x, x), times(x, y));
    lemma_times_add(dd, times(x, x) + times(x, y), times(y, y));
    lemma_square(d);
    lemma_times_sub(dd, 9real, v(cond));
    lemma_literal(9real, dd);
    lemma_times_comm(dd, v(cond));
    lemma_sign_of_factor(dd, 9real - v(cond));
    assert(cond.is_le(&num::<T>(9)));
}

/// Between two nodes that stand on a rising parabola with their neighbours, at equal distances, the
/// spline is the parabola where its slopes are kept, whatever the points elsewhere.
pub proof fn law_parabola_is_reproduced<T: Number, M: Elementary<T>>(
    m: M,
    v: spec_fn(T) -> real,
    xs: Seq<T>,
    ys: Seq<T>,
    a: real,
    b: real,
    c: real,
    d: real,
    i: int,
    xq: T,
)
    requires
        exact(v),
        sqrt_exact(m, v),
        increasing(v, xs),
        parabola_near(v, xs, ys, a, b, c, d, i - 1, i + 2),
        is_even::<T, M>(m, v, b, c, d, v(xs[i])),
        v(xs[i]) <= v(xq) < v(xs[i + 1]),
    ensures
        v(monotone_cubic_interp_spec(m, xs, ys, xq)) == quadratic(a, b, c, v(xq)),
{
    lemma_parabola_slope(v, xs, ys, a, b, c, d, i);
    lemma_parabola_slope(v, xs, ys, a, b, c, d, i + 1);
    lemma_interval(v, xs, xq, i);
    lemma_inside(v, xs, xq, i);
    let (x0, x1) = (v(xs[i]), v(xs[i + 1]));
    let (mi, mi1) = (slope_spec(xs, ys, i), slope_spec(xs, ys, i + 1));
    let dx = xs[i + 1].sub_spec(xs[i]);
    let delta = ys[i + 1].sub_spec(ys[i]).div_spec(dx);
    lemma_not_limited(m, v, mi, mi1, delta);
    let lim = limiter_spec(m, mi, mi1, delta);
    lemma_times_unit(v(mi));
    lemma_times_unit(v(mi1));
    let t = xq.sub_spec(xs[i]).div_spec(dx);
    lemma_hermite(v, t, dx, ys[i], ys[i + 1], lim.mul_spec(mi), lim.mul_spec(mi1));
    let (p, q) = (v(mi), v(mi1));
    let u = v(xq) - x0;
    assert(times(v(t), d) == u);
    assert(v(ys[i]) == quadratic(a, b, c, x0));
    assert(v(ys[i + 1]) == quadratic(a, b, c, x1));
    // The parabola from its value and its slope at the first node.
    let (pd, cd) = (times(p, d), times(times(c, d), d));
    assert(v(ys[i + 1]) == v(ys[i]) + pd + cd) by {
        lemma_chord_of_quadratic(a, b, c, x1, x0);
        lemma_times_add(c, 2real * x0, d);
        lemma_multiple(2real, c, x0);
        assert(x1 + x0 == 2real * x0 + d);
        lemma_times_add(d, p, times(c, d));
    }
    assert(quadratic(a, b, c, v(xq)) == v(ys[i]) + times(p, u) + times(times(c, u), u)) by {
        lemma_chord_of_quadratic(a, b, c, v(xq), x0);
        lemma_times_add(c, 2real * x0, u);
        lemma_multiple(2real, c, x0);
        assert(v(xq) + x0 == 2real * x0 + u);
        lemma_times_add(u, p, times(c, u));
    }
    assert(times(d, q) == pd + 2real * cd) by {
        lemma_times_add(c, x0, d);
        assert(q == p + 2real * times(c, d));
        lemma_times_add(d, p, 2real * times(c, d));
        lemma_multiple(2real, d, times(c, d));
        lemma_times_comm(d, times(c, d));
        lemma_times_comm(d, p);
    }
    lemma_times_comm(d, p);
    lemma_hermite_parabola(v(t), v(ys[i]), pd, cd);
    assert(times(v(t), pd) == times(p, u)) by {
        lemma_times_comm(p, d);
        lemma_times_assoc(v(t), d, p);
        lemma_times_comm(u, p);
    }
    lemma_fraction_of_square(c, v(t), d);
}

/// Slope and curvature of the spline are exact where the points from two nodes before to two nodes
/// after a node stand on a rising parabola, at equal distances, whose slopes are kept: they are
/// those of the parabola, whatever the points elsewhere.
pub proof fn law_derivatives_of_local_parabola<T: Number, M: Elementary<T>>(
    m: M,
    v: spec_fn(T) -> real,
    xs: Seq<T>,
    ys: Seq<T>,
    a: real,
    b: real,
    c: real,
    d: real,
    i: int,
)
    requires
        exact(v),
        sqrt_exact(m, v),
        increasing(v, xs),
        parabola_near(v, xs, ys, a, b, c, d, i - 2, i + 2),
        is_even::<T, M>(m, v, b, c, d, v(xs[i])),
        is_even::<T, M>(m, v, b, c, d, v(xs[i - 1])),
    ensures
        v(spline_slope_spec(m, xs, ys, i)) == b + 2real * times(c, v(xs[i])),
        v(spline_curvature_spec(m, xs, ys, i)) == 2real * c,
{
    lemma_offset(v, xs, i);
    let h = offset_spec(xs, i);
    let (hi, lo) = (xs[i].add_spec(h), xs[i].sub_spec(h));
    let x = v(xs[i]);
    assert(v(xs[i - 1]) < x);
    assert(x < v(xs[i + 1]));
    law_parabola_is_reproduced(m, v, xs, ys, a, b, c, d, i, hi);
    law_parabola_is_reproduced(m, v, xs, ys, a, b, c, d, i, xs[i]);
    law_parabola_is_reproduced(m, v, xs, ys, a, b, c, d, i - 1, lo);
    let k = v(h);
    assert(v(spline_slope_spec(m, xs, ys, i)) == b + 2real * times(c, x)) by {
        lemma_chord_of_quadratic(a, b, c, v(hi), v(lo));
        lemma_multiple(2real, c, x);
        assert(v(hi) + v(lo) == 2real * x);
        lemma_times_cancel(
            v(spline_slope_spec(m, xs, ys, i)),
            b + 2real * times(c, x),
            v(hi) - v(lo),
        );
    }
    assert(v(spline_curvature_spec(m, xs, ys, i)) == 2real * c) by {
        lemma_chord_of_quadratic(a, b, c, v(hi), x);
        lemma_chord_of_quadratic(a, b, c, x, v(lo));
        let (f, g) = (b + times(c, v(hi) + x), b + times(c, x + v(lo)));
        lemma_times_sub(k, f, g);
        lemma_times_sub(c, v(hi) + x, x + v(lo));
        assert((v(hi) + x) - (x + v(lo)) == 2real * k);
        lemma_multiple(2real, c, k);
        lemma_multiple(2real, times(c, k), k);
        lemma_times_assoc(c, k, k);
        lemma_multiple(2real, c, times(k, k));
        let w = v(monotone_cubic_interp_spec(m, xs, ys, xs[i]));
        lemma_literal(2real, w);
        lemma_times_positive(k, k);
        lemma_times_cancel(v(spline_curvature_spec(m, xs, ys, i)), 2real * c, times(k, k));
    }
}

/// Where implied volatility does not depend on the strike at an expiry, the square of the local
/// volatility there is the slope of total variance in time, if that is positive.
pub proof fn law_flat_in_strike<T: Number, M: Elementary<T>>(
    m: M,
    v: spec_fn(T) -> real,
    surf: LocalVolSurface<T>,
    spot: T,
    rate: T,
    div_yield: T,
    i_k: int,
    j_t: int,
    vol: real,
)
    requires
        exact(v),
        sqrt_exact(m, v),
        0real < v(decimal_of::<T, M>(m, 1, -15)),
        v(decimal_of::<T, M>(m, 1, -10)) < 1real,
        increasing(v, surf.strikes@),
        0 <= i_k < surf.strikes@.len(),
        vol > 0real,
        times(vol, vol) == v(
            spline_slope_spec(m, surf.expiries@, expiry_slice(surf, i_k), j_t),
        ),
        forall|i: int|
            0 <= i < surf.strikes@.len() ==> v(#[trigger] surf.at(i, j_t)) == v(
                surf.at(i_k, j_t),
            ),
    ensures
        v(dupire_local_vol_spec(m, surf, spot, rate, div_yield, i_k, j_t)) == vol,
{
    let ks = surf.strikes@;
    let ts = surf.expiries@;
    let by_t = expiry_slice(surf, i_k);
    let by_k = strike_slice(surf, j_t);
    let w = total_var_spec(surf, i_k, j_t);
    let c = v(w);
    assert(on_line(v, ks, by_k, c, 0real)) by {
        assert forall|i: int| 0 <= i < ks.len() implies v(#[trigger] by_k[i]) == c + times(
            0real,
            v(ks[i]),
        ) by {
            assert(v(surf.at(i, j_t)) == v(surf.at(i_k, j_t)));
            lemma_times_unit(v(ks[i]));
        }
    }
    if ks.len() >= 2 {
        assert(line_near(v, ks, by_k, c, 0real, i_k - 2, i_k + 2));
        law_slope_of_local_line(m, v, ks, by_k, c, 0real, i_k);
    }
    lemma_level_curvature(m, v, ks, by_k, c, i_k);
    let x = ln_of(m, spot.div_spec(ks[i_k])).add_spec(rate.sub_spec(div_yield).mul_spec(ts[j_t]));
    let dt = spline_slope_spec(m, ts, by_t, j_t);
    let dk = spline_slope_spec(m, ks, by_k, i_k);
    let d2 = spline_curvature_spec(m, ks, by_k, i_k);
    lemma_level_formula(m, v, w, x, dt, dk, d2, vol);
}

/// Where implied volatility does not depend on the strike at an expiry, and from two expiries
/// before to two expiries after it total variance grows at one forward variance, local volatility
/// there is the root of that forward variance, whatever the surface elsewhere.
pub proof fn law_local_vol_is_forward_vol<T: Number, M: Elementary<T>>(
    m: M,
    v: spec_fn(T) -> real,
    surf: LocalVolSurface<T>,
    spot: T,
    rate: T,
    div_yield: T,
    i_k: int,
    j_t: int,
    c: real,
    vol: real,
)
    requires
        exact(v),
        sqrt_exact(m, v),
        0real < v(decimal_of::<T, M>(m, 1, -15)) <= times(vol, vol),
        v(decimal_of::<T, M>(m, 1, -10)) < 1real,
        increasing(v, surf.strikes@),
        increasing(v, surf.expiries@),
        surf.expiries@.len() >= 2,
        0 <= i_k < surf.strikes@.len(),
        0 <= j_t < surf.expiries@.len(),
        vol > 0real,
        forall|i: int|
            0 <= i < surf.strikes@.len() ==> v(#[trigger] surf.at(i, j_t)) == v(
                surf.at(i_k, j_t),
            ),
        forall|j: int|
            j_t - 2 <= j <= j_t + 2 && 0 <= j < surf.expiries@.len() ==> times(
                times(v(#[trigger] surf.at(i_k, j)), v(surf.at(i_k, j))),
                v(surf.expiries@[j]),
            ) == c + times(times(vol, vol), v(surf.expiries@[j])),
    ensures
        v(dupire_local_vol_spec(m, surf, spot, rate, div_yield, i_k, j_t)) == vol,
{
    let ts = surf.expiries@;
    let by_t = expiry_slice(surf, i_k);
    let s2 = times(vol, vol);
    assert(line_near(v, ts, by_t, c, s2, j_t - 2, j_t + 2)) by {
        assert forall|j: int| j_t - 2 <= j <= j_t + 2 && 0 <= j < ts.len() implies v(
            #[trigger] by_t[j],
        ) == c + times(s2, v(ts[j])) by {
            let iv = surf.at(i_k, j);
            assert(times(times(v(iv), v(iv)), v(ts[j])) == c + times(s2, v(ts[j])));
        }
    }
    law_slope_of_local_line(m, v, ts, by_t, c, s2, j_t);
    law_flat_in_strike(m, v, surf, spot, rate, div_yield, i_k, j_t, vol);
}

/// Dupire's relation: the square of the local volatility times the denominator, which is taken
/// times the square of total variance here, is the slope of total variance in time times the
/// square of total variance. Where the slope is not positive, local volatility is zero.
pub proof fn law_dupire_relation<T: Number, M: Elementary<T>>(
    m: M,
    v: spec_fn(T) -> real,
    w: T,
    x: T,
    dw_dt: T,
    dw_dk: T,
    d2w_dk2: T,
)
    requires
        exact(v),
        sqrt_exact(m, v),
        v(w) > 0real,
        v(decimal_of::<T, M>(m, 1, -10)) >= 0real,
    ensures
        ({
            let (y, z, p, q) = (v(w), v(x), v(dw_dk), v(d2w_dk2));
            let yy = times(y, y);
            let den = yy - times(times(z, y), p) + times(
                times(z, z) - y - yy / 4real,
                times(p, p),
            ) / 4real + times(yy, q) / 2real;
            let lv = v(dupire_formula_spec(m, w, x, dw_dt, dw_dk, d2w_dk2));
            &&& lv >= 0real
            &&& v(dw_dt) <= 0real || den <= 0real ==> lv == 0real
            &&& lv != 0real ==> times(times(lv, lv), den) == times(v(dw_dt), yy)
        }),
{
    let one = num::<T>(1);
    let (y, z, p, q) = (v(w), v(x), v(dw_dk), v(d2w_dk2));
    let yy = times(y, y);
    let pp = times(p, p);
    let first = x.div_spec(w);
    let inv = one.div_spec(w);
    let sq = x.mul_spec(x).div_spec(w.mul_spec(w));
    let bracket = frac::<T>(-1, 4).sub_spec(inv).add_spec(sq);
    let second = frac::<T>(1, 4).mul_spec(bracket);
    let half = frac::<T>(1, 2);
    let denom = one.sub_spec(first.mul_spec(dw_dk)).add_spec(
        second.mul_spec(dw_dk).mul_spec(dw_dk),
    ).add_spec(half.mul_spec(d2w_dk2));
    let den = yy - times(times(z, y), p) + times(times(z, z) - y - yy / 4real, pp) / 4real + times(
        yy,
        q,
    ) / 2real;
    lemma_times_positive(y, y);
    lemma_fraction(v, 1, 4);
    lemma_fraction(v, -1i32, 4);
    lemma_half::<T>(v);
    assert(frac::<T>(-1, 4) == frac::<T>(-1i32 as int, 4));
    assert(times(v(denom), yy) == den) by {
        // Each term times the square of total variance.
        assert(times(times(v(first), p), yy) == times(times(z, y), p)) by {
            lemma_times_comm(v(first), p);
            lemma_times_assoc(p, v(first), yy);
            lemma_times_assoc(v(first), y, y);
            lemma_times_comm(p, times(z, y));
        }
        assert(times(v(bracket), yy) == times(z, z) - y - yy / 4real) by {
            lemma_times_add(yy, v(frac::<T>(-1, 4)) - v(inv), v(sq));
            lemma_times_sub(yy, v(frac::<T>(-1, 4)), v(inv));
            lemma_times_assoc(v(inv), y, y);
            lemma_times_unit(y);
            lemma_literal(-1real / 4real, yy);
        }
        assert(times(times(times(v(second), p), p), yy) == times(
            times(z, z) - y - yy / 4real,
            pp,
        ) / 4real) by {
            lemma_times_assoc(v(second), p, p);
            lemma_literal(1real / 4real, v(bracket));
            lemma_multiple(1real / 4real, v(bracket), pp);
            lemma_multiple(1real / 4real, times(v(bracket), pp), yy);
            lemma_times_assoc(v(bracket), pp, yy);
            lemma_times_comm(pp, yy);
            lemma_times_assoc(v(bracket), yy, pp);
        }
        assert(times(v(half.mul_spec(d2w_dk2)), yy) == times(yy, q) / 2real) by {
            lemma_literal(1real / 2real, q);
            lemma_multiple(1real / 2real, q, yy);
            lemma_times_comm(q, yy);
        }
        let (a, b, c) = (
            v(first.mul_spec(dw_dk)),
            v(second.mul_spec(dw_dk).mul_spec(dw_dk)),
            v(half.mul_spec(d2w_dk2)),
        );
        lemma_times_add(yy, 1real - a + b, c);
        lemma_times_add(yy, 1real - a, b);
        lemma_times_sub(yy, 1real, a);
        lemma_times_unit(yy);
    }
    let lv = v(dupire_formula_spec(m, w, x, dw_dt, dw_dk, d2w_dk2));
    assert(denom.is_le(&decimal_of::<T, M>(m, 1, -10)) == (v(denom) <= v(
        decimal_of::<T, M>(m, 1, -10),
    )));
    assert(dw_dt.is_le(&num::<T>(0)) == (v(dw_dt) <= 0real));
    if den <= 0real && v(denom) > 0real {
        lemma_times_positive(v(denom), yy);
    }
    if v(denom) > v(decimal_of::<T, M>(m, 1, -10)) && v(dw_dt) > 0real {
        let r = dw_dt.div_spec(denom);
        lemma_quotient_positive(v, dw_dt, denom);
        assert(times(lv, lv) == v(r));
        lemma_times_assoc(v(r), v(denom), yy);
    }
}

/// Spot, rate and yield enter local volatility by log-moneyness alone: the logarithm of spot over
/// strike, and the rate less the yield times the expiry.
pub proof fn law_local_vol_by_moneyness<T: Number, M: Elementary<T>>(
    m: M,
    v: spec_fn(T) -> real,
    surf: LocalVolSurface<T>,
    spot: T,
    rate: T,
    div_yield: T,
    spot2: T,
    rate2: T,
    yield2: T,
    i_k: int,
    j_t: int,
)
    requires
        exact(v),
        faithful(v),
        v(ln_of(m, spot.div_spec(surf.strikes@[i_k]))) + times(
            v(rate) - v(div_yield),
            v(surf.expiries@[j_t]),
        ) == v(ln_of(m, spot2.div_spec(surf.strikes@[i_k]))) + times(
            v(rate2) - v(yield2),
            v(surf.expiries@[j_t]),
        ),
    ensures
        dupire_local_vol_spec(m, surf, spot, rate, div_yield, i_k, j_t) == dupire_local_vol_spec(
            m,
            surf,
            spot2,
            rate2,
            yield2,
            i_k,
            j_t,
        ),
{
    let (k, t) = (surf.strikes@[i_k], surf.expiries@[j_t]);
    let x = ln_of(m, spot.div_spec(k)).add_spec(rate.sub_spec(div_yield).mul_spec(t));
    let y = ln_of(m, spot2.div_spec(k)).add_spec(rate2.sub_spec(yield2).mul_spec(t));
    assert(same_value(v, x, y));
}

} // verus!
