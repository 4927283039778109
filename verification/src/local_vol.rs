//! Local volatility: a monotone spline through the quotes, Dupire's formula on its
//! derivatives, and a surface that is checked and repaired against static arbitrage first.
use crate::number::{
    abs, decimal_of, fmax, fmin, frac, larger, lawful, ln_of, magnitude, num, ratio, regular,
    smaller, sqrt_of, whole, Elementary, Number,
};
pub use crate::repair::{check_and_repair_surface, SurfaceAudit, SurfaceViolation, ViolationKind};
use crate::types::LocalVolSurface;
use vstd::prelude::*;
use vstd::std_specs::cmp::PartialOrdIs;
use vstd::std_specs::ops::{AddSpec, DivSpec, MulSpec, SubSpec};

verus! {

/// The slope of the chord from one point to another.
pub open spec fn chord_spec<T: Number>(x0: T, y0: T, x1: T, y1: T) -> T {
    y1.sub_spec(y0).div_spec(x1.sub_spec(x0))
}

/// The slope of the chord from one point to another.
pub fn chord<T: Number>(x0: T, y0: T, x1: T, y1: T) -> (res: T)
    requires
        regular::<T>(),
    ensures
        res == chord_spec(x0, y0, x1, y1),
{
    (y1 - y0) / (x1 - x0)
}

/// The slope of the interpolant at node `i`: that of the chord at the two ends, else the
/// average of the chords on both sides; zero where one of them rises and the other falls, so
/// that a peak stays a peak.
pub open spec fn slope_spec<T: Number>(xs: Seq<T>, ys: Seq<T>, i: int) -> T {
    let n = xs.len() as int;
    if i <= 0 {
        chord_spec(xs[0], ys[0], xs[1], ys[1])
    } else if i >= n - 1 {
        chord_spec(xs[n - 2], ys[n - 2], xs[n - 1], ys[n - 1])
    } else {
        let left = chord_spec(xs[i - 1], ys[i - 1], xs[i], ys[i]);
        let right = chord_spec(xs[i], ys[i], xs[i + 1], ys[i + 1]);
        if are_opposed(left, right) {
            num::<T>(0)
        } else {
            frac::<T>(1, 2).mul_spec(left.add_spec(right))
        }
    }
}

/// One of the chords rises and the other falls.
pub open spec fn are_opposed<T: Number>(left: T, right: T) -> bool {
    let zero = num::<T>(0);
    left.is_gt(&zero) && right.is_lt(&zero) || left.is_lt(&zero) && right.is_gt(&zero)
}

/// The slope of the interpolant at node `i`.
pub fn slope<T: Number>(xs: &Vec<T>, ys: &Vec<T>, i: usize) -> (res: T)
    requires
        regular::<T>(),
        xs@.len() >= 2,
        xs@.len() == ys@.len(),
    ensures
        res == slope_spec(xs@, ys@, i as int),
{
    let n: usize = xs.len();
    if i == 0 {
        chord(xs[0], ys[0], xs[1], ys[1])
    } else if i >= n - 1 {
        chord(xs[n - 2], ys[n - 2], xs[n - 1], ys[n - 1])
    } else {
        let left = chord(xs[i - 1], ys[i - 1], xs[i], ys[i]);
        let right = chord(xs[i], ys[i], xs[i + 1], ys[i + 1]);
        let zero = whole::<T>(0);
        if left > zero && right < zero || left < zero && right > zero {
            zero
        } else {
            ratio::<T>(1, 2) * (left + right)
        }
    }
}

/// The factor that brings two slopes of the sign of the chord, whose slope is `delta`, into the
/// region in which the cubic does not overshoot: one inside the region, zero on a flat chord.
pub open spec fn limiter_spec<T: Number, M: Elementary<T>>(m: M, mi: T, mi1: T, delta: T) -> T {
    let a = mi.div_spec(delta);
    let b = mi1.div_spec(delta);
    let cond = a.mul_spec(a).add_spec(a.mul_spec(b)).add_spec(b.mul_spec(b));
    if magnitude(delta).is_lt(&decimal_of::<T, M>(m, 1, -15)) {
        num::<T>(0)
    } else {
        if cond.is_le(&num::<T>(9)) {
            num::<T>(1)
        } else {
            sqrt_of(m, num::<T>(9).div_spec(cond))
        }
    }
}

/// The factor that brings two slopes of the sign of the chord, whose slope is `delta`, into the
/// region in which the cubic does not overshoot: one inside the region, zero on a flat chord.
pub fn limiter<T: Number, M: Elementary<T>>(m: M, mi: T, mi1: T, delta: T) -> (res: T)
    requires
        lawful::<T, M>(m),
    ensures
        res == limiter_spec(m, mi, mi1, delta),
{
    let a = mi / delta;
    let b = mi1 / delta;
    let cond = a * a + a * b + b * b;
    if abs(delta) < m.decimal(1, -15) {
        whole::<T>(0)
    } else {
        if cond <= whole::<T>(9) {
            whole::<T>(1)
        } else {
            m.sqrt(whole::<T>(9) / cond)
        }
    }
}

/// The cubic with the given values and slopes at the ends of an interval of length `dx`, at
/// the fraction `t` of it.
pub open spec fn hermite_spec<T: Number>(t: T, dx: T, y0: T, y1: T, m0: T, m1: T) -> T {
    num::<T>(2).mul_spec(t).mul_spec(t).mul_spec(t).sub_spec(
        num::<T>(3).mul_spec(t).mul_spec(t),
    ).add_spec(num::<T>(1)).mul_spec(y0).add_spec(
        t.mul_spec(t).mul_spec(t).sub_spec(
            num::<T>(2).mul_spec(t).mul_spec(t),
        ).add_spec(t).mul_spec(dx).mul_spec(m0),
    ).add_spec(
        num::<T>(-2).mul_spec(t).mul_spec(t).mul_spec(t).add_spec(
            num::<T>(3).mul_spec(t).mul_spec(t),
        ).mul_spec(y1),
    ).add_spec(t.mul_spec(t).mul_spec(t).sub_spec(t.mul_spec(t)).mul_spec(dx).mul_spec(m1))
}

/// The cubic with the given values and slopes at the ends of an interval of length `dx`, at
/// the fraction `t` of it.
pub fn hermite<T: Number>(t: T, dx: T, y0: T, y1: T, m0: T, m1: T) -> (res: T)
    requires
        regular::<T>(),
    ensures
        res == hermite_spec(t, dx, y0, y1, m0, m1),
{
    (whole::<T>(2) * t * t * t - whole::<T>(3) * t * t + whole::<T>(1)) * y0
        + (t * t * t - whole::<T>(2) * t * t + t) * dx * m0
        + (whole::<T>(-2) * t * t * t + whole::<T>(3) * t * t) * y1 + (t * t * t - t * t) * dx * m1
}

/// The number of nodes at the front of `xs` that do not exceed `xq`.
pub open spec fn nodes_up_to<T: Number>(xs: Seq<T>, xq: T) -> int
    decreases xs.len(),
{
    if xs.len() == 0 || !xs[0].is_le(&xq) {
        0
    } else {
        1 + nodes_up_to(xs.drop_first(), xq)
    }
}

/// `nodes_up_to` counts a prefix: all nodes in it do not exceed `xq`, and the next does.
pub proof fn law_nodes_up_to<T: Number>(xs: Seq<T>, xq: T)
    ensures
        0 <= nodes_up_to(xs, xq) <= xs.len(),
        forall|i: int| 0 <= i < nodes_up_to(xs, xq) ==> (#[trigger] xs[i]).is_le(&xq),
        nodes_up_to(xs, xq) < xs.len() ==> !xs[nodes_up_to(xs, xq)].is_le(&xq),
    decreases xs.len(),
{
    if xs.len() > 0 && xs[0].is_le(&xq) {
        let rest = xs.drop_first();
        law_nodes_up_to(rest, xq);
        assert forall|i: int| 0 <= i < nodes_up_to(xs, xq) implies (#[trigger] xs[i]).is_le(
            &xq,
        ) by {
            if i > 0 {
                assert(xs[i] == rest[i - 1]);
            }
        }
        if nodes_up_to(xs, xq) < xs.len() {
            assert(xs[nodes_up_to(xs, xq)] == rest[nodes_up_to(rest, xq)]);
        }
    }
}

/// The number of nodes at the front of `xs` that do not exceed `xq`.
fn count_nodes<T: Number>(xs: &Vec<T>, xq: T) -> (res: usize)
    requires
        regular::<T>(),
    ensures
        res == nodes_up_to(xs@, xq),
        res <= xs@.len(),
{
    let mut i: usize = 0;
    proof {
        assert(xs@.skip(0) =~= xs@);
    }
    while i < xs.len() && xs[i] <= xq
        invariant
            regular::<T>(),
            i <= xs@.len(),
            nodes_up_to(xs@, xq) == i + nodes_up_to(xs@.skip(i as int), xq),
        decreases xs@.len() - i,
    {
        proof {
            assert(xs@.skip(i as int)[0] == xs@[i as int]);
            assert(xs@.skip(i as int).drop_first() =~= xs@.skip(i + 1));
        }
        i = i + 1;
    }
    proof {
        if i < xs@.len() {
            assert(xs@.skip(i as int)[0] == xs@[i as int]);
        }
    }
    i
}

/// The interval of the interpolant that `xq` belongs to.
pub open spec fn interval_of<T: Number>(xs: Seq<T>, xq: T) -> int {
    let n = xs.len() as int;
    let c = nodes_up_to(xs, xq);
    let last = if c < n - 1 {
        c
    } else {
        n - 1
    };
    let i = if last > 0 {
        last - 1
    } else {
        0
    };
    if i < n - 2 {
        i
    } else {
        n - 2
    }
}

/// The monotone cubic through the points of `xs` and `ys`, at `xq`: between two nodes it runs
/// from one value to the other without turning. Beyond the ends it keeps the value that it has
/// there.
pub open spec fn monotone_cubic_interp_spec<T: Number, M: Elementary<T>>(
    m: M,
    xs: Seq<T>,
    ys: Seq<T>,
    xq: T,
) -> T {
    let n = xs.len() as int;
    if n == 1 {
        ys[0]
    } else if xq.is_lt(&xs[0]) {
        ys[0]
    } else if xq.is_gt(&xs[n - 1]) {
        ys[n - 1]
    } else {
        let i = interval_of(xs, xq);
        let (x0, x1) = (xs[i], xs[i + 1]);
        let (y0, y1) = (ys[i], ys[i + 1]);
        let dx = x1.sub_spec(x0);
        let mi = slope_spec(xs, ys, i);
        let mi1 = slope_spec(xs, ys, i + 1);
        let lim = limiter_spec(m, mi, mi1, y1.sub_spec(y0).div_spec(dx));
        hermite_spec(xq.sub_spec(x0).div_spec(dx), dx, y0, y1, lim.mul_spec(mi), lim.mul_spec(mi1))
    }
}

/// The monotone cubic through the points of `xs` and `ys`, at `xq`.
pub fn monotone_cubic_interp<T: Number, M: Elementary<T>>(
    m: M,
    xs: &Vec<T>,
    ys: &Vec<T>,
    xq: T,
) -> (res: T)
    requires
        lawful::<T, M>(m),
        xs@.len() >= 1,
        xs@.len() == ys@.len(),
    ensures
        res == monotone_cubic_interp_spec(m, xs@, ys@, xq),
{
    let n: usize = xs.len();
    if n == 1 {
        return ys[0];
    }
    if xq < xs[0] {
        return ys[0];
    }
    if xq > xs[n - 1] {
        return ys[n - 1];
    }
    let c: usize = count_nodes(xs, xq);
    let last: usize = if c < n - 1 {
        c
    } else {
        n - 1
    };
    let before: usize = if last > 0 {
        last - 1
    } else {
        0
    };
    let i: usize = if before < n - 2 {
        before
    } else {
        n - 2
    };
    let (x0, x1) = (xs[i], xs[i + 1]);
    let (y0, y1) = (ys[i], ys[i + 1]);
    let dx = x1 - x0;
    let mi = slope(xs, ys, i);
    let mi1 = slope(xs, ys, i + 1);
    let lim = limiter(m, mi, mi1, (y1 - y0) / dx);
    hermite((xq - x0) / dx, dx, y0, y1, lim * mi, lim * mi1)
}

/// Total variance at a node: the square of the volatility times the expiry.
pub open spec fn total_var_spec<T: Number>(surf: LocalVolSurface<T>, i_k: int, j_t: int) -> T {
    let iv = surf.at(i_k, j_t);
    let t = surf.expiries@[j_t];
    iv.mul_spec(iv).mul_spec(t)
}

/// Total variance at a node.
pub fn total_var<T: Number>(surf: &LocalVolSurface<T>, i_k: usize, j_t: usize) -> (res: T)
    requires
        regular::<T>(),
        surf.wf(),
        i_k < surf.strikes@.len(),
        j_t < surf.expiries@.len(),
    ensures
        res == total_var_spec(*surf, i_k as int, j_t as int),
{
    let iv = surf.get(i_k, j_t);
    iv * iv * surf.expiries[j_t]
}

/// Total variance along the strikes at expiry `j_t`.
pub open spec fn strike_slice<T: Number>(surf: LocalVolSurface<T>, j_t: int) -> Seq<T> {
    Seq::new(surf.strikes@.len(), |i: int| total_var_spec(surf, i, j_t))
}

/// Total variance along the expiries at strike `i_k`.
pub open spec fn expiry_slice<T: Number>(surf: LocalVolSurface<T>, i_k: int) -> Seq<T> {
    Seq::new(surf.expiries@.len(), |j: int| total_var_spec(surf, i_k, j))
}

/// Total variance along the strikes at expiry `j_t`.
fn variances_by_strike<T: Number>(surf: &LocalVolSurface<T>, j_t: usize) -> (res: Vec<T>)
    requires
        regular::<T>(),
        surf.wf(),
        j_t < surf.expiries@.len(),
    ensures
        res@ == strike_slice(*surf, j_t as int),
{
    let mut w: Vec<T> = Vec::new();
    while w.len() < surf.strikes.len()
        invariant
            regular::<T>(),
            surf.wf(),
            j_t < surf.expiries@.len(),
            w@.len() <= surf.strikes@.len(),
            forall|i: int| 0 <= i < w@.len() ==> w@[i] == total_var_spec(*surf, i, j_t as int),
        decreases surf.strikes@.len() - w@.len(),
    {
        let x = total_var(surf, w.len(), j_t);
        w.push(x);
    }
    proof {
        assert(w@ =~= strike_slice(*surf, j_t as int));
    }
    w
}

/// Total variance along the expiries at strike `i_k`.
fn variances_by_expiry<T: Number>(surf: &LocalVolSurface<T>, i_k: usize) -> (res: Vec<T>)
    requires
        regular::<T>(),
        surf.wf(),
        i_k < surf.strikes@.len(),
    ensures
        res@ == expiry_slice(*surf, i_k as int),
{
    let mut w: Vec<T> = Vec::new();
    while w.len() < surf.expiries.len()
        invariant
            regular::<T>(),
            surf.wf(),
            i_k < surf.strikes@.len(),
            w@.len() <= surf.expiries@.len(),
            forall|j: int| 0 <= j < w@.len() ==> w@[j] == total_var_spec(*surf, i_k as int, j),
        decreases surf.expiries@.len() - w@.len(),
    {
        let x = total_var(surf, i_k, w.len());
        w.push(x);
    }
    proof {
        assert(w@ =~= expiry_slice(*surf, i_k as int));
    }
    w
}

/// How far from node `i` the spline is sampled: a hundredth of the shorter of the intervals
/// next to the node.
pub open spec fn offset_spec<T: Number>(xs: Seq<T>, i: int) -> T {
    let n = xs.len() as int;
    let gap = if i <= 0 {
        xs[1].sub_spec(xs[0])
    } else if i >= n - 1 {
        xs[n - 1].sub_spec(xs[n - 2])
    } else {
        smaller(xs[i].sub_spec(xs[i - 1]), xs[i + 1].sub_spec(xs[i]))
    };
    frac::<T>(1, 100).mul_spec(gap)
}

/// How far from node `i` the spline is sampled.
fn offset<T: Number>(xs: &Vec<T>, i: usize) -> (res: T)
    requires
        regular::<T>(),
        xs@.len() >= 2,
        i < xs@.len(),
    ensures
        res == offset_spec(xs@, i as int),
{
    let n: usize = xs.len();
    let gap = if i == 0 {
        xs[1] - xs[0]
    } else if i >= n - 1 {
        xs[n - 1] - xs[n - 2]
    } else {
        fmin(xs[i] - xs[i - 1], xs[i + 1] - xs[i])
    };
    ratio::<T>(1, 100) * gap
}

/// The slope of the spline through `xs` and `ys` at node `i`: the difference of its values
/// a small offset to either side of the node, or at an end of the grid to the side that
/// lies within it, over their distance. Zero for a single node.
pub open spec fn spline_slope_spec<T: Number, M: Elementary<T>>(
    m: M,
    xs: Seq<T>,
    ys: Seq<T>,
    i: int,
) -> T {
    let n = xs.len() as int;
    if n < 2 {
        num::<T>(0)
    } else {
        let h = offset_spec(xs, i);
        let lo = if i <= 0 {
            xs[i]
        } else {
            xs[i].sub_spec(h)
        };
        let hi = if i >= n - 1 {
            xs[i]
        } else {
            xs[i].add_spec(h)
        };
        let w_hi = monotone_cubic_interp_spec(m, xs, ys, hi);
        let w_lo = monotone_cubic_interp_spec(m, xs, ys, lo);
        w_hi.sub_spec(w_lo).div_spec(hi.sub_spec(lo))
    }
}

/// The slope of the spline through `xs` and `ys` at node `i`.
pub fn spline_slope<T: Number, M: Elementary<T>>(
    m: M,
    xs: &Vec<T>,
    ys: &Vec<T>,
    i: usize,
) -> (res: T)
    requires
        lawful::<T, M>(m),
        xs@.len() == ys@.len(),
        i < xs@.len(),
    ensures
        res == spline_slope_spec(m, xs@, ys@, i as int),
{
    let n: usize = xs.len();
    if n < 2 {
        return whole::<T>(0);
    }
    let h = offset(xs, i);
    let lo = if i == 0 {
        xs[i]
    } else {
        xs[i] - h
    };
    let hi = if i >= n - 1 {
        xs[i]
    } else {
        xs[i] + h
    };
    let w_hi = monotone_cubic_interp(m, xs, ys, hi);
    let w_lo = monotone_cubic_interp(m, xs, ys, lo);
    (w_hi - w_lo) / (hi - lo)
}

/// The node nearest to `i` that has a neighbour on either side.
pub open spec fn interior_node(n: int, i: int) -> int {
    if i < 1 {
        1
    } else if i > n - 2 {
        n - 2
    } else {
        i
    }
}

/// The curvature of the spline through `xs` and `ys` at node `i`, or at the nearest node
/// inside the grid: the second difference of its values over a small offset. Zero for fewer
/// than three nodes.
pub open spec fn spline_curvature_spec<T: Number, M: Elementary<T>>(
    m: M,
    xs: Seq<T>,
    ys: Seq<T>,
    i: int,
) -> T {
    let n = xs.len() as int;
    if n < 3 {
        num::<T>(0)
    } else {
        let c = interior_node(n, i);
        let x = xs[c];
        let h = offset_spec(xs, c);
        let w_hi = monotone_cubic_interp_spec(m, xs, ys, x.add_spec(h));
        let w_0 = monotone_cubic_interp_spec(m, xs, ys, x);
        let w_lo = monotone_cubic_interp_spec(m, xs, ys, x.sub_spec(h));
        w_hi.sub_spec(num::<T>(2).mul_spec(w_0)).add_spec(w_lo).div_spec(h.mul_spec(h))
    }
}

/// The curvature of the spline through `xs` and `ys` at node `i`.
pub fn spline_curvature<T: Number, M: Elementary<T>>(
    m: M,
    xs: &Vec<T>,
    ys: &Vec<T>,
    i: usize,
) -> (res: T)
    requires
        lawful::<T, M>(m),
        xs@.len() == ys@.len(),
        i < xs@.len(),
    ensures
        res == spline_curvature_spec(m, xs@, ys@, i as int),
{
    let n: usize = xs.len();
    if n < 3 {
        return whole::<T>(0);
    }
    let c: usize = if i < 1 {
        1
    } else if i > n - 2 {
        n - 2
    } else {
        i
    };
    let x = xs[c];
    let h = offset(xs, c);
    let w_hi = monotone_cubic_interp(m, xs, ys, x + h);
    let w_0 = monotone_cubic_interp(m, xs, ys, x);
    let w_lo = monotone_cubic_interp(m, xs, ys, x - h);
    (w_hi - whole::<T>(2) * w_0 + w_lo) / (h * h)
}

/// The derivative of total variance in expiry at a node.
pub fn dvar_dt<T: Number, M: Elementary<T>>(
    m: M,
    surf: &LocalVolSurface<T>,
    i_k: usize,
    j_t: usize,
) -> (res: T)
    requires
        lawful::<T, M>(m),
        surf.wf(),
        i_k < surf.strikes@.len(),
        j_t < surf.expiries@.len(),
    ensures
        res == spline_slope_spec(
            m,
            surf.expiries@,
            expiry_slice(*surf, i_k as int),
            j_t as int,
        ),
{
    let w = variances_by_expiry(surf, i_k);
    spline_slope(m, &surf.expiries, &w, j_t)
}

/// The derivative of total variance in strike at a node.
pub fn dvar_dk<T: Number, M: Elementary<T>>(
    m: M,
    surf: &LocalVolSurface<T>,
    i_k: usize,
    j_t: usize,
) -> (res: T)
    requires
        lawful::<T, M>(m),
        surf.wf(),
        i_k < surf.strikes@.len(),
        j_t < surf.expiries@.len(),
    ensures
        res == spline_slope_spec(m, surf.strikes@, strike_slice(*surf, j_t as int), i_k as int),
{
    let w = variances_by_strike(surf, j_t);
    spline_slope(m, &surf.strikes, &w, i_k)
}

/// The second derivative of total variance in strike at a node.
pub fn d2var_dk2<T: Number, M: Elementary<T>>(
    m: M,
    surf: &LocalVolSurface<T>,
    i_k: usize,
    j_t: usize,
) -> (res: T)
    requires
        lawful::<T, M>(m),
        surf.wf(),
        i_k < surf.strikes@.len(),
        j_t < surf.expiries@.len(),
    ensures
        res == spline_curvature_spec(
            m,
            surf.strikes@,
            strike_slice(*surf, j_t as int),
            i_k as int,
        ),
{
    let w = variances_by_strike(surf, j_t);
    spline_curvature(m, &surf.strikes, &w, i_k)
}

/// Dupire's formula in total variance: the local volatility from total variance `w`, its
/// derivatives, and the log-moneyness `x`. Zero where the formula degenerates.
pub open spec fn dupire_formula_spec<T: Number, M: Elementary<T>>(
    m: M,
    w: T,
    x: T,
    dw_dt: T,
    dw_dk: T,
    d2w_dk2: T,
) -> T {
    let denom = num::<T>(1).sub_spec(x.div_spec(w).mul_spec(dw_dk)).add_spec(
        frac::<T>(1, 4).mul_spec(
            frac::<T>(-1, 4).sub_spec(num::<T>(1).div_spec(w)).add_spec(
                x.mul_spec(x).div_spec(w.mul_spec(w)),
            ),
        ).mul_spec(dw_dk).mul_spec(dw_dk),
    ).add_spec(frac::<T>(1, 2).mul_spec(d2w_dk2));
    if denom.is_le(&decimal_of::<T, M>(m, 1, -10)) || dw_dt.is_le(&num::<T>(0)) {
        num::<T>(0)
    } else {
        sqrt_of(m, larger(dw_dt.div_spec(denom), num::<T>(0)))
    }
}

/// Dupire's formula in total variance: the local volatility from total variance `w`, its
/// derivatives, and the log-moneyness `x`. Zero where the formula degenerates.
pub fn dupire_formula<T: Number, M: Elementary<T>>(
    m: M,
    w: T,
    x: T,
    dw_dt: T,
    dw_dk: T,
    d2w_dk2: T,
) -> (res: T)
    requires
        lawful::<T, M>(m),
    ensures
        res == dupire_formula_spec(m, w, x, dw_dt, dw_dk, d2w_dk2),
{
    let denom = whole::<T>(1) - x / w * dw_dk
        + ratio::<T>(1, 4) * (ratio::<T>(-1, 4) - whole::<T>(1) / w + x * x / (w * w)) * dw_dk
            * dw_dk + ratio::<T>(1, 2) * d2w_dk2;
    if denom <= m.decimal(1, -10) || dw_dt <= whole::<T>(0) {
        whole::<T>(0)
    } else {
        m.sqrt(fmax(dw_dt / denom, whole::<T>(0)))
    }
}

/// The local volatility at a node of the surface.
pub open spec fn dupire_local_vol_spec<T: Number, M: Elementary<T>>(
    m: M,
    surf: LocalVolSurface<T>,
    spot: T,
    rate: T,
    div_yield: T,
    i_k: int,
    j_t: int,
) -> T {
    let k = surf.strikes@[i_k];
    let t = surf.expiries@[j_t];
    dupire_formula_spec(
        m,
        total_var_spec(surf, i_k, j_t),
        ln_of(m, spot.div_spec(k)).add_spec(rate.sub_spec(div_yield).mul_spec(t)),
        spline_slope_spec(m, surf.expiries@, expiry_slice(surf, i_k), j_t),
        spline_slope_spec(m, surf.strikes@, strike_slice(surf, j_t), i_k),
        spline_curvature_spec(m, surf.strikes@, strike_slice(surf, j_t), i_k),
    )
}

/// The local volatility at a node of the surface.
pub fn dupire_local_vol<T: Number, M: Elementary<T>>(
    m: M,
    surf: &LocalVolSurface<T>,
    spot: T,
    rate: T,
    div_yield: T,
    i_k: usize,
    j_t: usize,
) -> (res: T)
    requires
        lawful::<T, M>(m),
        surf.wf(),
        i_k < surf.strikes@.len(),
        j_t < surf.expiries@.len(),
    ensures
        res == dupire_local_vol_spec(m, *surf, spot, rate, div_yield, i_k as int, j_t as int),
{
    let k = surf.strikes[i_k];
    let t = surf.expiries[j_t];
    let w = total_var(surf, i_k, j_t);
    let x = m.ln(spot / k) + (rate - div_yield) * t;
    let dw_dt = dvar_dt(m, surf, i_k, j_t);
    let dw_dk = dvar_dk(m, surf, i_k, j_t);
    let d2w_dk2 = d2var_dk2(m, surf, i_k, j_t);
    dupire_formula(m, w, x, dw_dt, dw_dk, d2w_dk2)
}

} // verus!
