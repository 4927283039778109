//! Globally adaptive Gauss-Kronrod quadrature of a value together with its derivatives.
//! Where to subdivide is decided by the value alone; the derivatives ride along.
use crate::exact::{exact, lemma_total_one, total};
use crate::number::{
    abs, decimal_of, frac, is_finite_of, lawful, magnitude, num, rank_of, ranks_follow_order, ratio,
    regular, sum, whole, Elementary, Number,
};
use crate::select::{find_last_max, last_max, law_last_max};
use crate::solver::computes;
use vstd::prelude::*;
use vstd::std_specs::cmp::PartialOrdIs;
use vstd::std_specs::ops::{AddSpec, DivSpec, MulSpec, SubSpec};

verus! {

/// The nodes of the fifteen-point Kronrod rule on the interval from minus one to one, in
/// units of ten to the minus sixteen.
pub const GK_NODES: [i64; 15] = [
    0,
    2077849550078985,
    -2077849550078985,
    4058451513773972,
    -4058451513773972,
    5860872354676911,
    -5860872354676911,
    7415311855993945,
    -7415311855993945,
    8648644233597691,
    -8648644233597691,
    9491079123427585,
    -9491079123427585,
    9914553711208126,
    -9914553711208126,
];

/// The weights of the fifteen-point Kronrod rule, in units of ten to the minus sixteen.
pub const GK_WEIGHTS: [i64; 15] = [
    2094821410847278,
    2044329400752989,
    2044329400752989,
    1903505780647854,
    1903505780647854,
    1690047266392679,
    1690047266392679,
    1406532597155259,
    1406532597155259,
    1047900103222502,
    1047900103222502,
    630920926299786,
    630920926299786,
    229353220105292,
    229353220105292,
];

/// The nodes of the Kronrod rule that are those of the seven-point Gauss rule.
pub const G7_IDX: [usize; 7] = [0, 3, 4, 7, 8, 11, 12];

/// The weights of the seven-point Gauss rule, in units of ten to the minus sixteen.
pub const G7_WEIGHTS: [i64; 7] = [
    4179591836734694,
    3818300505051189,
    3818300505051189,
    2797053914892766,
    2797053914892766,
    1294849661688697,
    1294849661688697,
];

/// Subdivision ends when there are this many panels.
pub const MAX_PANELS: usize = 200;

/// The derivatives that ride along with an integrand: a vector space over the numbers.
pub trait Tangent<T: Number, M: Elementary<T>>: Copy {
    /// No derivative.
    spec fn zero_spec() -> Self;

    /// The sum of two.
    spec fn plus_spec(self, rhs: Self) -> Self;

    /// The difference of two.
    spec fn minus_spec(self, rhs: Self) -> Self;

    /// The product with a number.
    spec fn times_spec(self, w: T) -> Self;

    /// The quotient by a number.
    spec fn over_spec(self, w: T) -> Self;

    /// Whether a sample with these derivatives counts.
    spec fn usable_spec(self, m: M) -> bool;

    fn zero() -> (res: Self)
        requires
            regular::<T>(),
        ensures
            res == Self::zero_spec(),
    ;

    fn plus(self, rhs: Self) -> (res: Self)
        requires
            regular::<T>(),
        ensures
            res == self.plus_spec(rhs),
    ;

    fn minus(self, rhs: Self) -> (res: Self)
        requires
            regular::<T>(),
        ensures
            res == self.minus_spec(rhs),
    ;

    fn times(self, w: T) -> (res: Self)
        requires
            regular::<T>(),
        ensures
            res == self.times_spec(w),
    ;

    fn over(self, w: T) -> (res: Self)
        requires
            regular::<T>(),
        ensures
            res == self.over_spec(w),
    ;

    fn usable(self, m: M) -> (res: bool)
        requires
            lawful::<T, M>(m),
        ensures
            res == self.usable_spec(m),
    ;
}

/// The derivatives of an integrand that has none.
#[derive(Debug, Clone, Copy)]
pub struct NoTangent;

impl<T: Number, M: Elementary<T>> Tangent<T, M> for NoTangent {
    open spec fn zero_spec() -> NoTangent {
        NoTangent
    }

    open spec fn plus_spec(self, rhs: NoTangent) -> NoTangent {
        NoTangent
    }

    open spec fn minus_spec(self, rhs: NoTangent) -> NoTangent {
        NoTangent
    }

    open spec fn times_spec(self, w: T) -> NoTangent {
        NoTangent
    }

    open spec fn over_spec(self, w: T) -> NoTangent {
        NoTangent
    }

    open spec fn usable_spec(self, m: M) -> bool {
        true
    }

    fn zero() -> (res: NoTangent) {
        NoTangent
    }

    fn plus(self, rhs: NoTangent) -> (res: NoTangent) {
        NoTangent
    }

    fn minus(self, rhs: NoTangent) -> (res: NoTangent) {
        NoTangent
    }

    fn times(self, w: T) -> (res: NoTangent) {
        NoTangent
    }

    fn over(self, w: T) -> (res: NoTangent) {
        NoTangent
    }

    fn usable(self, m: M) -> (res: bool) {
        true
    }
}

/// The integral over the interval from `a` to `b`, its derivatives, and an estimate of the
/// error of the integral.
#[derive(Debug, Clone, Copy)]
pub struct Panel<T, W> {
    pub err: T,
    pub val: T,
    pub dot: W,
    pub a: T,
    pub b: T,
}

/// Node `i` of the Kronrod rule.
pub open spec fn gk_node<T: Number, M: Elementary<T>>(m: M, i: int) -> T {
    decimal_of::<T, M>(m, GK_NODES[i] as int, -16)
}

/// Weight `i` of the Kronrod rule.
pub open spec fn gk_weight<T: Number, M: Elementary<T>>(m: M, i: int) -> T {
    decimal_of::<T, M>(m, GK_WEIGHTS[i] as int, -16)
}

/// Weight `j` of the Gauss rule.
pub open spec fn g7_weight<T: Number, M: Elementary<T>>(m: M, j: int) -> T {
    decimal_of::<T, M>(m, G7_WEIGHTS[j] as int, -16)
}

/// The integrand at the nodes of the Kronrod rule, moved to the interval from `a` to `b`.
pub open spec fn node_values<T: Number, W, M: Elementary<T>>(
    m: M,
    f: spec_fn(T) -> (T, W),
    a: T,
    b: T,
) -> Seq<(T, W)> {
    let c = frac::<T>(1, 2).mul_spec(a.add_spec(b));
    let h = frac::<T>(1, 2).mul_spec(b.sub_spec(a));
    Seq::new(15, |i: int| f(c.add_spec(h.mul_spec(gk_node(m, i)))))
}

/// The weighted sum of the derivatives at the first `n` nodes.
pub open spec fn tangent_sum<T: Number, W: Tangent<T, M>, M: Elementary<T>>(
    m: M,
    fv: Seq<(T, W)>,
    n: int,
) -> W
    decreases n,
{
    if n <= 0 {
        W::zero_spec()
    } else {
        tangent_sum(m, fv, n - 1).plus_spec(fv[n - 1].1.times_spec(gk_weight(m, n - 1)))
    }
}

/// One application of the pair of rules to the interval from `a` to `b`. The integral is
/// the Kronrod rule's, the error estimate its distance from the Gauss rule's.
pub open spec fn gk15_panel_spec<T: Number, W: Tangent<T, M>, M: Elementary<T>>(
    m: M,
    f: spec_fn(T) -> (T, W),
    a: T,
    b: T,
) -> Panel<T, W> {
    let h = frac::<T>(1, 2).mul_spec(b.sub_spec(a));
    let fv = node_values(m, f, a, b);
    let k = sum(|i: int| gk_weight::<T, M>(m, i).mul_spec(fv[i].0), 15);
    let g = sum(|j: int| g7_weight::<T, M>(m, j).mul_spec(fv[G7_IDX[j] as int].0), 7);
    Panel {
        err: magnitude(k.sub_spec(g)).mul_spec(h),
        val: k.mul_spec(h),
        dot: tangent_sum(m, fv, 15).times_spec(h),
        a,
        b,
    }
}

/// The pair of rules as numbers: the nodes and weights of the Kronrod rule and the weights
/// of the Gauss rule.
#[derive(Debug)]
pub struct GkRule<T> {
    pub nodes: Vec<T>,
    pub weights: Vec<T>,
    pub gauss: Vec<T>,
}

impl<T: Number> GkRule<T> {
    /// The numbers are those of the tables.
    pub open spec fn wf<M: Elementary<T>>(self, m: M) -> bool {
        &&& self.nodes@ == Seq::new(15, |i: int| gk_node::<T, M>(m, i))
        &&& self.weights@ == Seq::new(15, |i: int| gk_weight::<T, M>(m, i))
        &&& self.gauss@ == Seq::new(7, |j: int| g7_weight::<T, M>(m, j))
    }
}

/// The pair of rules as numbers.
pub(crate) fn gk_rule<T: Number, M: Elementary<T>>(m: M) -> (res: GkRule<T>)
    requires
        lawful::<T, M>(m),
    ensures
        res.wf(m),
{
    let mut nodes: Vec<T> = Vec::new();
    let mut weights: Vec<T> = Vec::new();
    while nodes.len() < 15
        invariant
            lawful::<T, M>(m),
            nodes@.len() <= 15,
            nodes@ =~= Seq::new(nodes@.len(), |i: int| gk_node::<T, M>(m, i)),
            weights@ =~= Seq::new(nodes@.len(), |i: int| gk_weight::<T, M>(m, i)),
        decreases 15 - nodes@.len(),
    {
        let i: usize = nodes.len();
        nodes.push(m.decimal(GK_NODES[i], -16));
        weights.push(m.decimal(GK_WEIGHTS[i], -16));
    }
    let mut gauss: Vec<T> = Vec::new();
    while gauss.len() < 7
        invariant
            lawful::<T, M>(m),
            gauss@.len() <= 7,
            gauss@ =~= Seq::new(gauss@.len(), |j: int| g7_weight::<T, M>(m, j)),
        decreases 7 - gauss@.len(),
    {
        gauss.push(m.decimal(G7_WEIGHTS[gauss.len()], -16));
    }
    GkRule { nodes, weights, gauss }
}

/// One application of the pair of rules to the interval from `a` to `b`.
pub(crate) fn gk15_panel<T: Number, W: Tangent<T, M>, M: Elementary<T>, F: Fn(T) -> (T, W)>(
    m: M,
    rule: &GkRule<T>,
    f: &F,
    a: T,
    b: T,
    Ghost(fs): Ghost<spec_fn(T) -> (T, W)>,
) -> (res: Panel<T, W>)
    requires
        lawful::<T, M>(m),
        rule.wf(m),
        computes(f, fs),
    ensures
        res == gk15_panel_spec(m, fs, a, b),
{
    let c = ratio::<T>(1, 2) * (a + b);
    let h = ratio::<T>(1, 2) * (b - a);
    let ghost fv = node_values(m, fs, a, b);
    let mut vals: Vec<(T, W)> = Vec::new();
    let mut k = whole::<T>(0);
    let mut dot = W::zero();
    let mut i: usize = 0;
    let ghost kf = |i: int| gk_weight::<T, M>(m, i).mul_spec(fv[i].0);
    while i < 15
        invariant
            lawful::<T, M>(m),
            rule.wf(m),
            computes(f, fs),
            c == frac::<T>(1, 2).mul_spec(a.add_spec(b)),
            h == frac::<T>(1, 2).mul_spec(b.sub_spec(a)),
            fv == node_values(m, fs, a, b),
            kf == (|i: int| gk_weight::<T, M>(m, i).mul_spec(fv[i].0)),
            i <= 15,
            vals@.len() == i,
            forall|j: int| 0 <= j < i ==> vals@[j] == fv[j],
            k == sum(kf, i as int),
            dot == tangent_sum(m, fv, i as int),
        decreases 15 - i,
    {
        let v = f(c + h * rule.nodes[i]);
        let w = rule.weights[i];
        k = k + w * v.0;
        dot = dot.plus(v.1.times(w));
        vals.push(v);
        i = i + 1;
    }
    let mut g = whole::<T>(0);
    let mut j: usize = 0;
    let ghost gf = |j: int| g7_weight::<T, M>(m, j).mul_spec(fv[G7_IDX[j] as int].0);
    while j < 7
        invariant
            lawful::<T, M>(m),
            rule.wf(m),
            gf == (|j: int| g7_weight::<T, M>(m, j).mul_spec(fv[G7_IDX[j] as int].0)),
            j <= 7,
            vals@.len() == 15,
            forall|i: int| 0 <= i < 15 ==> vals@[i] == fv[i],
            g == sum(gf, j as int),
        decreases 7 - j,
    {
        proof {
            lemma_g7_idx(j as int);
        }
        g = g + rule.gauss[j] * vals[G7_IDX[j]].0;
        j = j + 1;
    }
    Panel { err: abs(k - g) * h, val: k * h, dot: dot.times(h), a, b }
}

/// Each node of the Gauss rule is a node of the Kronrod rule.
pub proof fn lemma_g7_idx(j: int)
    requires
        0 <= j < 7,
    ensures
        G7_IDX[j] < 15,
{
    assert(G7_IDX@ == seq![0usize, 3, 4, 7, 8, 11, 12]);
    assert(G7_IDX[j] == G7_IDX@[j]);
}

/// The panels so far, the integral, its derivatives, and the estimate of its error.
pub open spec fn first_panel<T: Number, W: Tangent<T, M>, M: Elementary<T>>(
    m: M,
    f: spec_fn(T) -> (T, W),
    a: T,
    b: T,
) -> (Seq<Panel<T, W>>, T, W, T) {
    let p = gk15_panel_spec(m, f, a, b);
    (seq![p], p.val, p.dot, p.err)
}

/// The ranks of the errors of the panels.
pub open spec fn error_ranks<T: Number, W, M: Elementary<T>>(m: M, ps: Seq<Panel<T, W>>) -> Seq<
    i64,
> {
    Seq::new(ps.len(), |i: int| rank_of(m, ps[i].err))
}

/// The panel with the largest error, the last of them if there are several, is replaced by
/// its two halves: the last panel takes its place, and the halves come last.
pub open spec fn bisect_worst<T: Number, W: Tangent<T, M>, M: Elementary<T>>(
    m: M,
    f: spec_fn(T) -> (T, W),
    s: (Seq<Panel<T, W>>, T, W, T),
) -> (Seq<Panel<T, W>>, T, W, T) {
    let (ps, total, dot, err) = s;
    let w = last_max(error_ranks(m, ps));
    let p = ps[w];
    let mid = frac::<T>(1, 2).mul_spec(p.a.add_spec(p.b));
    let l = gk15_panel_spec(m, f, p.a, mid);
    let r = gk15_panel_spec(m, f, mid, p.b);
    (
        ps.update(w, ps.last()).drop_last().push(l).push(r),
        total.add_spec(l.val.add_spec(r.val).sub_spec(p.val)),
        dot.plus_spec(l.dot.plus_spec(r.dot).minus_spec(p.dot)),
        err.add_spec(l.err.add_spec(r.err).sub_spec(p.err)),
    )
}

/// Bisection of the worst panel, for as long as the error exceeds the tolerance and there
/// are fewer than the largest number of panels.
pub open spec fn refined<T: Number, W: Tangent<T, M>, M: Elementary<T>>(
    m: M,
    f: spec_fn(T) -> (T, W),
    tol: T,
    s: (Seq<Panel<T, W>>, T, W, T),
) -> (Seq<Panel<T, W>>, T, W, T)
    decreases MAX_PANELS - s.0.len(),
{
    if s.3.is_gt(&tol) && 0 < s.0.len() < MAX_PANELS {
        proof {
            law_last_max(error_ranks(m, s.0));
        }
        refined(m, f, tol, bisect_worst(m, f, s))
    } else {
        s
    }
}

/// The integral of `f` from `a` to `b` and its derivatives.
pub open spec fn adaptive_gk_spec<T: Number, W: Tangent<T, M>, M: Elementary<T>>(
    m: M,
    f: spec_fn(T) -> (T, W),
    a: T,
    b: T,
    tol: T,
) -> (T, W) {
    let s = refined(m, f, tol, first_panel(m, f, a, b));
    (s.1, s.2)
}

/// The position of the panel with the largest error, the last of them if there are several.
fn worst_panel<T: Number, W: Tangent<T, M>, M: Elementary<T>>(m: M, ps: &Vec<Panel<T, W>>) -> (res:
    usize)
    requires
        lawful::<T, M>(m),
        ps@.len() > 0,
    ensures
        res == last_max(error_ranks(m, ps@)),
        res < ps@.len(),
{
    let mut ranks: Vec<i64> = Vec::new();
    let mut i: usize = 0;
    while i < ps.len()
        invariant
            lawful::<T, M>(m),
            i <= ps@.len(),
            ranks@.len() == i,
            forall|j: int| 0 <= j < i ==> ranks@[j] == rank_of(m, ps@[j].err),
        decreases ps@.len() - i,
    {
        ranks.push(m.rank(ps[i].err));
        i = i + 1;
    }
    proof {
        assert(ranks@ =~= error_ranks(m, ps@));
    }
    find_last_max(&ranks)
}

/// The integral of `f` from `a` to `b` and its derivatives.
pub(crate) fn adaptive_gk<T: Number, W: Tangent<T, M>, M: Elementary<T>, F: Fn(T) -> (T, W)>(
    m: M,
    f: &F,
    a: T,
    b: T,
    tol: T,
    Ghost(fs): Ghost<spec_fn(T) -> (T, W)>,
) -> (res: (T, W))
    requires
        lawful::<T, M>(m),
        computes(f, fs),
    ensures
        res == adaptive_gk_spec(m, fs, a, b, tol),
{
    let rule = gk_rule(m);
    let p0 = gk15_panel(m, &rule, f, a, b, Ghost(fs));
    let mut panels: Vec<Panel<T, W>> = Vec::new();
    panels.push(p0);
    let mut total = p0.val;
    let mut dot = p0.dot;
    let mut err = p0.err;
    proof {
        assert(panels@ =~= seq![p0]);
    }
    while err > tol && panels.len() < MAX_PANELS
        invariant
            lawful::<T, M>(m),
            rule.wf(m),
            computes(f, fs),
            panels@.len() > 0,
            refined(m, fs, tol, (panels@, total, dot, err)) == refined(
                m,
                fs,
                tol,
                first_panel(m, fs, a, b),
            ),
        decreases MAX_PANELS - panels@.len(),
    {
        let w = worst_panel(m, &panels);
        let ghost before = panels@;
        let p = panels.swap_remove(w);
        let mid = ratio::<T>(1, 2) * (p.a + p.b);
        let l = gk15_panel(m, &rule, f, p.a, mid, Ghost(fs));
        let r = gk15_panel(m, &rule, f, mid, p.b, Ghost(fs));
        total = total + (l.val + r.val - p.val);
        dot = dot.plus(l.dot.plus(r.dot).minus(p.dot));
        err = err + (l.err + r.err - p.err);
        panels.push(l);
        panels.push(r);
        proof {
            assert(panels@ =~= before.update(w as int, before.last()).drop_last().push(l).push(r));
        }
    }
    (total, dot)
}

/// An integrand over the half line seen from the unit interval: at `t` it is taken at
/// (1 - t) / t and divided by the square of `t`. At the two ends, and where the quotient is
/// not usable, it is zero.
pub open spec fn on_unit_interval<T: Number, W: Tangent<T, M>, M: Elementary<T>>(
    m: M,
    f: &spec_fn(T) -> (T, W),
    t: T,
) -> (T, W) {
    let zero = (num::<T>(0), W::zero_spec());
    let u = num::<T>(1).sub_spec(t).div_spec(t);
    let v = f(u).0.div_spec(t.mul_spec(t));
    let d = f(u).1.over_spec(t.mul_spec(t));
    if t.is_le(&num::<T>(0)) || u.is_lt(&decimal_of::<T, M>(m, 1, -12)) {
        zero
    } else if is_finite_of(m, v) && d.usable_spec(m) {
        (v, d)
    } else {
        zero
    }
}

/// The integral of `f` over the half line and its derivatives: adaptive, to eight places.
pub open spec fn gk_integrate_spec<T: Number, W: Tangent<T, M>, M: Elementary<T>>(
    m: M,
    f: spec_fn(T) -> (T, W),
) -> (T, W) {
    adaptive_gk_spec(
        m,
        |t: T| on_unit_interval(m, &f, t),
        num::<T>(0),
        num::<T>(1),
        decimal_of::<T, M>(m, 1, -8),
    )
}

/// The integral of `f` over the half line and its derivatives.
pub(crate) fn gk_integrate<T: Number, W: Tangent<T, M>, M: Elementary<T>, F: Fn(T) -> (T, W)>(
    m: M,
    f: F,
    Ghost(fs): Ghost<spec_fn(T) -> (T, W)>,
) -> (res: (T, W))
    requires
        lawful::<T, M>(m),
        computes(&f, fs),
    ensures
        res == gk_integrate_spec(m, fs),
{
    let g = |t: T| -> (r: (T, W))
        ensures
            r == on_unit_interval(m, &fs, t),
        {
            let zero = whole::<T>(0);
            if t <= zero {
                return (zero, W::zero());
            }
            let u = (whole::<T>(1) - t) / t;
            if u < m.decimal(1, -12) {
                return (zero, W::zero());
            }
            let s = f(u);
            let jac = t * t;
            let v = s.0 / jac;
            let d = s.1.over(jac);
            if m.is_finite(v) && d.usable(m) {
                (v, d)
            } else {
                (zero, W::zero())
            }
        };
    adaptive_gk(
        m,
        &g,
        whole::<T>(0),
        whole::<T>(1),
        m.decimal(1, -8),
        Ghost(|t: T| on_unit_interval(m, &fs, t)),
    )
}

/// The sum of what `g` says of the panels.
pub open spec fn over_panels<T, W>(g: spec_fn(Panel<T, W>) -> real, ps: Seq<Panel<T, W>>) -> real {
    total(|i: int| g(ps[i]), ps.len() as int)
}

/// A panel that is replaced by two adds what they are and takes away what it was.
proof fn lemma_replaced<T, W>(
    g: spec_fn(Panel<T, W>) -> real,
    ps: Seq<Panel<T, W>>,
    w: int,
    l: Panel<T, W>,
    r: Panel<T, W>,
)
    requires
        0 <= w < ps.len(),
    ensures
        over_panels(g, ps.update(w, ps.last()).drop_last().push(l).push(r)) == over_panels(g, ps)
            - g(ps[w]) + g(l) + g(r),
{
    let n = ps.len() as int;
    let q = ps.update(w, ps.last()).drop_last().push(l).push(r);
    let f = |i: int| g(ps[i]);
    let h = |i: int| g(q[i]);
    assert(total(h, n + 1) == total(h, n - 1) + g(l) + g(r)) by {
        assert(h(n) == g(r));
        assert(h(n - 1) == g(l));
        assert(total(h, n) == total(h, n - 1) + h(n - 1));
    }
    assert(f(n - 1) == g(ps[n - 1]));
    lemma_total_one(h, f, n - 1, w);
}

/// What holds of a refinement throughout: the integral and the error are the sums of those of
/// the panels, and the panels are together as wide as the interval.
pub open spec fn adds_up<T, W>(
    v: spec_fn(T) -> real,
    s: (Seq<Panel<T, W>>, T, W, T),
    width: real,
) -> bool {
    &&& 0 < s.0.len() <= MAX_PANELS
    &&& v(s.1) == over_panels(|p: Panel<T, W>| v(p.val), s.0)
    &&& v(s.3) == over_panels(|p: Panel<T, W>| v(p.err), s.0)
    &&& width == over_panels(|p: Panel<T, W>| v(p.b) - v(p.a), s.0)
}

/// A refinement keeps adding up, and ends when its error is within the tolerance or there are
/// as many panels as there may be.
proof fn lemma_refined_adds_up<T: Number, W: Tangent<T, M>, M: Elementary<T>>(
    m: M,
    v: spec_fn(T) -> real,
    f: spec_fn(T) -> (T, W),
    tol: T,
    s: (Seq<Panel<T, W>>, T, W, T),
    width: real,
)
    requires
        exact(v),
        adds_up(v, s, width),
    ensures
        adds_up(v, refined(m, f, tol, s), width),
        v(refined(m, f, tol, s).3) <= v(tol) || refined(m, f, tol, s).0.len() == MAX_PANELS,
    decreases MAX_PANELS - s.0.len(),
{
    if s.3.is_gt(&tol) && 0 < s.0.len() < MAX_PANELS {
        law_last_max(error_ranks(m, s.0));
        let w = last_max(error_ranks(m, s.0));
        let p = s.0[w];
        let mid = frac::<T>(1, 2).mul_spec(p.a.add_spec(p.b));
        let l = gk15_panel_spec(m, f, p.a, mid);
        let r = gk15_panel_spec(m, f, mid, p.b);
        lemma_replaced(|p: Panel<T, W>| v(p.val), s.0, w, l, r);
        lemma_replaced(|p: Panel<T, W>| v(p.err), s.0, w, l, r);
        lemma_replaced(|p: Panel<T, W>| v(p.b) - v(p.a), s.0, w, l, r);
        lemma_refined_adds_up(m, v, f, tol, bisect_worst(m, f, s), width);
    }
}

/// The adaptive integral adds up: without rounding, it is the sum over panels that are together
/// as wide as the interval, its error estimate is the sum of theirs, and it ends with an error
/// within the tolerance or with as many panels as there may be.
pub proof fn law_adaptive_integral_adds_up<T: Number, W: Tangent<T, M>, M: Elementary<T>>(
    m: M,
    v: spec_fn(T) -> real,
    f: spec_fn(T) -> (T, W),
    a: T,
    b: T,
    tol: T,
)
    requires
        exact(v),
    ensures
        ({
            let s = refined(m, f, tol, first_panel(m, f, a, b));
            &&& adaptive_gk_spec(m, f, a, b, tol) == (s.1, s.2)
            &&& adds_up(v, s, v(b) - v(a))
            &&& v(s.3) <= v(tol) || s.0.len() == MAX_PANELS
        }),
{
    let s = first_panel(m, f, a, b);
    let p = s.0[0];
    let gs = |q: Panel<T, W>| v(q.val);
    let ge = |q: Panel<T, W>| v(q.err);
    let gw = |q: Panel<T, W>| v(q.b) - v(q.a);
    lemma_single_panel(gs, p);
    lemma_single_panel(ge, p);
    lemma_single_panel(gw, p);
    assert(s.0 =~= seq![p]);
    lemma_refined_adds_up(m, v, f, tol, s, v(b) - v(a));
}

/// The sum over one panel.
proof fn lemma_single_panel<T, W>(g: spec_fn(Panel<T, W>) -> real, p: Panel<T, W>)
    ensures
        over_panels(g, seq![p]) == g(p),
{
    let f = |i: int| g(seq![p][i]);
    assert(total(f, 1) == total(f, 0) + f(0));
}

/// The panel that is divided next is the one with the largest error: none ranks after it; and
/// where ranks follow the order of the numbers, none has a larger error.
pub proof fn law_worst_panel_is_divided<T: Number, W, M: Elementary<T>>(
    m: M,
    ps: Seq<Panel<T, W>>,
    i: int,
)
    requires
        0 <= i < ps.len(),
    ensures
        ({
            let w = last_max(error_ranks(m, ps));
            &&& 0 <= w < ps.len()
            &&& rank_of(m, ps[i].err) <= rank_of(m, ps[w].err)
            &&& ranks_follow_order::<T, M>(m) ==> !ps[w].err.is_lt(&ps[i].err)
        }),
{
    let ranks = error_ranks(m, ps);
    law_last_max(ranks);
    assert(ranks[i] <= ranks[last_max(ranks)]);
}

} // verus!
