//! What holds of forward-mode derivatives without rounding: the value that rides along is the
//! price itself, and five derivatives computed together are those computed one at a time.
use crate::ad::{
    cexp5_spec, cexp_spec, cln5_spec, cln_spec, csqrt5_spec, csqrt_spec, direction,
    dual5_integral_spec, dual5_kernel, dual_integral_spec, dual_jumps_spec, dual_kernel,
    dual_params5_spec, dual_params_spec, forward_pass5_spec, forward_pass_spec, Dual5Kit, DualKit,
    Gradient, JumpSpec, Slope,
};
use crate::characteristic::{
    cf_integrand_spec, complex_exp_spec, complex_ln_spec, fast_csqrt_spec, jump_cf_spec,
    law_csqrt_squares, model_cf_spec, real_part_spec, sign_exact, stable_cf_spec, unit_i_spec,
    ComplexKit, JumpParams, RealKit,
};
use crate::complex::{scale_spec, Complex};
use crate::dual::{Dual, Dual5};
use crate::exact::{
    exact, exact_at_zero, faithful, hypot_exact, lemma_difference_of_squares, lemma_half,
    lemma_literal, lemma_multiple, lemma_same_square, lemma_square, lemma_times_add,
    lemma_times_assoc, lemma_times_cancel, lemma_times_comm, lemma_times_neg, lemma_times_sub,
    lemma_times_unit, same_value, sqrt_exact, times,
};
use crate::heston::{from_call_spec, heston_price_spec, inversion_call_spec, kernel};
use crate::linalg::lemma_sum_equal;
use crate::number::{
    cos_of, decimal_of, exp_of, frac, hypot_of, is_finite_of, is_sign_positive_of, larger, ln_of,
    num, sin_of, sqrt_of, Arith, Elementary, Number,
};
use crate::quadrature::{
    bisect_worst, error_ranks, first_panel, g7_weight, gk15_panel_spec, gk_integrate_spec, gk_node,
    gk_weight, lemma_g7_idx, node_values, on_unit_interval, refined, tangent_sum, NoTangent, Panel,
    Tangent, G7_IDX, MAX_PANELS,
};
use crate::select::{last_max, law_last_max};
use crate::types::{HestonParams, OptionType};
use vstd::prelude::*;
use vstd::std_specs::cmp::{PartialEqIs, PartialEqSpec, PartialOrdIs};
use vstd::std_specs::ops::{AddSpec, DivSpec, MulSpec, NegSpec, SubSpec};

verus! {

/// Every number is finite.
pub open spec fn all_finite<T, M: Elementary<T>>(m: M) -> bool {
    forall|x: T| #[trigger] is_finite_of(m, x)
}

/// What the laws of this module ask of arithmetic and of the elementary functions.
pub open spec fn ideal<T: Number, M: Elementary<T>>(m: M, v: spec_fn(T) -> real) -> bool {
    &&& exact(v)
    &&& faithful(v)
    &&& sqrt_exact(m, v)
    &&& hypot_exact(m, v)
    &&& all_finite::<T, M>(m)
}

/// The value of a dual number.
pub open spec fn value_of<T>() -> spec_fn(Dual<T>) -> T {
    |x: Dual<T>| x.val
}

/// A number with five derivatives in direction `n`.
pub open spec fn in_direction<T: Number>(n: int) -> spec_fn(Dual5<T>) -> Dual<T> {
    |x: Dual5<T>| direction(x, n)
}

/// The length of a vector is the root of the sum of the squares.
proof fn lemma_length<T: Number, M: Elementary<T>>(m: M, v: spec_fn(T) -> real, a: T, b: T)
    requires
        ideal(m, v),
    ensures
        sqrt_of(m, a.mul_spec(a).add_spec(b.mul_spec(b))) == hypot_of(m, a, b),
{
    let s = a.mul_spec(a).add_spec(b.mul_spec(b));
    let h = hypot_of(m, a, b);
    lemma_square(v(a));
    lemma_square(v(b));
    assert(v(h) >= 0real);
    lemma_same_square(v(sqrt_of(m, s)), v(h));
    assert(same_value(v, sqrt_of(m, s), h));
}

/// A complex number with `h` applied to both parts.
pub open spec fn lifted<N, O>(h: spec_fn(N) -> O, z: Complex<N>) -> Complex<O> {
    Complex { re: h(z.re), im: h(z.im) }
}

/// `h` takes one kind of number to another, and the arithmetic and the kit of the one to those
/// of the other.
pub open spec fn carries<N: Arith, O: Arith, K: ComplexKit<N>, L: ComplexKit<O>>(
    k: K,
    l: L,
    h: spec_fn(N) -> O,
) -> bool {
    &&& forall|x: N, y: N| h(#[trigger] x.add_spec(y)) == h(x).add_spec(h(y))
    &&& forall|x: N, y: N| h(#[trigger] x.sub_spec(y)) == h(x).sub_spec(h(y))
    &&& forall|x: N, y: N| h(#[trigger] x.mul_spec(y)) == h(x).mul_spec(h(y))
    &&& forall|x: N, y: N| h(#[trigger] x.div_spec(y)) == h(x).div_spec(h(y))
    &&& forall|x: N| h(#[trigger] x.neg_spec()) == h(x).neg_spec()
    &&& forall|n: int| h(#[trigger] k.whole_spec(n)) == l.whole_spec(n)
    &&& forall|n: int, d: int| h(#[trigger] k.ratio_spec(n, d)) == l.ratio_spec(n, d)
    &&& forall|x: N| h(#[trigger] k.exp_spec(x)) == l.exp_spec(h(x))
    &&& forall|z: Complex<N>|
        lifted(h, #[trigger] k.cexp_spec(z)) == l.cexp_spec(lifted(h, z))
    &&& forall|z: Complex<N>| lifted(h, #[trigger] k.cln_spec(z)) == l.cln_spec(lifted(h, z))
    &&& forall|z: Complex<N>|
        lifted(h, #[trigger] k.csqrt_spec(z)) == l.csqrt_spec(lifted(h, z))
}

/// What carries arithmetic carries complex arithmetic.
proof fn lemma_lifted<N: Arith, O: Arith, K: ComplexKit<N>, L: ComplexKit<O>>(
    k: K,
    l: L,
    h: spec_fn(N) -> O,
    x: Complex<N>,
    y: Complex<N>,
    c: N,
)
    requires
        carries(k, l, h),
    ensures
        lifted(h, x.add_spec(y)) == lifted(h, x).add_spec(lifted(h, y)),
        lifted(h, x.sub_spec(y)) == lifted(h, x).sub_spec(lifted(h, y)),
        lifted(h, x.mul_spec(y)) == lifted(h, x).mul_spec(lifted(h, y)),
        lifted(h, x.div_spec(y)) == lifted(h, x).div_spec(lifted(h, y)),
        lifted(h, x.neg_spec()) == lifted(h, x).neg_spec(),
        lifted(h, scale_spec(c, x)) == scale_spec(h(c), lifted(h, x)),
{
}

/// The parameters with `h` applied to each.
pub open spec fn params_under<N, O>(h: spec_fn(N) -> O, p: HestonParams<N>) -> HestonParams<O> {
    HestonParams {
        v0: h(p.v0),
        kappa: h(p.kappa),
        theta: h(p.theta),
        sigma: h(p.sigma),
        rho: h(p.rho),
    }
}

/// The jumps, if there are any, with `h` applied to each parameter.
pub open spec fn jumps_under<N, O>(h: spec_fn(N) -> O, jump: Option<JumpParams<N>>) -> Option<
    JumpParams<O>,
> {
    match jump {
        None => None,
        Some(j) => Some(
            JumpParams { lambda: h(j.lambda), mu_j: h(j.mu_j), sigma_j: h(j.sigma_j) },
        ),
    }
}

/// The norming constant, if there is one, with `h` applied to both parts.
pub open spec fn norm_under<N, O>(h: spec_fn(N) -> O, norm: Option<Complex<N>>) -> Option<
    Complex<O>,
> {
    match norm {
        None => None,
        Some(c) => Some(lifted(h, c)),
    }
}

/// Heston's characteristic function is carried along.
proof fn lemma_stable_cf_carried<N: Arith, O: Arith, K: ComplexKit<N>, L: ComplexKit<O>>(
    k: K,
    l: L,
    h: spec_fn(N) -> O,
    phi: Complex<N>,
    t: N,
    mu: N,
    p: HestonParams<N>,
)
    requires
        carries(k, l, h),
    ensures
        lifted(h, stable_cf_spec(k, phi, t, mu, p)) == stable_cf_spec(
            l,
            lifted(h, phi),
            h(t),
            h(mu),
            params_under(h, p),
        ),
{
    let i = unit_i_spec(k);
    let one = real_part_spec(k, k.whole_spec(1));
    let two = k.whole_spec(2);
    let s2 = p.sigma.mul_spec(p.sigma);
    let kap = real_part_spec(k, p.kappa);
    let rs = p.rho.mul_spec(p.sigma);
    let a1 = scale_spec(rs, phi);
    let a2 = a1.mul_spec(i);
    let xi = kap.sub_spec(a2);
    lemma_lifted(k, l, h, phi, i, rs);
    lemma_lifted(k, l, h, a1, i, rs);
    lemma_lifted(k, l, h, kap, a2, rs);
    let xi2 = xi.mul_spec(xi);
    let sp = scale_spec(s2, phi);
    let pi = phi.add_spec(i);
    let e = sp.mul_spec(pi);
    let rad = xi2.add_spec(e);
    lemma_lifted(k, l, h, xi, xi, rs);
    lemma_lifted(k, l, h, phi, i, s2);
    lemma_lifted(k, l, h, sp, pi, s2);
    lemma_lifted(k, l, h, xi2, e, s2);
    let d = k.csqrt_spec(rad);
    let lo = xi.sub_spec(d);
    let hi = xi.add_spec(d);
    let g = lo.div_spec(hi);
    lemma_lifted(k, l, h, xi, d, s2);
    lemma_lifted(k, l, h, lo, hi, s2);
    let nd = d.neg_spec();
    let dt = scale_spec(t, nd);
    lemma_lifted(k, l, h, d, d, t);
    lemma_lifted(k, l, h, nd, nd, t);
    let edt = k.cexp_spec(dt);
    let ge = g.mul_spec(edt);
    let num_a = ge.sub_spec(one);
    let den_a = g.sub_spec(one);
    let a = num_a.div_spec(den_a);
    lemma_lifted(k, l, h, g, edt, t);
    lemma_lifted(k, l, h, ge, one, t);
    lemma_lifted(k, l, h, g, one, t);
    lemma_lifted(k, l, h, num_a, den_a, t);
    let lna = k.cln_spec(a);
    let lot = scale_spec(t, lo);
    let l2 = scale_spec(two, lna);
    let c0 = lot.sub_spec(l2);
    let kt = p.kappa.mul_spec(p.theta).div_spec(s2);
    let c = scale_spec(kt, c0);
    lemma_lifted(k, l, h, lo, lo, t);
    lemma_lifted(k, l, h, lna, lna, two);
    lemma_lifted(k, l, h, lot, l2, two);
    lemma_lifted(k, l, h, c0, c0, kt);
    let lov = scale_spec(p.v0, lo);
    let oe = one.sub_spec(edt);
    let up = lov.mul_spec(oe);
    let og = one.sub_spec(ge);
    let down = scale_spec(s2, og);
    let dd = up.div_spec(down);
    lemma_lifted(k, l, h, lo, lo, p.v0);
    lemma_lifted(k, l, h, one, edt, t);
    lemma_lifted(k, l, h, lov, oe, t);
    lemma_lifted(k, l, h, one, ge, t);
    lemma_lifted(k, l, h, og, og, s2);
    lemma_lifted(k, l, h, up, down, t);
    let mp = scale_spec(mu, phi);
    let mpi = mp.mul_spec(i);
    let mt = scale_spec(t, mpi);
    let w0 = mt.add_spec(c);
    let w = w0.add_spec(dd);
    lemma_lifted(k, l, h, phi, phi, mu);
    lemma_lifted(k, l, h, mp, i, mu);
    lemma_lifted(k, l, h, mpi, mpi, t);
    lemma_lifted(k, l, h, mt, c, t);
    lemma_lifted(k, l, h, w0, dd, t);
}

/// The factor of the jumps is carried along.
proof fn lemma_jump_cf_carried<N: Arith, O: Arith, K: ComplexKit<N>, L: ComplexKit<O>>(
    k: K,
    l: L,
    h: spec_fn(N) -> O,
    phi: Complex<N>,
    t: N,
    j: JumpParams<N>,
)
    requires
        carries(k, l, h),
    ensures
        lifted(h, jump_cf_spec(k, phi, t, j)) == jump_cf_spec(
            l,
            lifted(h, phi),
            h(t),
            JumpParams { lambda: h(j.lambda), mu_j: h(j.mu_j), sigma_j: h(j.sigma_j) },
        ),
{
    let i = unit_i_spec(k);
    let one = real_part_spec(k, k.whole_spec(1));
    let half = k.ratio_spec(1, 2);
    let lead = k.exp_spec(j.mu_j.add_spec(half.mul_spec(j.sigma_j).mul_spec(j.sigma_j)));
    let comp = lead.sub_spec(k.whole_spec(1));
    let hphi = scale_spec(half, phi);
    let hp = hphi.mul_spec(phi);
    let hs = scale_spec(j.sigma_j, hp);
    let spread = scale_spec(j.sigma_j, hs);
    lemma_lifted(k, l, h, phi, phi, half);
    lemma_lifted(k, l, h, hphi, phi, half);
    lemma_lifted(k, l, h, hp, hp, j.sigma_j);
    lemma_lifted(k, l, h, hs, hs, j.sigma_j);
    let pi = phi.mul_spec(i);
    let mp = scale_spec(j.mu_j, pi);
    let e = mp.sub_spec(spread);
    lemma_lifted(k, l, h, phi, i, half);
    lemma_lifted(k, l, h, pi, pi, j.mu_j);
    lemma_lifted(k, l, h, mp, spread, half);
    let jump = k.cexp_spec(e);
    let ip = i.mul_spec(phi);
    let ci = scale_spec(comp, ip);
    let jo = jump.sub_spec(one);
    let w = jo.sub_spec(ci);
    let lt = j.lambda.mul_spec(t);
    let z = scale_spec(lt, w);
    lemma_lifted(k, l, h, i, phi, half);
    lemma_lifted(k, l, h, ip, ip, comp);
    lemma_lifted(k, l, h, jump, one, half);
    lemma_lifted(k, l, h, jo, ci, half);
    lemma_lifted(k, l, h, w, w, lt);
}

/// The characteristic function of a model is carried along.
proof fn lemma_model_cf_carried<N: Arith, O: Arith, K: ComplexKit<N>, L: ComplexKit<O>>(
    k: K,
    l: L,
    h: spec_fn(N) -> O,
    phi: Complex<N>,
    t: N,
    mu: N,
    p: HestonParams<N>,
    jump: Option<JumpParams<N>>,
)
    requires
        carries(k, l, h),
    ensures
        lifted(h, model_cf_spec(k, phi, t, mu, p, jump)) == model_cf_spec(
            l,
            lifted(h, phi),
            h(t),
            h(mu),
            params_under(h, p),
            jumps_under(h, jump),
        ),
{
    lemma_stable_cf_carried(k, l, h, phi, t, mu, p);
    match jump {
        None => {},
        Some(j) => {
            lemma_jump_cf_carried(k, l, h, phi, t, j);
            lemma_lifted(
                k,
                l,
                h,
                stable_cf_spec(k, phi, t, mu, p),
                jump_cf_spec(k, phi, t, j),
                t,
            );
        },
    }
}

/// What carries arithmetic and the kit carries the kernel of the inversion.
pub proof fn law_kernel_carried<N: Arith, O: Arith, K: ComplexKit<N>, L: ComplexKit<O>>(
    k: K,
    l: L,
    h: spec_fn(N) -> O,
    u: N,
    x: N,
    t: N,
    mu: N,
    p: HestonParams<N>,
    jump: Option<JumpParams<N>>,
    norm: Option<Complex<N>>,
)
    requires
        carries(k, l, h),
    ensures
        h(cf_integrand_spec(k, u, x, t, mu, p, jump, norm)) == cf_integrand_spec(
            l,
            h(u),
            h(x),
            h(t),
            h(mu),
            params_under(h, p),
            jumps_under(h, jump),
            norm_under(h, norm),
        ),
{
    let zero = k.whole_spec(0);
    let minus = k.whole_spec(-1);
    let cf = match norm {
        None => {
            lemma_model_cf_carried(k, l, h, Complex { re: u, im: zero }, t, mu, p, jump);
            model_cf_spec(k, Complex { re: u, im: zero }, t, mu, p, jump)
        },
        Some(c) => {
            let f = model_cf_spec(k, Complex { re: u, im: minus }, t, mu, p, jump);
            lemma_model_cf_carried(k, l, h, Complex { re: u, im: minus }, t, mu, p, jump);
            lemma_lifted(k, l, h, f, c, t);
            f.div_spec(c)
        },
    };
    let z = Complex { re: zero, im: u.mul_spec(x) };
    let e = k.cexp_spec(z);
    let numer = e.mul_spec(cf);
    lemma_lifted(k, l, h, e, cf, t);
    lemma_lifted(k, l, h, numer, Complex { re: zero, im: u }, t);
}

/// The exponential, the logarithm and the square root of a dual number have the values of
/// those of its value.
proof fn lemma_kit_values<T: Number, M: Elementary<T>>(
    m: M,
    v: spec_fn(T) -> real,
    z: Complex<Dual<T>>,
)
    requires
        ideal(m, v),
    ensures
        lifted(value_of(), cexp_spec(m, z)) == complex_exp_spec(m, lifted(value_of(), z)),
        lifted(value_of(), cln_spec(m, z)) == complex_ln_spec(m, lifted(value_of(), z)),
        lifted(value_of(), csqrt_spec(m, z)) == fast_csqrt_spec(m, lifted(value_of(), z)),
{
    let (a, b) = (z.re.val, z.im.val);
    assert(is_finite_of(m, a));
    assert(is_finite_of(m, b));
    assert(a.eq_spec(&a));
    lemma_length(m, v, a, b);
    let r = hypot_of(m, a, b);
    let half = frac::<T>(1, 2);
    let two = num::<T>(2);
    lemma_half::<T>(v);
    if !b.is_eq(&num::<T>(0)) {
        let s = if a.is_ge(&num::<T>(0)) {
            r.add_spec(a)
        } else {
            r.sub_spec(a)
        };
        lemma_literal(1real / 2real, v(s));
        lemma_literal(2real, v(s.div_spec(two)));
        assert(same_value(v, s.mul_spec(half), s.div_spec(two)));
        let part = fast_csqrt_spec(m, lifted(value_of(), z));
        let side = if a.is_ge(&num::<T>(0)) {
            part.re
        } else {
            part.im
        };
        lemma_times_comm(v(side), v(two));
        assert(same_value(v, side.mul_spec(two), two.mul_spec(side)));
    } else if v(a) != 0real {
        let zero = num::<T>(0);
        let root = if v(a) > 0real {
            sqrt_of(m, a)
        } else if is_sign_positive_of(m, b) {
            sqrt_of(m, a.neg_spec())
        } else {
            sqrt_of(m, a.neg_spec()).neg_spec()
        };
        let q = b.div_spec(root.mul_spec(two));
        lemma_times_unit(v(sqrt_of(m, a)));
        lemma_times_unit(v(sqrt_of(m, a.neg_spec())));
        lemma_literal(2real, v(root));
        lemma_times_unit(2real * v(root));
        lemma_times_cancel(v(q), 0real, 2real * v(root));
        assert(same_value(v, q, b));
        assert(same_value(v, q, zero));
    }
}

/// The value of a dual number carries arithmetic and the kit to those of plain numbers.
proof fn lemma_values_carried<T: Number, M: Elementary<T>>(m: M, v: spec_fn(T) -> real)
    requires
        ideal(m, v),
    ensures
        carries(DualKit { m }, RealKit { m }, value_of::<T>()),
{
    let k = DualKit { m };
    let h = value_of::<T>();
    assert forall|z: Complex<Dual<T>>|
        lifted(h, #[trigger] k.cexp_spec(z)) == RealKit { m }.cexp_spec(lifted(h, z)) by {
        lemma_kit_values(m, v, z);
    }
    assert forall|z: Complex<Dual<T>>|
        lifted(h, #[trigger] k.cln_spec(z)) == RealKit { m }.cln_spec(lifted(h, z)) by {
        lemma_kit_values(m, v, z);
    }
    assert forall|z: Complex<Dual<T>>|
        lifted(h, #[trigger] k.csqrt_spec(z)) == RealKit { m }.csqrt_spec(lifted(h, z)) by {
        lemma_kit_values(m, v, z);
    }
}

/// `pr` takes derivatives of one kind to derivatives of another, and arithmetic on them to
/// arithmetic on them; all of them are usable.
pub open spec fn projects<T: Number, W: Tangent<T, M>, X: Tangent<T, M>, M: Elementary<T>>(
    m: M,
    pr: spec_fn(W) -> X,
) -> bool {
    &&& pr(W::zero_spec()) == X::zero_spec()
    &&& forall|a: W, b: W| pr(#[trigger] a.plus_spec(b)) == pr(a).plus_spec(pr(b))
    &&& forall|a: W, b: W| pr(#[trigger] a.minus_spec(b)) == pr(a).minus_spec(pr(b))
    &&& forall|a: W, k: T| pr(#[trigger] a.times_spec(k)) == pr(a).times_spec(k)
    &&& forall|a: W, k: T| pr(#[trigger] a.over_spec(k)) == pr(a).over_spec(k)
    &&& forall|w: W| #[trigger] w.usable_spec(m)
    &&& forall|x: X| #[trigger] x.usable_spec(m)
}

/// A value and the projection of its derivatives.
pub open spec fn projected<T, W, X>(pr: spec_fn(W) -> X, r: (T, W)) -> (T, X) {
    (r.0, pr(r.1))
}

/// A panel with the projection of its derivatives.
pub open spec fn projected_panel<T, W, X>(pr: spec_fn(W) -> X, p: Panel<T, W>) -> Panel<T, X> {
    Panel { err: p.err, val: p.val, dot: pr(p.dot), a: p.a, b: p.b }
}

/// A refinement with the projections of its derivatives.
pub open spec fn projected_state<T, W, X>(
    pr: spec_fn(W) -> X,
    s: (Seq<Panel<T, W>>, T, W, T),
) -> (Seq<Panel<T, X>>, T, X, T) {
    (Seq::new(s.0.len(), |i: int| projected_panel(pr, s.0[i])), s.1, pr(s.2), s.3)
}

/// The weighted sum of projections is the projection of the weighted sum.
proof fn lemma_projected_sum<T: Number, W: Tangent<T, M>, X: Tangent<T, M>, M: Elementary<T>>(
    m: M,
    pr: spec_fn(W) -> X,
    fv: Seq<(T, W)>,
    gv: Seq<(T, X)>,
    n: int,
)
    requires
        projects::<T, W, X, M>(m, pr),
        forall|i: int| 0 <= i < n ==> #[trigger] gv[i] == projected(pr, fv[i]),
    ensures
        tangent_sum(m, gv, n) == pr(tangent_sum(m, fv, n)),
    decreases n,
{
    if n > 0 {
        lemma_projected_sum(m, pr, fv, gv, n - 1);
        assert(gv[n - 1] == projected(pr, fv[n - 1]));
    }
}

/// The panel of a projected integrand is the projection of the panel.
proof fn lemma_projected_panel<T: Number, W: Tangent<T, M>, X: Tangent<T, M>, M: Elementary<T>>(
    m: M,
    pr: spec_fn(W) -> X,
    f: spec_fn(T) -> (T, W),
    g: spec_fn(T) -> (T, X),
    a: T,
    b: T,
)
    requires
        projects::<T, W, X, M>(m, pr),
        forall|u: T| #[trigger] g(u) == projected(pr, f(u)),
    ensures
        gk15_panel_spec(m, g, a, b) == projected_panel(pr, gk15_panel_spec(m, f, a, b)),
{
    let fv = node_values(m, f, a, b);
    let gv = node_values(m, g, a, b);
    assert forall|i: int| 0 <= i < 15 implies #[trigger] gv[i] == projected(pr, fv[i]) by {
        let c = frac::<T>(1, 2).mul_spec(a.add_spec(b));
        let h = frac::<T>(1, 2).mul_spec(b.sub_spec(a));
        let u = c.add_spec(h.mul_spec(gk_node(m, i)));
        assert(g(u) == projected(pr, f(u)));
    }
    lemma_sum_equal(
        |i: int| gk_weight::<T, M>(m, i).mul_spec(fv[i].0),
        |i: int| gk_weight::<T, M>(m, i).mul_spec(gv[i].0),
        15,
    );
    assert forall|j: int| 0 <= j < 7 implies fv[G7_IDX[j] as int].0 == gv[G7_IDX[j] as int].0 by {
        lemma_g7_idx(j);
    }
    lemma_sum_equal(
        |j: int| g7_weight::<T, M>(m, j).mul_spec(fv[G7_IDX[j] as int].0),
        |j: int| g7_weight::<T, M>(m, j).mul_spec(gv[G7_IDX[j] as int].0),
        7,
    );
    lemma_projected_sum(m, pr, fv, gv, 15);
}

/// The refinement of a projected integrand is the projection of the refinement.
proof fn lemma_projected_refined<T: Number, W: Tangent<T, M>, X: Tangent<T, M>, M: Elementary<T>>(
    m: M,
    pr: spec_fn(W) -> X,
    f: spec_fn(T) -> (T, W),
    g: spec_fn(T) -> (T, X),
    tol: T,
    s: (Seq<Panel<T, W>>, T, W, T),
)
    requires
        projects::<T, W, X, M>(m, pr),
        forall|u: T| #[trigger] g(u) == projected(pr, f(u)),
    ensures
        refined(m, g, tol, projected_state(pr, s)) == projected_state(pr, refined(m, f, tol, s)),
    decreases MAX_PANELS - s.0.len(),
{
    let r = projected_state(pr, s);
    if s.3.is_gt(&tol) && 0 < s.0.len() < MAX_PANELS {
        assert(error_ranks(m, s.0) =~= error_ranks(m, r.0));
        law_last_max(error_ranks(m, s.0));
        let w = last_max(error_ranks(m, s.0));
        let p = s.0[w];
        let mid = frac::<T>(1, 2).mul_spec(p.a.add_spec(p.b));
        lemma_projected_panel(m, pr, f, g, p.a, mid);
        lemma_projected_panel(m, pr, f, g, mid, p.b);
        let s1 = bisect_worst(m, f, s);
        let r1 = bisect_worst(m, g, r);
        assert(r1.0 =~= projected_state(pr, s1).0);
        assert(r1 == projected_state(pr, s1));
        lemma_projected_refined(m, pr, f, g, tol, s1);
    }
}

/// The integral of a projected integrand is the projection of the integral.
proof fn lemma_projected_integral<T: Number, W: Tangent<T, M>, X: Tangent<T, M>, M: Elementary<T>>(
    m: M,
    pr: spec_fn(W) -> X,
    f: spec_fn(T) -> (T, W),
    g: spec_fn(T) -> (T, X),
)
    requires
        projects::<T, W, X, M>(m, pr),
        forall|u: T| #[trigger] g(u) == projected(pr, f(u)),
    ensures
        gk_integrate_spec(m, g) == projected(pr, gk_integrate_spec(m, f)),
{
    let ff = |t: T| on_unit_interval(m, &f, t);
    let gg = |t: T| on_unit_interval(m, &g, t);
    assert forall|t: T| #[trigger] gg(t) == projected(pr, ff(t)) by {
        let u = num::<T>(1).sub_spec(t).div_spec(t);
        assert(g(u) == projected(pr, f(u)));
        assert(f(u).1.over_spec(t.mul_spec(t)).usable_spec(m));
        assert(g(u).1.over_spec(t.mul_spec(t)).usable_spec(m));
    }
    let (a, b) = (num::<T>(0), num::<T>(1));
    lemma_projected_panel(m, pr, ff, gg, a, b);
    let s = first_panel(m, ff, a, b);
    assert(first_panel(m, gg, a, b).0 =~= projected_state(pr, s).0);
    lemma_projected_refined(m, pr, ff, gg, decimal_of::<T, M>(m, 1, -8), s);
}

/// The jumps that take part in a pass.
pub open spec fn jumps_of<T>(jump: JumpSpec<T>) -> Option<JumpParams<T>> {
    match jump {
        JumpSpec::Off => None,
        JumpSpec::Const(j) => Some(j),
        JumpSpec::Active(j, i) => Some(j),
    }
}

/// The price of a forward pass is the price by inversion, whichever derivative rides along:
/// Heston's without jumps, and Bates's with them.
pub proof fn law_forward_pass_prices<T: Number, M: Elementary<T>>(
    m: M,
    v: spec_fn(T) -> real,
    s: T,
    k: T,
    t: T,
    r: T,
    q: T,
    p: HestonParams<T>,
    opt_type: OptionType,
    active: usize,
    jump: JumpSpec<T>,
)
    requires
        ideal(m, v),
    ensures
        forward_pass_spec(m, s, k, t, r, q, p, opt_type, active, jump).0 == from_call_spec(
            m,
            inversion_call_spec(m, s, k, t, r, q, p, jumps_of(jump)),
            s,
            k,
            t,
            r,
            q,
            opt_type,
        ),
{
    let x = ln_of(m, s.div_spec(k));
    let mu = r.sub_spec(q);
    let dp = dual_params_spec(p, active);
    let dj = dual_jumps_spec(jump);
    let j = jumps_of(jump);
    let h = value_of::<T>();
    assert(params_under(h, dp) == p);
    assert(jumps_under(h, dj) == j);
    let down = Complex {
        re: Dual::constant_spec(num::<T>(0)),
        im: Dual::constant_spec(num::<T>(-1)),
    };
    let ct = Dual::constant_spec(t);
    let cm = Dual::constant_spec(mu);
    lemma_values_carried(m, v);
    lemma_model_cf_carried(DualKit { m }, RealKit { m }, h, down, ct, cm, dp, dj);
    let norm = model_cf_spec(DualKit { m }, down, ct, cm, dp, dj);
    lemma_dual_integral(m, v, x, t, mu, dp, dj, Some(norm));
    lemma_dual_integral(m, v, x, t, mu, dp, dj, None);
}

/// The value of a dual integral is the integral of the values.
proof fn lemma_dual_integral<T: Number, M: Elementary<T>>(
    m: M,
    v: spec_fn(T) -> real,
    x: T,
    t: T,
    mu: T,
    p: HestonParams<Dual<T>>,
    jump: Option<JumpParams<Dual<T>>>,
    norm: Option<Complex<Dual<T>>>,
)
    requires
        ideal(m, v),
    ensures
        ({
            let h = value_of::<T>();
            dual_integral_spec(m, x, t, mu, p, jump, norm).val == gk_integrate_spec(
                m,
                kernel(
                    m,
                    x,
                    t,
                    mu,
                    params_under(h, p),
                    jumps_under(h, jump),
                    norm_under(h, norm),
                ),
            ).0
        }),
{
    let h = value_of::<T>();
    let f = dual_kernel(m, x, t, mu, p, jump, norm);
    let g = kernel(m, x, t, mu, params_under(h, p), jumps_under(h, jump), norm_under(h, norm));
    let pr = |w: Slope<T>| NoTangent;
    lemma_values_carried(m, v);
    assert forall|u: T| #[trigger] g(u) == projected(pr, f(u)) by {
        law_kernel_carried(
            DualKit { m },
            RealKit { m },
            h,
            Dual::constant_spec(u),
            Dual::constant_spec(x),
            Dual::constant_spec(t),
            Dual::constant_spec(mu),
            p,
            jump,
            norm,
        );
    }
    assert forall|w: Slope<T>| #[trigger] w.usable_spec(m) by {
        assert(is_finite_of(m, w.dot));
    }
    lemma_projected_integral(m, pr, f, g);
}

/// The logarithm of a root is half the logarithm.
pub open spec fn ln_of_root<T: Number, M: Elementary<T>>(m: M, v: spec_fn(T) -> real) -> bool {
    forall|x: T| 2real * v(ln_of(m, #[trigger] sqrt_of(m, x))) == v(ln_of(m, x))
}

/// The exponential, the logarithm and the square root of a number with five derivatives are in
/// each direction those of a dual number.
proof fn lemma_kit_directions<T: Number, M: Elementary<T>>(
    m: M,
    v: spec_fn(T) -> real,
    z: Complex<Dual5<T>>,
    n: int,
)
    requires
        ideal(m, v),
        ln_of_root(m, v),
        0 <= n < 5,
    ensures
        ({
            let h = in_direction::<T>(n);
            &&& lifted(h, cexp5_spec(m, z)) == cexp_spec(m, lifted(h, z))
            &&& lifted(h, cln5_spec(m, z)) == cln_spec(m, lifted(h, z))
            &&& lifted(h, csqrt5_spec(m, z)) == csqrt_spec(m, lifted(h, z))
        }),
{
    let ea = exp_of(m, z.re.val);
    let cb = cos_of(m, z.im.val);
    let sb = sin_of(m, z.im.val);
    let (a, b) = (z.re.dot[n], z.im.dot[n]);
    let (c, s) = (ea.mul_spec(cb), ea.mul_spec(sb));
    let re = c.mul_spec(a).sub_spec(s.mul_spec(b));
    let im = s.mul_spec(a).add_spec(c.mul_spec(b));
    let re1 = ea.mul_spec(a.mul_spec(cb).sub_spec(b.mul_spec(sb)));
    let im1 = ea.mul_spec(a.mul_spec(sb).add_spec(b.mul_spec(cb)));
    lemma_times_comm(v(a), v(cb));
    lemma_times_comm(v(b), v(sb));
    lemma_times_comm(v(a), v(sb));
    lemma_times_comm(v(b), v(cb));
    lemma_times_assoc(v(ea), v(cb), v(a));
    lemma_times_assoc(v(ea), v(sb), v(b));
    lemma_times_assoc(v(ea), v(sb), v(a));
    lemma_times_assoc(v(ea), v(cb), v(b));
    lemma_times_sub(v(ea), times(v(cb), v(a)), times(v(sb), v(b)));
    lemma_times_add(v(ea), times(v(sb), v(a)), times(v(cb), v(b)));
    assert(same_value(v, re, re1));
    assert(same_value(v, im, im1));
    let x = z.re.val;
    let y = z.im.val;
    let r2 = x.mul_spec(x).add_spec(y.mul_spec(y));
    lemma_half::<T>(v);
    lemma_literal(1real / 2real, v(ln_of(m, r2)));
    assert(same_value(v, frac::<T>(1, 2).mul_spec(ln_of(m, r2)), ln_of(m, sqrt_of(m, r2))));
}

/// A direction carries arithmetic and the kit to those of dual numbers.
proof fn lemma_directions_carried<T: Number, M: Elementary<T>>(
    m: M,
    v: spec_fn(T) -> real,
    n: int,
)
    requires
        ideal(m, v),
        ln_of_root(m, v),
        0 <= n < 5,
    ensures
        carries(Dual5Kit { m }, DualKit { m }, in_direction::<T>(n)),
{
    let k = Dual5Kit { m };
    let h = in_direction::<T>(n);
    assert forall|z: Complex<Dual5<T>>|
        lifted(h, #[trigger] k.cexp_spec(z)) == DualKit { m }.cexp_spec(lifted(h, z)) by {
        lemma_kit_directions(m, v, z, n);
    }
    assert forall|z: Complex<Dual5<T>>|
        lifted(h, #[trigger] k.cln_spec(z)) == DualKit { m }.cln_spec(lifted(h, z)) by {
        lemma_kit_directions(m, v, z, n);
    }
    assert forall|z: Complex<Dual5<T>>|
        lifted(h, #[trigger] k.csqrt_spec(z)) == DualKit { m }.csqrt_spec(lifted(h, z)) by {
        lemma_kit_directions(m, v, z, n);
    }
}

/// The integral with five derivatives is in each direction the integral with one.
proof fn lemma_integral_directions<T: Number, M: Elementary<T>>(
    m: M,
    v: spec_fn(T) -> real,
    x: T,
    t: T,
    mu: T,
    p: HestonParams<Dual5<T>>,
    norm: Option<Complex<Dual5<T>>>,
    n: int,
)
    requires
        ideal(m, v),
        ln_of_root(m, v),
        0 <= n < 5,
    ensures
        ({
            let h = in_direction::<T>(n);
            direction(dual5_integral_spec(m, x, t, mu, p, None, norm), n) == dual_integral_spec(
                m,
                x,
                t,
                mu,
                params_under(h, p),
                None,
                norm_under(h, norm),
            )
        }),
{
    let h = in_direction::<T>(n);
    let f = dual5_kernel(m, x, t, mu, p, None, norm);
    let g = dual_kernel(m, x, t, mu, params_under(h, p), None, norm_under(h, norm));
    let pr = |w: Gradient<T>| Slope { dot: w.dot[n] };
    lemma_directions_carried(m, v, n);
    assert forall|u: T| #[trigger] g(u) == projected(pr, f(u)) by {
        law_kernel_carried(
            Dual5Kit { m },
            DualKit { m },
            h,
            Dual5::constant_spec(u),
            Dual5::constant_spec(x),
            Dual5::constant_spec(t),
            Dual5::constant_spec(mu),
            p,
            None,
            norm,
        );
    }
    assert forall|w: Slope<T>| #[trigger] w.usable_spec(m) by {
        assert(is_finite_of(m, w.dot));
    }
    lemma_projected_integral(m, pr, f, g);
}

/// The joint pass is the five single passes: each of its derivatives is the one that the pass
/// in that parameter alone gives.
pub proof fn law_joint_pass_is_five_passes<T: Number, M: Elementary<T>>(
    m: M,
    v: spec_fn(T) -> real,
    s: T,
    k: T,
    t: T,
    r: T,
    q: T,
    p: HestonParams<T>,
    opt_type: OptionType,
    active: usize,
)
    requires
        ideal(m, v),
        ln_of_root(m, v),
        active < 5,
    ensures
        forward_pass5_spec(m, s, k, t, r, q, p, opt_type).1[active as int] == forward_pass_spec(
            m,
            s,
            k,
            t,
            r,
            q,
            p,
            opt_type,
            active,
            JumpSpec::Off,
        ).1,
{
    let n = active as int;
    let x = ln_of(m, s.div_spec(k));
    let mu = r.sub_spec(q);
    let dp = dual_params5_spec(p);
    let h = in_direction::<T>(n);
    assert(params_under(h, dp) == dual_params_spec(p, active));
    let down = Complex {
        re: Dual5::constant_spec(num::<T>(0)),
        im: Dual5::constant_spec(num::<T>(-1)),
    };
    let ct = Dual5::constant_spec(t);
    let cm = Dual5::constant_spec(mu);
    lemma_directions_carried(m, v, n);
    lemma_model_cf_carried(Dual5Kit { m }, DualKit { m }, h, down, ct, cm, dp, None);
    let norm = model_cf_spec(Dual5Kit { m }, down, ct, cm, dp, None);
    lemma_integral_directions(m, v, x, t, mu, dp, Some(norm), n);
    lemma_integral_directions(m, v, x, t, mu, dp, None, n);
}

/// The price of the joint pass is the pricer's price, but for the floor under a call that comes
/// out negative: the pricer's call is the pass's, or zero if that is more, and where the pass's
/// call is not negative the two agree on calls and puts.
pub proof fn law_joint_pass_prices<T: Number, M: Elementary<T>>(
    m: M,
    v: spec_fn(T) -> real,
    s: T,
    k: T,
    t: T,
    r: T,
    q: T,
    p: HestonParams<T>,
    opt_type: OptionType,
)
    requires
        ideal(m, v),
        ln_of_root(m, v),
    ensures
        ({
            let call = forward_pass5_spec(m, s, k, t, r, q, p, OptionType::Call).0;
            let price = heston_price_spec(m, s, k, t, r, q, p, opt_type);
            &&& opt_type is Call ==> price == larger(call, num::<T>(0))
            &&& v(call) >= 0real ==> price == forward_pass5_spec(m, s, k, t, r, q, p, opt_type).0
        }),
{
    let active = 0usize;
    let x = ln_of(m, s.div_spec(k));
    let mu = r.sub_spec(q);
    let dp = dual_params5_spec(p);
    let h = in_direction::<T>(0);
    assert(params_under(h, dp) == dual_params_spec(p, active));
    let down = Complex {
        re: Dual5::constant_spec(num::<T>(0)),
        im: Dual5::constant_spec(num::<T>(-1)),
    };
    let ct = Dual5::constant_spec(t);
    let cm = Dual5::constant_spec(mu);
    lemma_directions_carried(m, v, 0);
    lemma_model_cf_carried(Dual5Kit { m }, DualKit { m }, h, down, ct, cm, dp, None);
    let norm = model_cf_spec(Dual5Kit { m }, down, ct, cm, dp, None);
    lemma_integral_directions(m, v, x, t, mu, dp, Some(norm), 0);
    lemma_integral_directions(m, v, x, t, mu, dp, None, 0);
    let call = forward_pass5_spec(m, s, k, t, r, q, p, OptionType::Call).0;
    let single = forward_pass_spec(m, s, k, t, r, q, p, OptionType::Call, active, JumpSpec::Off);
    assert(single.0 == larger(call, num::<T>(0)));
    law_forward_pass_prices(m, v, s, k, t, r, q, p, opt_type, active, JumpSpec::Off);
}

/// The dual numbers have no value and no derivative.
pub open spec fn is_nothing<T>(v: spec_fn(T) -> real, x: Dual<T>) -> bool {
    v(x.val) == 0real && v(x.dot) == 0real
}

/// The characteristic function and its derivative do not change by the factor of jumps that
/// never come.
proof fn lemma_dual_factor_without_jumps<T: Number, M: Elementary<T>>(
    m: M,
    v: spec_fn(T) -> real,
    phi: Complex<Dual<T>>,
    t: Dual<T>,
    mu: Dual<T>,
    p: HestonParams<Dual<T>>,
    j: JumpParams<Dual<T>>,
)
    requires
        ideal(m, v),
        exact_at_zero(m, v),
        is_nothing(v, j.lambda),
    ensures
        model_cf_spec(DualKit { m }, phi, t, mu, p, Some(j)) == model_cf_spec(
            DualKit { m },
            phi,
            t,
            mu,
            p,
            None,
        ),
{
    let k = DualKit { m };
    let zero = num::<T>(0);
    let cf = stable_cf_spec(k, phi, t, mu, p);
    let f = jump_cf_spec(k, phi, t, j);
    let i = unit_i_spec(k);
    let one = real_part_spec(k, k.whole_spec(1));
    let half: Dual<T> = k.ratio_spec(1, 2);
    let lead: Dual<T> = k.exp_spec(j.mu_j.add_spec(half.mul_spec(j.sigma_j).mul_spec(j.sigma_j)));
    let comp = lead.sub_spec(k.whole_spec(1));
    let spread = scale_spec(
        j.sigma_j,
        scale_spec(j.sigma_j, scale_spec(half, phi).mul_spec(phi)),
    );
    let jump: Complex<Dual<T>> = k.cexp_spec(scale_spec(j.mu_j, phi.mul_spec(i)).sub_spec(spread));
    let w = jump.sub_spec(one).sub_spec(scale_spec(comp, i.mul_spec(phi)));
    let lt = j.lambda.mul_spec(t);
    let z = scale_spec(lt, w);
    assert(f == cexp_spec(m, z));
    lemma_times_unit(v(t.val));
    lemma_times_unit(v(t.dot));
    assert(is_nothing(v, lt));
    lemma_times_unit(v(w.re.val));
    lemma_times_unit(v(w.re.dot));
    lemma_times_unit(v(w.im.val));
    lemma_times_unit(v(w.im.dot));
    assert(is_nothing(v, z.re));
    assert(is_nothing(v, z.im));
    assert(same_value(v, z.re.val, zero));
    assert(same_value(v, z.im.val, zero));
    lemma_times_unit(1real);
    lemma_times_unit(0real);
    assert(v(f.re.val) == 1real && v(f.im.val) == 0real);
    assert(v(f.re.dot) == 0real && v(f.im.dot) == 0real);
    lemma_times_unit(v(cf.re.val));
    lemma_times_unit(v(cf.re.dot));
    lemma_times_unit(v(cf.im.val));
    lemma_times_unit(v(cf.im.dot));
    let all = cf.mul_spec(f);
    assert(same_value(v, all.re.val, cf.re.val));
    assert(same_value(v, all.re.dot, cf.re.dot));
    assert(same_value(v, all.im.val, cf.im.val));
    assert(same_value(v, all.im.dot, cf.im.dot));
}

/// A forward pass with jumps that never come is the pass without jumps: price and derivative
/// are the same.
pub proof fn law_pass_without_jumps<T: Number, M: Elementary<T>>(
    m: M,
    v: spec_fn(T) -> real,
    s: T,
    k: T,
    t: T,
    r: T,
    q: T,
    p: HestonParams<T>,
    opt_type: OptionType,
    active: usize,
    j: JumpParams<T>,
)
    requires
        ideal(m, v),
        exact_at_zero(m, v),
        v(j.lambda) == 0real,
    ensures
        forward_pass_spec(m, s, k, t, r, q, p, opt_type, active, JumpSpec::Const(j))
            == forward_pass_spec(m, s, k, t, r, q, p, opt_type, active, JumpSpec::Off),
{
    let x = ln_of(m, s.div_spec(k));
    let mu = r.sub_spec(q);
    let dp = dual_params_spec(p, active);
    let dj = dual_jumps_spec(JumpSpec::Const(j))->0;
    let ct = Dual::constant_spec(t);
    let cm = Dual::constant_spec(mu);
    let kit = DualKit { m };
    assert forall|phi: Complex<Dual<T>>| #[trigger]
        model_cf_spec(kit, phi, ct, cm, dp, Some(dj)) == model_cf_spec(
            kit,
            phi,
            ct,
            cm,
            dp,
            None,
        ) by {
        lemma_dual_factor_without_jumps(m, v, phi, ct, cm, dp, dj);
    }
    let down = Complex {
        re: Dual::constant_spec(num::<T>(0)),
        im: Dual::constant_spec(num::<T>(-1)),
    };
    let norm = model_cf_spec(kit, down, ct, cm, dp, None);
    assert(dual_kernel(m, x, t, mu, dp, Some(dj), Some(norm)) =~= dual_kernel(
        m,
        x,
        t,
        mu,
        dp,
        None,
        Some(norm),
    ));
    assert(dual_kernel(m, x, t, mu, dp, Some(dj), None) =~= dual_kernel(
        m,
        x,
        t,
        mu,
        dp,
        None,
        None,
    ));
}

/// The derivative of the half-angle relation: where the squares of the sides and the half-angle
/// relations hold along with their derivatives, so does the derivative of their consequence.
proof fn lemma_half_angle_dot(
    x: (real, real),
    y: (real, real),
    r: (real, real),
    w: (real, real),
    q: (real, real),
)
    requires
        times(r.0, r.1) == times(x.0, x.1) + times(y.0, y.1),
        2real * times(w.0, w.0) == r.0 + x.0,
        4real * times(w.0, w.1) == r.1 + x.1,
        2real * times(w.0, q.0) == y.0,
        2real * times(w.0, q.1) + 2real * times(w.1, q.0) == y.1,
        2real * times(q.0, q.0) == r.0 - x.0,
        w.0 != 0real,
    ensures
        2real * times(w.0, w.1) - 2real * times(q.0, q.1) == x.1,
{
    let ww = times(w.0, w.0);
    let qq1 = times(q.0, q.1);
    lemma_square(w.0);
    // Four times the product of `q` and its derivative, times the square of `w`.
    let wq = times(w.0, q.0);
    assert(times(qq1, ww) == times(wq, times(w.0, q.1))) by {
        lemma_times_assoc(w.0, q.0, times(w.0, q.1));
        lemma_times_assoc(q.0, w.0, q.1);
        lemma_times_comm(q.0, w.0);
        lemma_times_assoc(w.0, q.0, q.1);
        lemma_times_assoc(w.0, w.0, qq1);
        lemma_times_comm(ww, qq1);
    }
    assert(times(y.0, y.1) == 4real * times(qq1, ww) + 4real * times(wq, times(w.1, q.0))) by {
        lemma_multiple(2real, wq, y.1);
        lemma_times_add(wq, 2real * times(w.0, q.1), 2real * times(w.1, q.0));
        lemma_multiple(2real, wq, times(w.0, q.1));
        lemma_multiple(2real, wq, times(w.1, q.0));
    }
    let ww1 = times(w.0, w.1);
    let qq = times(q.0, q.0);
    assert(times(wq, times(w.1, q.0)) == times(ww1, qq)) by {
        lemma_times_assoc(w.0, q.0, times(w.1, q.0));
        lemma_times_assoc(q.0, w.1, q.0);
        lemma_times_comm(q.0, w.1);
        lemma_times_assoc(w.1, q.0, q.0);
        lemma_times_assoc(w.0, w.1, qq);
    }
    let (plus, less) = (r.1 + x.1, r.1 - x.1);
    assert(8real * times(ww1, qq) == times(plus, r.0) - times(plus, x.0)) by {
        lemma_multiple(4real, ww1, qq);
        lemma_multiple(2real, plus, qq);
        lemma_times_sub(plus, r.0, x.0);
    }
    assert(2real * times(less, ww) == times(less, r.0) + times(less, x.0)) by {
        lemma_multiple(2real, less, ww);
        lemma_times_add(less, r.0, x.0);
    }
    assert(4real * times(qq1, ww) == times(less, ww)) by {
        lemma_times_add(r.0, r.1, x.1);
        lemma_times_sub(r.0, r.1, x.1);
        lemma_times_add(x.0, r.1, x.1);
        lemma_times_sub(x.0, r.1, x.1);
        lemma_times_comm(r.0, r.1);
        lemma_times_comm(x.0, x.1);
    }
    lemma_multiple(4real, qq1, ww);
    lemma_times_cancel(4real * qq1, less, ww);
}

/// The square of a dual root is its argument, in value and derivative, where the argument is
/// positive.
proof fn lemma_dual_sqrt<T: Number, M: Elementary<T>>(m: M, v: spec_fn(T) -> real, x: Dual<T>)
    requires
        exact(v),
        sqrt_exact(m, v),
        v(x.val) > 0real,
    ensures
        ({
            let s = x.sqrt_spec(m);
            &&& v(s.val) > 0real
            &&& times(v(s.val), v(s.val)) == v(x.val)
            &&& 2real * times(v(s.val), v(s.dot)) == v(x.dot)
        }),
{
    let s = x.sqrt_spec(m);
    let two = num::<T>(2).mul_spec(s.val);
    lemma_times_unit(v(s.val));
    lemma_literal(2real, v(s.val));
    assert(times(v(s.dot), v(two)) == v(x.dot));
    lemma_multiple(2real, v(s.dot), v(s.val));
    lemma_times_comm(v(s.dot), v(s.val));
}

/// A dual quotient times its denominator is its numerator, in value and derivative.
proof fn lemma_dual_quotient<T: Number>(v: spec_fn(T) -> real, x: Dual<T>, y: Dual<T>)
    requires
        exact(v),
        v(y.val) != 0real,
    ensures
        ({
            let q = x.div_spec(y);
            &&& times(v(q.val), v(y.val)) == v(x.val)
            &&& times(v(q.val), v(y.dot)) + times(v(q.dot), v(y.val)) == v(x.dot)
        }),
{
    let q = x.div_spec(y);
    let (a, b, c, d) = (v(q.val), v(y.val), v(y.dot), v(q.dot));
    lemma_square(b);
    let bb = times(b, b);
    assert(times(d, bb) == times(v(x.dot), b) - times(v(x.val), c));
    let rest = v(x.dot) - times(a, c);
    lemma_times_assoc(d, b, b);
    lemma_times_sub(b, v(x.dot), times(a, c));
    lemma_times_assoc(a, b, c);
    lemma_times_comm(b, c);
    lemma_times_assoc(a, c, b);
    lemma_times_cancel(times(d, b), rest, b);
}

/// The root of a complex dual number squares to it off the real axis.
proof fn lemma_dual_csqrt_off_axis<T: Number, M: Elementary<T>>(
    m: M,
    v: spec_fn(T) -> real,
    z: Complex<Dual<T>>,
)
    requires
        ideal(m, v),
        sign_exact(m, v),
        v(z.im.val) != 0real,
    ensures
        ({
            let s = csqrt_spec(m, z);
            let w = s.mul_spec(s);
            &&& v(w.re.val) == v(z.re.val)
            &&& v(w.im.val) == v(z.im.val)
            &&& v(w.re.dot) == v(z.re.dot)
            &&& v(w.im.dot) == v(z.im.dot)
            &&& v(s.re.val) >= 0real
            &&& v(z.im.val) > 0real ==> v(s.im.val) > 0real
            &&& v(z.im.val) < 0real ==> v(s.im.val) < 0real
        }),
{
    let (a, b) = (z.re, z.im);
    let s = csqrt_spec(m, z);
    lemma_kit_values(m, v, z);
    law_csqrt_squares(m, v, lifted(value_of(), z));
    let half = Dual::constant_spec(frac::<T>(1, 2));
    let two = Dual::constant_spec(num::<T>(2));
    let sq = a.mul_spec(a).add_spec(b.mul_spec(b));
    let r = sq.sqrt_spec(m);
    let (av, ad, bv, bd) = (v(a.val), v(a.dot), v(b.val), v(b.dot));
    lemma_square(av);
    lemma_square(bv);
    lemma_dual_sqrt(m, v, sq);
    lemma_times_comm(av, ad);
    lemma_times_comm(bv, bd);
    assert(times(v(r.val), v(r.dot)) == times(av, ad) + times(bv, bd));
    lemma_half::<T>(v);
    lemma_difference_of_squares(v(r.val), av);
    lemma_times_unit(v(r.val));
    let (re, im) = (s.re, s.im);
    let (wv, wd, qv, qd);
    if av >= 0real {
        let e = r.add_spec(a);
        let x = e.mul_spec(half);
        lemma_literal(1real / 2real, v(e.val));
        lemma_literal(1real / 2real, v(e.dot));
        lemma_times_unit(v(e.val));
        assert(2real * v(x.val) == v(r.val) + av);
        assert(2real * v(x.dot) == v(r.dot) + ad);
        lemma_dual_sqrt(m, v, x);
        assert(re == x.sqrt_spec(m));
        let y = re.mul_spec(two);
        lemma_literal(2real, v(re.val));
        lemma_literal(2real, v(re.dot));
        lemma_times_unit(v(re.val));
        lemma_dual_quotient(v, b, y);
        wv = v(re.val);
        wd = v(re.dot);
        qv = v(im.val);
        qd = v(im.dot);
        lemma_multiple(2real, qv, wv);
        lemma_multiple(2real, qv, wd);
        lemma_multiple(2real, qd, wv);
        lemma_times_comm(qv, wv);
        lemma_times_comm(qv, wd);
        lemma_times_comm(qd, wv);
        lemma_times_comm(wv, wd);
        lemma_times_comm(qv, qd);
        lemma_half_angle_dot(
            (av, ad),
            (bv, bd),
            (v(r.val), v(r.dot)),
            (wv, wd),
            (qv, qd),
        );
    } else {
        let e = r.sub_spec(a);
        let x = e.mul_spec(half);
        lemma_literal(1real / 2real, v(e.val));
        lemma_literal(1real / 2real, v(e.dot));
        lemma_times_unit(v(e.val));
        assert(2real * v(x.val) == v(r.val) - av);
        assert(2real * v(x.dot) == v(r.dot) - ad);
        lemma_dual_sqrt(m, v, x);
        let side = x.sqrt_spec(m);
        wv = v(im.val);
        wd = v(im.dot);
        qv = v(re.val);
        qd = v(re.dot);
        lemma_times_neg(v(side.val), v(side.val));
        lemma_times_neg(v(side.val), -v(side.val));
        lemma_times_neg(v(side.val), v(side.dot));
        lemma_times_neg(v(side.val), -v(side.dot));
        let y = im.mul_spec(two);
        lemma_literal(2real, wv);
        lemma_literal(2real, wd);
        lemma_times_unit(wv);
        lemma_dual_quotient(v, b, y);
        lemma_multiple(2real, qv, wv);
        lemma_multiple(2real, qv, wd);
        lemma_multiple(2real, qd, wv);
        lemma_times_comm(qv, wv);
        lemma_times_comm(qv, wd);
        lemma_times_comm(qd, wv);
        lemma_times_comm(wv, wd);
        lemma_times_comm(qv, qd);
        lemma_times_neg(av, ad);
        lemma_times_neg(av, -ad);
        lemma_half_angle_dot(
            (-av, -ad),
            (bv, bd),
            (v(r.val), v(r.dot)),
            (wv, wd),
            (qv, qd),
        );
    }
}

/// The root of a complex dual number squares to it on the real axis.
proof fn lemma_dual_csqrt_on_axis<T: Number, M: Elementary<T>>(
    m: M,
    v: spec_fn(T) -> real,
    z: Complex<Dual<T>>,
)
    requires
        ideal(m, v),
        sign_exact(m, v),
        v(z.im.val) == 0real,
        v(z.re.val) != 0real,
    ensures
        ({
            let s = csqrt_spec(m, z);
            let w = s.mul_spec(s);
            &&& v(w.re.val) == v(z.re.val)
            &&& v(w.im.val) == v(z.im.val)
            &&& v(w.re.dot) == v(z.re.dot)
            &&& v(w.im.dot) == v(z.im.dot)
            &&& v(s.re.val) >= 0real
        }),
{
    let (a, b) = (z.re, z.im);
    let s = csqrt_spec(m, z);
    let two = Dual::constant_spec(num::<T>(2));
    lemma_kit_values(m, v, z);
    law_csqrt_squares(m, v, lifted(value_of(), z));
    let (re, im) = (s.re, s.im);
    // The part that is not zero, and the other.
    let (big, small) = if v(a.val) > 0real {
        (re, im)
    } else {
        (im, re)
    };
    let (wv, wd, qv, qd) = (v(big.val), v(big.dot), v(small.val), v(small.dot));
    if v(a.val) > 0real {
        lemma_dual_sqrt(m, v, a);
    } else {
        let root = a.neg_spec().sqrt_spec(m);
        lemma_dual_sqrt(m, v, a.neg_spec());
        lemma_times_neg(v(root.val), v(root.val));
        lemma_times_neg(v(root.val), -v(root.val));
        lemma_times_neg(v(root.val), v(root.dot));
        lemma_times_neg(v(root.val), -v(root.dot));
    }
    let y = big.mul_spec(two);
    lemma_literal(2real, wv);
    lemma_literal(2real, wd);
    lemma_times_unit(wv);
    lemma_dual_quotient(v, b, y);
    lemma_times_unit(2real * wv);
    lemma_times_cancel(qv, 0real, 2real * wv);
    lemma_times_unit(wd);
    lemma_times_unit(2real * wd);
    lemma_times_unit(qd);
    lemma_multiple(2real, qd, wv);
    lemma_times_comm(qd, wv);
    lemma_times_comm(wv, wd);
}

/// The root of a complex dual number other than zero squares to it: without rounding, the root
/// times itself has the value of the argument, and its derivative; the real part of the root is
/// not negative, and its imaginary part has the sign of the argument's.
pub proof fn law_dual_csqrt_squares<T: Number, M: Elementary<T>>(
    m: M,
    v: spec_fn(T) -> real,
    z: Complex<Dual<T>>,
)
    requires
        ideal(m, v),
        sign_exact(m, v),
        v(z.re.val) != 0real || v(z.im.val) != 0real,
    ensures
        ({
            let s = csqrt_spec(m, z);
            let w = s.mul_spec(s);
            &&& v(w.re.val) == v(z.re.val)
            &&& v(w.im.val) == v(z.im.val)
            &&& v(w.re.dot) == v(z.re.dot)
            &&& v(w.im.dot) == v(z.im.dot)
            &&& v(s.re.val) >= 0real
            &&& v(z.im.val) > 0real ==> v(s.im.val) > 0real
            &&& v(z.im.val) < 0real ==> v(s.im.val) < 0real
        }),
{
    if v(z.im.val) == 0real {
        lemma_dual_csqrt_on_axis(m, v, z);
    } else {
        lemma_dual_csqrt_off_axis(m, v, z);
    }
}

} // verus!
