//! What holds of the eigenvalue iteration without rounding: its rotations turn the matrix and
//! the frame together, so that the matrix seen from the frame stays the one given, and the
//! frame stays orthonormal; and each lessens what is off the diagonal.
use crate::exact::{
    exact, lemma_difference_of_squares, lemma_literal, lemma_multiple, lemma_square,
    lemma_square_of_product, lemma_times_add, lemma_times_assoc, lemma_times_comm, lemma_times_neg,
    lemma_times_not_negative, lemma_times_positive, lemma_times_sub, lemma_times_unit,
    lemma_total_linear, lemma_total_one, lemma_total_same, lemma_total_single, lemma_total_two,
    sqrt_exact, times, total,
};
use crate::linalg::{
    beyond_diagonal, diagonalized, has_shape, identity_spec, is_symmetric, jacobi_eigen_spec,
    law_rotation_keeps_symmetry, off_diagonal_spec, rotate_row, rotate_spec, rotated_entry,
    rotated_row, rotation_spec, sweep, MAX_SWEEPS,
};
use crate::number::{decimal_of, magnitude, num, sqrt_of, sum, Elementary, Number};
use vstd::prelude::*;
use vstd::std_specs::cmp::PartialOrdIs;
use vstd::std_specs::ops::{AddSpec, DivSpec, MulSpec, SubSpec};

verus! {

/// The square of one less a number.
proof fn lemma_complement_squared(x: real)
    ensures
        times(1real - x, 1real - x) == 1real - 2real * x + times(x, x),
{
    lemma_times_sub(1real - x, 1real, x);
    lemma_times_unit(1real - x);
    lemma_times_sub(x, 1real, x);
    lemma_times_unit(x);
}

/// The tangent of the rotation solves its quadratic equation.
proof fn lemma_tangent(theta: real, root: real, t: real)
    requires
        times(root, root) == times(theta, theta) + 1real,
        times(t, theta + root) == 1real || times(t, root - theta) == -1real,
    ensures
        times(t, t) == 1real - 2real * times(t, theta),
{
    let x = times(t, theta);
    let a = times(t, root);
    lemma_times_add(t, theta, root);
    lemma_times_sub(t, root, theta);
    lemma_complement_squared(x);
    lemma_times_neg(1real - x, 1real - x);
    lemma_times_neg(1real - x, -(1real - x));
    assert(a == 1real - x || a == -(1real - x));
    assert(times(a, a) == 1real - 2real * x + times(x, x));
    lemma_square_of_product(t, root);
    lemma_square_of_product(t, theta);
    lemma_times_add(times(t, t), times(theta, theta), 1real);
    lemma_times_unit(times(t, t));
}

/// The cosine and the sine of the rotation are those of an angle, and the angle is the one
/// that clears the entry.
proof fn lemma_rotation<T: Number, M: Elementary<T>>(
    m: M,
    v: spec_fn(T) -> real,
    app: T,
    aqq: T,
    apq: T,
)
    requires
        exact(v),
        sqrt_exact(m, v),
        v(apq) != 0real,
    ensures
        ({
            let (t, c, s) = rotation_spec(m, app, aqq, apq);
            let (t, c, s) = (v(t), v(c), v(s));
            &&& times(c, c) + times(s, s) == 1real
            &&& times(c, t) == s
            &&& times(s, v(aqq) - v(app)) == times(c, v(apq)) - times(s, times(t, v(apq)))
        }),
{
    let theta = aqq.sub_spec(app).div_spec(num::<T>(2).mul_spec(apq));
    let root = sqrt_of(m, theta.mul_spec(theta).add_spec(num::<T>(1)));
    let (t, c, s) = rotation_spec(m, app, aqq, apq);
    let th = v(theta);
    let (x, y, z) = (v(t), v(c), v(s));
    let w = v(apq);
    lemma_square(th);
    lemma_times_unit(v(root));
    assert(v(root) > 0real);
    lemma_tangent(th, v(root), x);
    let h = sqrt_of(m, t.mul_spec(t).add_spec(num::<T>(1)));
    lemma_square(x);
    lemma_times_unit(v(h));
    assert(times(y, v(h)) == 1real);
    let xx = times(x, x);
    let yy = times(y, y);
    assert(times(yy, xx + 1real) == 1real) by {
        lemma_square_of_product(y, v(h));
        lemma_times_unit(1real);
    }
    lemma_times_add(yy, xx, 1real);
    lemma_times_unit(yy);
    lemma_square_of_product(x, y);
    lemma_times_comm(xx, yy);
    lemma_times_comm(x, y);
    // The difference of the diagonal entries is twice the cotangent times the entry.
    lemma_literal(2real, w);
    assert(times(th, 2real * w) == v(aqq) - v(app));
    lemma_multiple(2real, th, w);
    lemma_multiple(2real, z, times(th, w));
    lemma_times_assoc(z, th, w);
    lemma_times_assoc(z, x, w);
    lemma_times_assoc(y, x, th);
    lemma_times_assoc(y, x, x);
    lemma_times_sub(y, 1real, 2real * times(x, th));
    lemma_multiple(2real, y, times(x, th));
    lemma_times_unit(y);
    assert(y - times(z, x) == 2real * times(z, th));
    lemma_times_sub(w, y, times(z, x));
    lemma_multiple(2real, times(z, th), w);
}

/// A rotation of two vectors leaves their inner product as it is.
proof fn lemma_turned(c: real, s: real, a: real, b: real, x: real, y: real)
    requires
        times(c, c) + times(s, s) == 1real,
    ensures
        times(times(c, a) - times(s, b), times(c, x) - times(s, y)) + times(
            times(s, a) + times(c, b),
            times(s, x) + times(c, y),
        ) == times(a, x) + times(b, y),
{
    let (ca, sb, cx, sy) = (times(c, a), times(s, b), times(c, x), times(s, y));
    let (sa, cb, sx, cy) = (times(s, a), times(c, b), times(s, x), times(c, y));
    lemma_times_sub(ca - sb, cx, sy);
    lemma_times_sub(cx, ca, sb);
    lemma_times_sub(sy, ca, sb);
    lemma_times_add(sa + cb, sx, cy);
    lemma_times_add(sx, sa, cb);
    lemma_times_add(cy, sa, cb);
    lemma_pairs(c, a, c, x);
    lemma_pairs(s, b, s, y);
    lemma_pairs(s, b, c, x);
    lemma_pairs(c, a, s, y);
    lemma_pairs(s, a, s, x);
    lemma_pairs(c, b, c, y);
    lemma_pairs(c, b, s, x);
    lemma_pairs(s, a, c, y);
    lemma_times_comm(c, s);
    lemma_times_add(times(a, x), times(c, c), times(s, s));
    lemma_times_add(times(b, y), times(c, c), times(s, s));
    lemma_times_unit(times(a, x));
    lemma_times_unit(times(b, y));
}

/// Products of products can be paired otherwise.
proof fn lemma_pairs(a: real, b: real, c: real, d: real)
    ensures
        times(times(a, b), times(c, d)) == times(times(a, c), times(b, d)),
{
    lemma_times_assoc(a, b, times(c, d));
    lemma_times_assoc(b, c, d);
    lemma_times_comm(b, c);
    lemma_times_assoc(c, b, d);
    lemma_times_assoc(a, c, times(b, d));
}

/// The terms of the inner product of column `l` of the matrix with the vector `u`.
pub open spec fn column_terms<T>(
    v: spec_fn(T) -> real,
    a: Seq<Seq<T>>,
    u: Seq<T>,
    l: int,
) -> spec_fn(int) -> real {
    |k: int| times(v(u[k]), v(a[k][l]))
}

/// The inner product of column `l` of the matrix with the vector `u`.
pub open spec fn column<T>(v: spec_fn(T) -> real, a: Seq<Seq<T>>, u: Seq<T>, l: int) -> real {
    total(column_terms(v, a, u, l), a.len() as int)
}

/// The terms of `form`, column by column.
pub open spec fn form_terms<T>(
    v: spec_fn(T) -> real,
    a: Seq<Seq<T>>,
    u: Seq<T>,
    w: Seq<T>,
) -> spec_fn(int) -> real {
    |l: int| times(column(v, a, u, l), v(w[l]))
}

/// The vector `u` times the matrix times the vector `w`.
pub open spec fn form<T>(v: spec_fn(T) -> real, a: Seq<Seq<T>>, u: Seq<T>, w: Seq<T>) -> real {
    total(form_terms(v, a, u, w), a.len() as int)
}

/// The terms of the inner product of two vectors.
pub open spec fn inner_terms<T>(v: spec_fn(T) -> real, u: Seq<T>, w: Seq<T>) -> spec_fn(
    int,
) -> real {
    |k: int| times(v(u[k]), v(w[k]))
}

/// A column other than `p` and `q`, seen from a vector, does not change when matrix and
/// vector are turned together.
proof fn lemma_other_column<T: Number>(
    v: spec_fn(T) -> real,
    a: Seq<Seq<T>>,
    u: Seq<T>,
    p: int,
    q: int,
    t: T,
    c: T,
    s: T,
    a1: Seq<Seq<T>>,
    l: int,
)
    requires
        exact(v),
        is_symmetric(a),
        has_shape(a, a.len() as int, a.len() as int),
        u.len() == a.len(),
        0 <= p < q < a.len(),
        0 <= l < a.len(),
        l != p,
        l != q,
        times(v(c), v(c)) + times(v(s), v(s)) == 1real,
        a1 == Seq::new(
            a.len(),
            |i: int| Seq::new(a.len(), |j: int| rotated_entry(a, p, q, t, c, s, i, j)),
        ),
    ensures
        column(v, a1, rotated_row(u, p, q, c, s), l) == column(v, a, u, l),
{
    let n = a.len() as int;
    let u1 = rotated_row(u, p, q, c, s);
    let f = column_terms(v, a1, u1, l);
    let g = column_terms(v, a, u, l);
    assert(a[l][p] == a[p][l]);
    assert(a[l][q] == a[q][l]);
    lemma_total_two(f, g, n, p, q);
    lemma_turned(v(c), v(s), v(u[p]), v(u[q]), v(a[p][l]), v(a[q][l]));
}

/// Columns `p` and `q`, seen from a vector, turn when matrix and vector are turned together.
proof fn lemma_turned_columns<T: Number>(
    v: spec_fn(T) -> real,
    a: Seq<Seq<T>>,
    u: Seq<T>,
    p: int,
    q: int,
    t: T,
    c: T,
    s: T,
    a1: Seq<Seq<T>>,
)
    requires
        exact(v),
        is_symmetric(a),
        has_shape(a, a.len() as int, a.len() as int),
        u.len() == a.len(),
        0 <= p < q < a.len(),
        times(v(c), v(t)) == v(s),
        times(v(s), v(a[q][q]) - v(a[p][p])) == times(v(c), v(a[p][q])) - times(
            v(s),
            times(v(t), v(a[p][q])),
        ),
        a1 == Seq::new(
            a.len(),
            |i: int| Seq::new(a.len(), |j: int| rotated_entry(a, p, q, t, c, s, i, j)),
        ),
    ensures
        ({
            let u1 = rotated_row(u, p, q, c, s);
            let (cp, cq) = (column(v, a, u, p), column(v, a, u, q));
            &&& column(v, a1, u1, p) == times(v(c), cp) - times(v(s), cq)
            &&& column(v, a1, u1, q) == times(v(s), cp) + times(v(c), cq)
        }),
{
    let n = a.len() as int;
    let u1 = rotated_row(u, p, q, c, s);
    let (co, si, ta) = (v(c), v(s), v(t));
    let gp = column_terms(v, a, u, p);
    let gq = column_terms(v, a, u, q);
    let (app, aqq, apq) = (v(a[p][p]), v(a[q][q]), v(a[p][q]));
    let (x, y) = (v(u[p]), v(u[q]));
    assert(a[q][p] == a[p][q]);
    let tapq = times(ta, apq);
    // Column `p`.
    let none = |k: int| 0real;
    let hp0 = |k: int| times(co, gp(k));
    let hp = |k: int| times(co, gp(k)) + times(-si, gq(k));
    lemma_zero_total(n);
    assert forall|k: int| 0 <= k < n implies #[trigger] hp0(k) == none(k) + times(co, gp(k)) by {}
    lemma_total_linear(none, gp, hp0, co, n);
    lemma_total_linear(hp0, gq, hp, -si, n);
    lemma_times_neg(si, total(gq, n));
    let fp = column_terms(v, a1, u1, p);
    assert forall|k: int| 0 <= k < n && k != p && k != q implies #[trigger] fp(k) == hp(k) by {
        let (z, e, f) = (v(u[k]), v(a[k][p]), v(a[k][q]));
        lemma_times_sub(z, times(co, e), times(si, f));
        lemma_swap_factor(z, co, e);
        lemma_swap_factor(z, si, f);
        lemma_times_neg(si, times(z, f));
    }
    lemma_total_two(fp, hp, n, p, q);
    assert(fp(p) + fp(q) == hp(p) + hp(q)) by {
        let d = app - tapq;
        lemma_times_unit(v(u1[q]));
        lemma_times_sub(d, times(co, x), times(si, y));
        lemma_times_assoc(co, x, d);
        lemma_times_assoc(si, y, d);
        lemma_times_sub(x, app, tapq);
        lemma_times_sub(co, times(x, app), times(x, tapq));
        lemma_times_sub(y, app, tapq);
        lemma_times_sub(si, times(y, app), times(y, tapq));
        lemma_times_neg(si, times(x, apq));
        lemma_times_neg(si, times(y, aqq));
        assert(times(co, times(x, tapq)) == times(si, times(x, apq))) by {
            lemma_swap_factor(co, x, tapq);
            lemma_times_assoc(co, ta, apq);
            lemma_swap_factor(x, si, apq);
        }
        lemma_swap_factor(si, y, tapq);
        lemma_swap_factor(si, y, aqq);
        lemma_swap_factor(si, y, app);
        lemma_swap_factor(co, y, apq);
        lemma_times_sub(si, aqq, app);
        lemma_times_sub(y, times(si, aqq), times(si, app));
        lemma_times_sub(y, times(co, apq), times(si, tapq));
    }
    // Column `q`.
    let hq0 = |k: int| times(si, gp(k));
    let hq = |k: int| times(si, gp(k)) + times(co, gq(k));
    assert forall|k: int| 0 <= k < n implies #[trigger] hq0(k) == none(k) + times(si, gp(k)) by {}
    lemma_total_linear(none, gp, hq0, si, n);
    lemma_total_linear(hq0, gq, hq, co, n);
    let fq = column_terms(v, a1, u1, q);
    assert forall|k: int| 0 <= k < n && k != p && k != q implies #[trigger] fq(k) == hq(k) by {
        let (z, e, f) = (v(u[k]), v(a[k][p]), v(a[k][q]));
        lemma_times_add(z, times(si, e), times(co, f));
        lemma_swap_factor(z, si, e);
        lemma_swap_factor(z, co, f);
    }
    lemma_total_two(fq, hq, n, p, q);
    assert(fq(p) + fq(q) == hq(p) + hq(q)) by {
        let d = aqq + tapq;
        lemma_times_unit(v(u1[p]));
        lemma_times_add(d, times(si, x), times(co, y));
        lemma_times_assoc(si, x, d);
        lemma_times_assoc(co, y, d);
        lemma_times_add(x, aqq, tapq);
        lemma_times_add(si, times(x, aqq), times(x, tapq));
        lemma_times_add(y, aqq, tapq);
        lemma_times_add(co, times(y, aqq), times(y, tapq));
        assert(times(co, times(y, tapq)) == times(si, times(y, apq))) by {
            lemma_swap_factor(co, y, tapq);
            lemma_times_assoc(co, ta, apq);
            lemma_swap_factor(y, si, apq);
        }
        lemma_swap_factor(si, x, tapq);
        lemma_swap_factor(si, x, aqq);
        lemma_swap_factor(si, x, app);
        lemma_swap_factor(co, x, apq);
        lemma_times_sub(si, aqq, app);
        lemma_times_sub(x, times(si, aqq), times(si, app));
        lemma_times_sub(x, times(co, apq), times(si, tapq));
    }
}

/// The first two of three factors can be exchanged.
proof fn lemma_swap_factor(a: real, b: real, c: real)
    ensures
        times(a, times(b, c)) == times(b, times(a, c)),
{
    lemma_times_assoc(a, b, c);
    lemma_times_comm(a, b);
    lemma_times_assoc(b, a, c);
}

/// A sum of zeros is zero.
proof fn lemma_zero_total(n: int)
    ensures
        total(|k: int| 0real, n) == 0real,
    decreases n,
{
    if n > 0 {
        lemma_zero_total(n - 1);
    }
}

/// A rotation keeps the matrix as the frame sees it, and the inner products in the frame.
pub proof fn law_rotation_keeps_form<T: Number, M: Elementary<T>>(
    m: M,
    v: spec_fn(T) -> real,
    a: Seq<Seq<T>>,
    f: Seq<Seq<T>>,
    p: int,
    q: int,
    i: int,
    j: int,
)
    requires
        exact(v),
        sqrt_exact(m, v),
        v(decimal_of::<T, M>(m, 1, -300)) > 0real,
        is_symmetric(a),
        has_shape(a, a.len() as int, a.len() as int),
        has_shape(f, a.len() as int, a.len() as int),
        0 <= p < q < a.len(),
        0 <= i < a.len(),
        0 <= j < a.len(),
    ensures
        ({
            let (a1, f1) = rotate_spec(m, a, f, p, q);
            &&& form(v, a1, f1[i], f1[j]) == form(v, a, f[i], f[j])
            &&& total(inner_terms(v, f1[i], f1[j]), a.len() as int) == total(
                inner_terms(v, f[i], f[j]),
                a.len() as int,
            )
        }),
{
    let n = a.len() as int;
    let (a1, f1) = rotate_spec(m, a, f, p, q);
    let apq = a[p][q];
    assert(f[i].len() == n);
    assert(f[j].len() == n);
    if !magnitude(apq).is_lt(&decimal_of::<T, M>(m, 1, -300)) {
        assert(v(apq) != 0real);
        let (t, c, s) = rotation_spec(m, a[p][p], a[q][q], apq);
        lemma_rotation(m, v, a[p][p], a[q][q], apq);
        let (u, w) = (f[i], f[j]);
        let (u1, w1) = (f1[i], f1[j]);
        assert(u1 == rotated_row(u, p, q, c, s));
        assert(w1 == rotated_row(w, p, q, c, s));
        let g1 = form_terms(v, a1, u1, w1);
        let g = form_terms(v, a, u, w);
        assert forall|l: int| 0 <= l < n && l != p && l != q implies #[trigger] g1(l) == g(l) by {
            lemma_other_column(v, a, u, p, q, t, c, s, a1, l);
        }
        lemma_total_two(g1, g, n, p, q);
        lemma_turned_columns(v, a, u, p, q, t, c, s, a1);
        lemma_turned(
            v(c),
            v(s),
            column(v, a, u, p),
            column(v, a, u, q),
            v(w[p]),
            v(w[q]),
        );
        let h1 = inner_terms(v, u1, w1);
        let h = inner_terms(v, u, w);
        lemma_total_two(h1, h, n, p, q);
        lemma_turned(v(c), v(s), v(u[p]), v(u[q]), v(w[p]), v(w[q]));
    }
}

/// One for equal indices and zero for others.
pub open spec fn delta(i: int, j: int) -> real {
    if i == j {
        1real
    } else {
        0real
    }
}

/// Column `k` of the frame.
pub open spec fn frame_column<T>(v: spec_fn(T) -> real, f: Seq<Seq<T>>, k: int) -> spec_fn(
    int,
) -> real {
    |j: int| v(f[j][k])
}

/// The inner product of two vectors of `n` elements.
pub open spec fn inner(x: spec_fn(int) -> real, y: spec_fn(int) -> real, n: int) -> real {
    total(|j: int| times(x(j), y(j)), n)
}

/// Row `i` of a matrix.
pub open spec fn matrix_row<T>(v: spec_fn(T) -> real, a: Seq<Seq<T>>, i: int) -> spec_fn(
    int,
) -> real {
    |j: int| v(a[i][j])
}

/// An inner product is linear in its second vector.
proof fn lemma_inner_linear(
    x: spec_fn(int) -> real,
    y: spec_fn(int) -> real,
    z: spec_fn(int) -> real,
    w: spec_fn(int) -> real,
    c: real,
    s: real,
    n: int,
)
    requires
        forall|j: int| 0 <= j < n ==> #[trigger] w(j) == times(c, y(j)) + times(s, z(j)),
    ensures
        inner(x, w, n) == times(c, inner(x, y, n)) + times(s, inner(x, z, n)),
        inner(w, x, n) == inner(x, w, n),
{
    let none = |j: int| 0real;
    let xy = |j: int| times(x(j), y(j));
    let xz = |j: int| times(x(j), z(j));
    let xw = |j: int| times(x(j), w(j));
    let wx = |j: int| times(w(j), x(j));
    let first = |j: int| times(c, xy(j));
    lemma_zero_total(n);
    assert forall|j: int| 0 <= j < n implies #[trigger] first(j) == none(j) + times(c, xy(j)) by {}
    lemma_total_linear(none, xy, first, c, n);
    assert forall|j: int| 0 <= j < n implies #[trigger] xw(j) == first(j) + times(s, xz(j)) by {
        let (p, q) = (times(c, y(j)), times(s, z(j)));
        assert(w(j) == p + q);
        lemma_times_add(x(j), p, q);
        lemma_times_comm(x(j), p + q);
        lemma_times_comm(x(j), p);
        lemma_times_comm(x(j), q);
        lemma_swap_factor(x(j), c, y(j));
        lemma_swap_factor(x(j), s, z(j));
    }
    lemma_total_linear(first, xz, xw, s, n);
    assert forall|j: int| 0 <= j < n implies #[trigger] wx(j) == xw(j) by {
        lemma_times_comm(w(j), x(j));
    }
    lemma_total_same(wx, xw, n);
}

/// An inner product does not change where the second vector does not.
proof fn lemma_inner_same(
    x: spec_fn(int) -> real,
    y: spec_fn(int) -> real,
    w: spec_fn(int) -> real,
    n: int,
)
    requires
        forall|j: int| 0 <= j < n ==> #[trigger] w(j) == y(j),
    ensures
        inner(x, w, n) == inner(x, y, n),
        inner(w, x, n) == inner(y, x, n),
{
    lemma_total_same(|j: int| times(x(j), w(j)), |j: int| times(x(j), y(j)), n);
    lemma_total_same(|j: int| times(w(j), x(j)), |j: int| times(y(j), x(j)), n);
}

/// Inner products do not depend on the order of the vectors.
proof fn lemma_inner_comm(x: spec_fn(int) -> real, y: spec_fn(int) -> real, n: int)
    ensures
        inner(x, y, n) == inner(y, x, n),
{
    let f = |j: int| times(x(j), y(j));
    let g = |j: int| times(y(j), x(j));
    assert forall|j: int| 0 <= j < n implies #[trigger] f(j) == g(j) by {
        lemma_times_comm(x(j), y(j));
    }
    lemma_total_same(f, g, n);
}

/// A rotation turns columns `p` and `q` of the frame and leaves the others.
proof fn lemma_frame_turns<T: Number>(
    v: spec_fn(T) -> real,
    f: Seq<Seq<T>>,
    f1: Seq<Seq<T>>,
    p: int,
    q: int,
    c: T,
    s: T,
    x: spec_fn(int) -> real,
    k: int,
)
    requires
        exact(v),
        has_shape(f, f.len() as int, f.len() as int),
        0 <= p < q < f.len(),
        0 <= k < f.len(),
        f1 == Seq::new(f.len(), |i: int| rotated_row(f[i], p, q, c, s)),
    ensures
        ({
            let n = f.len() as int;
            let (y, z) = (frame_column(v, f, p), frame_column(v, f, q));
            let w = inner(x, frame_column(v, f1, k), n);
            &&& k == p ==> w == times(v(c), inner(x, y, n)) - times(v(s), inner(x, z, n))
            &&& k == q ==> w == times(v(s), inner(x, y, n)) + times(v(c), inner(x, z, n))
            &&& k != p && k != q ==> w == inner(x, frame_column(v, f, k), n)
            &&& inner(frame_column(v, f1, k), x, n) == w
        }),
{
    let n = f.len() as int;
    let (y, z) = (frame_column(v, f, p), frame_column(v, f, q));
    let w = frame_column(v, f1, k);
    let (co, si) = (v(c), v(s));
    if k == p {
        assert forall|j: int| 0 <= j < n implies #[trigger] w(j) == times(co, y(j)) + times(
            -si,
            z(j),
        ) by {
            assert(f[j].len() == n);
            lemma_times_neg(si, z(j));
        }
        lemma_inner_linear(x, y, z, w, co, -si, n);
        lemma_times_neg(si, inner(x, z, n));
    } else if k == q {
        assert forall|j: int| 0 <= j < n implies #[trigger] w(j) == times(si, y(j)) + times(
            co,
            z(j),
        ) by {
            assert(f[j].len() == n);
        }
        lemma_inner_linear(x, y, z, w, si, co, n);
    } else {
        let u = frame_column(v, f, k);
        assert forall|j: int| 0 <= j < n implies #[trigger] w(j) == u(j) by {
            assert(f[j].len() == n);
        }
        lemma_inner_same(x, u, w, n);
        lemma_inner_comm(x, u, n);
    }
}

/// The columns of the frame are orthonormal.
pub open spec fn columns_orthonormal<T>(v: spec_fn(T) -> real, f: Seq<Seq<T>>) -> bool {
    let n = f.len() as int;
    forall|k: int, l: int|
        0 <= k < n && 0 <= l < n ==> inner(
            #[trigger] frame_column(v, f, k),
            #[trigger] frame_column(v, f, l),
            n,
        ) == delta(k, l)
}

/// A rotation keeps the columns of the frame orthonormal.
proof fn lemma_columns_turn<T: Number>(
    v: spec_fn(T) -> real,
    f: Seq<Seq<T>>,
    f1: Seq<Seq<T>>,
    p: int,
    q: int,
    c: T,
    s: T,
)
    requires
        exact(v),
        has_shape(f, f.len() as int, f.len() as int),
        0 <= p < q < f.len(),
        times(v(c), v(c)) + times(v(s), v(s)) == 1real,
        f1 == Seq::new(f.len(), |i: int| rotated_row(f[i], p, q, c, s)),
        columns_orthonormal(v, f),
    ensures
        columns_orthonormal(v, f1),
{
    let n = f.len() as int;
    let (co, si) = (v(c), v(s));
    lemma_times_unit(co);
    lemma_times_unit(si);
    lemma_times_comm(co, si);
    lemma_times_neg(co, si);
    lemma_times_neg(si, si);
    lemma_times_neg(si, co);
    assert forall|k: int, l: int| 0 <= k < n && 0 <= l < n implies inner(
        #[trigger] frame_column(v, f1, k),
        #[trigger] frame_column(v, f1, l),
        n,
    ) == delta(k, l) by {
        let (y, z) = (frame_column(v, f, p), frame_column(v, f, q));
        let u = frame_column(v, f, k);
        let u1 = frame_column(v, f1, k);
        // The turned column against the columns before the turn.
        lemma_frame_turns(v, f, f1, p, q, c, s, y, k);
        lemma_frame_turns(v, f, f1, p, q, c, s, z, k);
        lemma_frame_turns(v, f, f1, p, q, c, s, frame_column(v, f, l), k);
        assert(inner(y, y, n) == delta(p, p));
        assert(inner(y, z, n) == delta(p, q));
        assert(inner(z, y, n) == delta(q, p));
        assert(inner(z, z, n) == delta(q, q));
        assert(inner(y, u, n) == delta(p, k));
        assert(inner(z, u, n) == delta(q, k));
        assert(inner(frame_column(v, f, l), y, n) == delta(l, p));
        assert(inner(frame_column(v, f, l), z, n) == delta(l, q));
        assert(inner(frame_column(v, f, l), u, n) == delta(l, k));
        lemma_inner_comm(y, u1, n);
        lemma_inner_comm(z, u1, n);
        // The turned column against the other turned column.
        lemma_frame_turns(v, f, f1, p, q, c, s, u1, l);
    }
}

/// The matrix `a0` sends the frame to itself times the matrix `d`: element `i` of the image of
/// column `k` is what column `k` of `d` gives from row `i` of the frame.
pub open spec fn sends_frame<T>(
    v: spec_fn(T) -> real,
    a0: Seq<Seq<T>>,
    d: Seq<Seq<T>>,
    f: Seq<Seq<T>>,
) -> bool {
    let n = a0.len() as int;
    forall|i: int, k: int|
        0 <= i < n && 0 <= k < n ==> inner(
            #[trigger] matrix_row(v, a0, i),
            #[trigger] frame_column(v, f, k),
            n,
        ) == column(v, d, f[i], k)
}

/// A symmetric matrix and an orthonormal frame from which it looks like the matrix `a0`.
pub open spec fn shows<T>(
    v: spec_fn(T) -> real, a0: Seq<Seq<T>>, s: (Seq<Seq<T>>,
    Seq<Seq<T>>),
) -> bool {
    let n = a0.len() as int;
    &&& is_symmetric(s.0)
    &&& has_shape(s.0, n, n)
    &&& has_shape(s.1, n, n)
    &&& forall|i: int, j: int|
        0 <= i < n && 0 <= j < n ==> form(v, s.0, #[trigger] s.1[i], #[trigger] s.1[j]) == v(
            a0[i][j],
        )
    &&& forall|i: int, j: int|
        0 <= i < n && 0 <= j < n ==> total(
            inner_terms(v, #[trigger] s.1[i], #[trigger] s.1[j]),
            n,
        ) == delta(i, j)
    &&& columns_orthonormal(v, s.1)
    &&& sends_frame(v, a0, s.0, s.1)
}

/// A rotation keeps what the frame shows.
proof fn lemma_rotate_shows<T: Number, M: Elementary<T>>(
    m: M,
    v: spec_fn(T) -> real,
    a0: Seq<Seq<T>>,
    s: (Seq<Seq<T>>, Seq<Seq<T>>),
    p: int,
    q: int,
)
    requires
        exact(v),
        sqrt_exact(m, v),
        v(decimal_of::<T, M>(m, 1, -300)) > 0real,
        shows(v, a0, s),
        0 <= p < q < a0.len(),
    ensures
        shows(v, a0, rotate_spec(m, s.0, s.1, p, q)),
{
    let n = a0.len() as int;
    let (a, f) = s;
    let r = rotate_spec(m, a, f, p, q);
    law_rotation_keeps_symmetry(m, a, f, p, q);
    assert forall|i: int| 0 <= i < n implies (#[trigger] r.0[i]).len() == n by {
        assert(a[i].len() == n);
    }
    assert forall|i: int| 0 <= i < n implies (#[trigger] r.1[i]).len() == n by {
        assert(f[i].len() == n);
    }
    assert forall|i: int, j: int| 0 <= i < n && 0 <= j < n implies form(
        v,
        r.0,
        #[trigger] r.1[i],
        #[trigger] r.1[j],
    ) == v(a0[i][j]) && total(inner_terms(v, r.1[i], r.1[j]), n) == delta(i, j) by {
        law_rotation_keeps_form(m, v, a, f, p, q, i, j);
        assert(form(v, a, f[i], f[j]) == v(a0[i][j]));
        assert(total(inner_terms(v, f[i], f[j]), n) == delta(i, j));
    }
    let apq = a[p][q];
    if !magnitude(apq).is_lt(&decimal_of::<T, M>(m, 1, -300)) {
        assert(v(apq) != 0real);
        let (t, c, si) = rotation_spec(m, a[p][p], a[q][q], apq);
        lemma_rotation(m, v, a[p][p], a[q][q], apq);
        lemma_columns_turn(v, f, r.1, p, q, c, si);
        assert forall|i: int, k: int| 0 <= i < n && 0 <= k < n implies inner(
            #[trigger] matrix_row(v, a0, i),
            #[trigger] frame_column(v, r.1, k),
            n,
        ) == column(v, r.0, r.1[i], k) by {
            let x = matrix_row(v, a0, i);
            let u = f[i];
            assert(u.len() == n);
            assert(r.1[i] == rotated_row(u, p, q, c, si));
            lemma_frame_turns(v, f, r.1, p, q, c, si, x, k);
            assert(inner(x, frame_column(v, f, p), n) == column(v, a, u, p));
            assert(inner(x, frame_column(v, f, q), n) == column(v, a, u, q));
            assert(inner(x, frame_column(v, f, k), n) == column(v, a, u, k));
            if k == p || k == q {
                lemma_turned_columns(v, a, u, p, q, t, c, si, r.0);
            } else {
                lemma_other_column(v, a, u, p, q, t, c, si, r.0, k);
            }
        }
    }
}

/// The rotations of a row keep what the frame shows.
proof fn lemma_row_shows<T: Number, M: Elementary<T>>(
    m: M,
    v: spec_fn(T) -> real,
    a0: Seq<Seq<T>>,
    s: (Seq<Seq<T>>, Seq<Seq<T>>),
    p: int,
    upto: int,
)
    requires
        exact(v),
        sqrt_exact(m, v),
        v(decimal_of::<T, M>(m, 1, -300)) > 0real,
        shows(v, a0, s),
        0 <= p,
        upto <= a0.len(),
    ensures
        shows(v, a0, rotate_row(m, s, p, upto)),
    decreases upto,
{
    if upto > p + 1 && upto > 0 {
        lemma_row_shows(m, v, a0, s, p, upto - 1);
        lemma_rotate_shows(m, v, a0, rotate_row(m, s, p, upto - 1), p, upto - 1);
    }
}

/// A sweep keeps what the frame shows.
proof fn lemma_sweep_shows<T: Number, M: Elementary<T>>(
    m: M,
    v: spec_fn(T) -> real,
    a0: Seq<Seq<T>>,
    s: (Seq<Seq<T>>, Seq<Seq<T>>),
    n: int,
)
    requires
        exact(v),
        sqrt_exact(m, v),
        v(decimal_of::<T, M>(m, 1, -300)) > 0real,
        shows(v, a0, s),
    ensures
        shows(v, a0, sweep(m, s, n)),
    decreases n,
{
    if n > 0 {
        lemma_sweep_shows(m, v, a0, s, n - 1);
        lemma_row_shows(m, v, a0, sweep(m, s, n - 1), n - 1, s.0.len() as int);
    }
}

/// Sweeps keep what the frame shows.
proof fn lemma_diagonalized_shows<T: Number, M: Elementary<T>>(
    m: M,
    v: spec_fn(T) -> real,
    a0: Seq<Seq<T>>,
    s: (Seq<Seq<T>>, Seq<Seq<T>>),
    left: nat,
)
    requires
        exact(v),
        sqrt_exact(m, v),
        v(decimal_of::<T, M>(m, 1, -300)) > 0real,
        shows(v, a0, s),
    ensures
        shows(v, a0, diagonalized(m, s, left)),
    decreases left,
{
    if left > 0 {
        let n = s.0.len() as int;
        lemma_sweep_shows(m, v, a0, s, n);
        lemma_diagonalized_shows(m, v, a0, sweep(m, s, n), (left - 1) as nat);
    }
}

/// The matrix looks like itself from the frame of the axes.
proof fn lemma_axes_show<T: Number>(v: spec_fn(T) -> real, a: Seq<Seq<T>>)
    requires
        exact(v),
        is_symmetric(a),
        has_shape(a, a.len() as int, a.len() as int),
    ensures
        shows(v, a, (a, identity_spec(a.len() as int))),
{
    let n = a.len() as int;
    let f = identity_spec::<T>(n);
    assert forall|i: int, j: int| 0 <= i < n && 0 <= j < n implies form(
        v,
        a,
        #[trigger] f[i],
        #[trigger] f[j],
    ) == v(a[i][j]) && total(inner_terms(v, f[i], f[j]), n) == delta(i, j) by {
        assert forall|l: int| 0 <= l < n implies #[trigger] column(v, a, f[i], l) == v(a[i][l]) by {
            let g = column_terms(v, a, f[i], l);
            assert forall|k: int| 0 <= k < n && k != i implies #[trigger] g(k) == 0real by {
                lemma_times_unit(v(a[k][l]));
            }
            lemma_total_single(g, n, i);
            lemma_times_unit(v(a[i][l]));
        }
        let h = form_terms(v, a, f[i], f[j]);
        assert forall|l: int| 0 <= l < n && l != j implies #[trigger] h(l) == 0real by {
            lemma_times_unit(column(v, a, f[i], l));
        }
        lemma_total_single(h, n, j);
        lemma_times_unit(column(v, a, f[i], j));
        let e = inner_terms(v, f[i], f[j]);
        assert forall|k: int| 0 <= k < n && k != i implies #[trigger] e(k) == 0real by {
            lemma_times_unit(v(f[j][k]));
        }
        lemma_total_single(e, n, i);
        lemma_times_unit(v(f[j][i]));
    }
    assert forall|k: int, l: int| 0 <= k < n && 0 <= l < n implies inner(
        #[trigger] frame_column(v, f, k),
        #[trigger] frame_column(v, f, l),
        n,
    ) == delta(k, l) by {
        let (x, y) = (frame_column(v, f, k), frame_column(v, f, l));
        let e = |j: int| times(x(j), y(j));
        assert forall|j: int| 0 <= j < n && j != k implies #[trigger] e(j) == 0real by {
            lemma_times_unit(y(j));
        }
        lemma_total_single(e, n, k);
        lemma_times_unit(y(k));
    }
    assert forall|i: int, k: int| 0 <= i < n && 0 <= k < n implies inner(
        #[trigger] matrix_row(v, a, i),
        #[trigger] frame_column(v, f, k),
        n,
    ) == column(v, a, f[i], k) by {
        let (x, y) = (matrix_row(v, a, i), frame_column(v, f, k));
        let e = |j: int| times(x(j), y(j));
        assert forall|j: int| 0 <= j < n && j != k implies #[trigger] e(j) == 0real by {
            lemma_times_unit(x(j));
        }
        lemma_total_single(e, n, k);
        lemma_times_unit(x(k));
        let g = column_terms(v, a, f[i], k);
        assert forall|j: int| 0 <= j < n && j != i implies #[trigger] g(j) == 0real by {
            lemma_times_unit(v(a[j][k]));
        }
        lemma_total_single(g, n, i);
        lemma_times_unit(v(a[i][k]));
    }
}

/// The eigenvalue iteration ends with a frame that is orthonormal and from which the matrix
/// that it ends with looks like the one given.
pub proof fn law_jacobi_shows<T: Number, M: Elementary<T>>(
    m: M,
    v: spec_fn(T) -> real,
    a: Seq<Seq<T>>,
)
    requires
        exact(v),
        sqrt_exact(m, v),
        v(decimal_of::<T, M>(m, 1, -300)) > 0real,
        is_symmetric(a),
        has_shape(a, a.len() as int, a.len() as int),
    ensures
        shows(v, a, diagonalized(m, (a, identity_spec(a.len() as int)), MAX_SWEEPS as nat)),
{
    lemma_axes_show(v, a);
    lemma_diagonalized_shows(m, v, a, (a, identity_spec(a.len() as int)), MAX_SWEEPS as nat);
}

/// The eigenvalues and eigenvectors reconstruct the matrix, where the iteration has cleared
/// all that is off the diagonal: entry (`i`, `j`) is the sum over the eigenvectors of the
/// eigenvalue times their elements `i` and `j`.
pub proof fn law_jacobi_reconstructs<T: Number, M: Elementary<T>>(
    m: M,
    v: spec_fn(T) -> real,
    a: Seq<Seq<T>>,
    i: int,
    j: int,
)
    requires
        exact(v),
        sqrt_exact(m, v),
        v(decimal_of::<T, M>(m, 1, -300)) > 0real,
        is_symmetric(a),
        has_shape(a, a.len() as int, a.len() as int),
        0 <= i < a.len(),
        0 <= j < a.len(),
        ({
            let d = diagonalized(m, (a, identity_spec(a.len() as int)), MAX_SWEEPS as nat).0;
            forall|k: int, l: int|
                0 <= k < a.len() && 0 <= l < a.len() && k != l ==> v(#[trigger] d[k][l]) == 0real
        }),
    ensures
        ({
            let (eig, vecs) = jacobi_eigen_spec(m, a);
            total(
                |k: int| times(times(v(vecs[k][i]), v(eig[k])), v(vecs[k][j])),
                a.len() as int,
            ) == v(a[i][j])
        }),
{
    let n = a.len() as int;
    let (d, f) = diagonalized(m, (a, identity_spec(n)), MAX_SWEEPS as nat);
    let (eig, vecs) = jacobi_eigen_spec(m, a);
    law_jacobi_shows(m, v, a);
    assert(form(v, d, f[i], f[j]) == v(a[i][j]));
    let g = form_terms(v, d, f[i], f[j]);
    let h = |k: int| times(times(v(vecs[k][i]), v(eig[k])), v(vecs[k][j]));
    assert forall|l: int| 0 <= l < n implies #[trigger] g(l) == h(l) by {
        let c = column_terms(v, d, f[i], l);
        assert forall|k: int| 0 <= k < n && k != l implies #[trigger] c(k) == 0real by {
            assert(v(d[k][l]) == 0real);
            lemma_times_unit(v(f[i][k]));
        }
        lemma_total_single(c, n, l);
    }
    lemma_total_same(g, h, n);
}

/// The eigenvectors are orthonormal.
pub proof fn law_eigenvectors_orthonormal<T: Number, M: Elementary<T>>(
    m: M,
    v: spec_fn(T) -> real,
    a: Seq<Seq<T>>,
    k: int,
    l: int,
)
    requires
        exact(v),
        sqrt_exact(m, v),
        v(decimal_of::<T, M>(m, 1, -300)) > 0real,
        is_symmetric(a),
        has_shape(a, a.len() as int, a.len() as int),
        0 <= k < a.len(),
        0 <= l < a.len(),
    ensures
        ({
            let (eig, vecs) = jacobi_eigen_spec(m, a);
            total(inner_terms(v, vecs[k], vecs[l]), a.len() as int) == delta(k, l)
        }),
{
    let n = a.len() as int;
    let (d, f) = diagonalized(m, (a, identity_spec(n)), MAX_SWEEPS as nat);
    let (eig, vecs) = jacobi_eigen_spec(m, a);
    law_jacobi_shows(m, v, a);
    let (x, y) = (frame_column(v, f, k), frame_column(v, f, l));
    assert(inner(x, y, n) == delta(k, l));
    lemma_total_same(inner_terms(v, vecs[k], vecs[l]), |j: int| times(x(j), y(j)), n);
}

/// The terms of `left_off_diagonal`.
pub open spec fn left_terms<T>(
    v: spec_fn(T) -> real,
    d: Seq<Seq<T>>,
    f: Seq<Seq<T>>,
    i: int,
    k: int,
) -> spec_fn(int) -> real {
    |l: int|
        if l == k {
            0real
        } else {
            times(v(f[i][l]), v(d[l][k]))
        }
}

/// What is left off the diagonal in column `k` of `d`, seen from row `i` of the frame.
pub open spec fn left_off_diagonal<T>(
    v: spec_fn(T) -> real,
    d: Seq<Seq<T>>,
    f: Seq<Seq<T>>,
    i: int,
    k: int,
) -> real {
    total(left_terms(v, d, f, i, k), d.len() as int)
}

/// The eigenvalues and the eigenvectors belong together: the matrix sends an eigenvector to its
/// eigenvalue times itself, but for what the iteration has left off the diagonal.
pub proof fn law_eigenpairs<T: Number, M: Elementary<T>>(
    m: M,
    v: spec_fn(T) -> real,
    a: Seq<Seq<T>>,
    i: int,
    k: int,
)
    requires
        exact(v),
        sqrt_exact(m, v),
        v(decimal_of::<T, M>(m, 1, -300)) > 0real,
        is_symmetric(a),
        has_shape(a, a.len() as int, a.len() as int),
        0 <= i < a.len(),
        0 <= k < a.len(),
    ensures
        ({
            let (d, f) = diagonalized(
                m,
                (a, identity_spec(a.len() as int)),
                MAX_SWEEPS as nat,
            );
            let (eig, vecs) = jacobi_eigen_spec(m, a);
            total(inner_terms(v, a[i], vecs[k]), a.len() as int) == times(v(eig[k]), v(vecs[k][i]))
                + left_off_diagonal(v, d, f, i, k)
        }),
{
    let n = a.len() as int;
    let (d, f) = diagonalized(m, (a, identity_spec(n)), MAX_SWEEPS as nat);
    let (eig, vecs) = jacobi_eigen_spec(m, a);
    law_jacobi_shows(m, v, a);
    let (x, y) = (matrix_row(v, a, i), frame_column(v, f, k));
    assert(inner(x, y, n) == column(v, d, f[i], k));
    lemma_total_same(inner_terms(v, a[i], vecs[k]), |j: int| times(x(j), y(j)), n);
    let g = column_terms(v, d, f[i], k);
    lemma_total_one(g, left_terms(v, d, f, i, k), n, k);
    lemma_times_comm(v(f[i][k]), v(d[k][k]));
}

/// The squares of the entries of row `i` off the diagonal.
pub open spec fn off_terms<T>(v: spec_fn(T) -> real, a: Seq<Seq<T>>, i: int) -> spec_fn(
    int,
) -> real {
    |j: int|
        if j == i {
            0real
        } else {
            times(v(a[i][j]), v(a[i][j]))
        }
}

/// The sums of the squares off the diagonal, row by row.
pub open spec fn off_rows<T>(v: spec_fn(T) -> real, a: Seq<Seq<T>>) -> spec_fn(int) -> real {
    |i: int| total(off_terms(v, a, i), a.len() as int)
}

/// The sum of the squares off the diagonal.
pub open spec fn off_diagonal<T>(v: spec_fn(T) -> real, a: Seq<Seq<T>>) -> real {
    total(off_rows(v, a), a.len() as int)
}

/// A rotation lessens the sum of the squares off the diagonal by twice the square of the entry
/// that it clears; where it takes that entry for zero it leaves the sum as it is.
pub proof fn law_rotation_lessens<T: Number, M: Elementary<T>>(
    m: M,
    v: spec_fn(T) -> real,
    a: Seq<Seq<T>>,
    f: Seq<Seq<T>>,
    p: int,
    q: int,
)
    requires
        exact(v),
        sqrt_exact(m, v),
        v(decimal_of::<T, M>(m, 1, -300)) > 0real,
        is_symmetric(a),
        has_shape(a, a.len() as int, a.len() as int),
        0 <= p < q < a.len(),
    ensures
        ({
            let a1 = rotate_spec(m, a, f, p, q).0;
            let w = v(a[p][q]);
            if v(magnitude(a[p][q])) < v(decimal_of::<T, M>(m, 1, -300)) {
                off_diagonal(v, a1) == off_diagonal(v, a)
            } else {
                &&& off_diagonal(v, a1) == off_diagonal(v, a) - 2real * times(w, w)
                &&& off_diagonal(v, a1) < off_diagonal(v, a)
            }
        }),
{
    let n = a.len() as int;
    let apq = a[p][q];
    let a1 = rotate_spec(m, a, f, p, q).0;
    let w = v(apq);
    if !magnitude(apq).is_lt(&decimal_of::<T, M>(m, 1, -300)) {
        assert(w != 0real);
        lemma_square(w);
        let (t, c, s) = rotation_spec(m, a[p][p], a[q][q], apq);
        lemma_rotation(m, v, a[p][p], a[q][q], apq);
        let (co, si) = (v(c), v(s));
        assert forall|r: int| 0 <= r < n && r != p && r != q implies #[trigger] off_rows(v, a1)(r)
            == off_rows(v, a)(r) by {
            assert(a[r].len() == n);
            lemma_total_two(off_terms(v, a1, r), off_terms(v, a, r), n, p, q);
            let (x, y) = (v(a[r][p]), v(a[r][q]));
            lemma_turned(co, si, x, y, x, y);
        }
        lemma_total_two(off_rows(v, a1), off_rows(v, a), n, p, q);
        // Rows `p` and `q` together.
        let (gp, gq) = (off_terms(v, a, p), off_terms(v, a, q));
        let (hp, hq) = (off_terms(v, a1, p), off_terms(v, a1, q));
        let g = |j: int| gp(j) + times(1real, gq(j));
        let h = |j: int| hp(j) + times(1real, hq(j));
        lemma_total_linear(gp, gq, g, 1real, n);
        lemma_total_linear(hp, hq, h, 1real, n);
        lemma_times_unit(total(gq, n));
        lemma_times_unit(total(hq, n));
        assert(a[q][p] == a[p][q]);
        assert forall|j: int| 0 <= j < n && j != p && j != q implies #[trigger] h(j) == g(j) by {
            assert(a[p][j] == a[j][p]);
            assert(a[q][j] == a[j][q]);
            let (x, y) = (v(a[j][p]), v(a[j][q]));
            lemma_turned(co, si, x, y, x, y);
            lemma_times_unit(gq(j));
            lemma_times_unit(hq(j));
        }
        lemma_total_two(h, g, n, p, q);
        lemma_times_unit(0real);
        lemma_times_unit(gq(p));
        lemma_times_unit(gq(q));
        lemma_times_unit(hq(p));
        lemma_times_unit(hq(q));
    }
}

/// The rotations of a row never make the sum of the squares off the diagonal larger.
proof fn lemma_row_lessens<T: Number, M: Elementary<T>>(
    m: M,
    v: spec_fn(T) -> real,
    a0: Seq<Seq<T>>,
    s: (Seq<Seq<T>>, Seq<Seq<T>>),
    p: int,
    upto: int,
)
    requires
        exact(v),
        sqrt_exact(m, v),
        v(decimal_of::<T, M>(m, 1, -300)) > 0real,
        shows(v, a0, s),
        0 <= p,
        upto <= a0.len(),
    ensures
        off_diagonal(v, rotate_row(m, s, p, upto).0) <= off_diagonal(v, s.0),
    decreases upto,
{
    if upto > p + 1 && upto > 0 {
        lemma_row_lessens(m, v, a0, s, p, upto - 1);
        lemma_row_shows(m, v, a0, s, p, upto - 1);
        let (a, f) = rotate_row(m, s, p, upto - 1);
        law_rotation_lessens(m, v, a, f, p, upto - 1);
    }
}

/// A sweep never makes the sum of the squares off the diagonal larger.
proof fn lemma_sweep_lessens<T: Number, M: Elementary<T>>(
    m: M,
    v: spec_fn(T) -> real,
    a0: Seq<Seq<T>>,
    s: (Seq<Seq<T>>, Seq<Seq<T>>),
    n: int,
)
    requires
        exact(v),
        sqrt_exact(m, v),
        v(decimal_of::<T, M>(m, 1, -300)) > 0real,
        shows(v, a0, s),
    ensures
        off_diagonal(v, sweep(m, s, n).0) <= off_diagonal(v, s.0),
    decreases n,
{
    if n > 0 {
        lemma_sweep_lessens(m, v, a0, s, n - 1);
        lemma_sweep_shows(m, v, a0, s, n - 1);
        lemma_row_lessens(m, v, a0, sweep(m, s, n - 1), n - 1, s.0.len() as int);
    }
}

/// Sweeps never make the sum of the squares off the diagonal larger.
proof fn lemma_sweeps_lessen<T: Number, M: Elementary<T>>(
    m: M,
    v: spec_fn(T) -> real,
    a0: Seq<Seq<T>>,
    s: (Seq<Seq<T>>, Seq<Seq<T>>),
    left: nat,
)
    requires
        exact(v),
        sqrt_exact(m, v),
        v(decimal_of::<T, M>(m, 1, -300)) > 0real,
        shows(v, a0, s),
    ensures
        off_diagonal(v, diagonalized(m, s, left).0) <= off_diagonal(v, s.0),
    decreases left,
{
    if left > 0 {
        let n = s.0.len() as int;
        lemma_sweep_lessens(m, v, a0, s, n);
        lemma_sweep_shows(m, v, a0, s, n);
        lemma_sweeps_lessen(m, v, a0, sweep(m, s, n), (left - 1) as nat);
    }
}

/// The eigenvalue iteration leaves no more off the diagonal than the matrix had.
pub proof fn law_iteration_lessens<T: Number, M: Elementary<T>>(
    m: M,
    v: spec_fn(T) -> real,
    a: Seq<Seq<T>>,
)
    requires
        exact(v),
        sqrt_exact(m, v),
        v(decimal_of::<T, M>(m, 1, -300)) > 0real,
        is_symmetric(a),
        has_shape(a, a.len() as int, a.len() as int),
    ensures
        off_diagonal(
            v,
            diagonalized(m, (a, identity_spec(a.len() as int)), MAX_SWEEPS as nat).0,
        ) <= off_diagonal(v, a),
{
    lemma_axes_show(v, a);
    lemma_sweeps_lessen(m, v, a, (a, identity_spec(a.len() as int)), MAX_SWEEPS as nat);
}

/// The square of a sum.
proof fn lemma_square_of_sum(a: real, b: real)
    ensures
        times(a + b, a + b) == times(a, a) + 2real * times(a, b) + times(b, b),
{
    lemma_times_add(a + b, a, b);
    lemma_times_add(a, a, b);
    lemma_times_add(b, a, b);
    lemma_times_comm(a, a + b);
    lemma_times_comm(b, a + b);
    lemma_times_comm(a, b);
}

/// One more pair of elements keeps the inequality of Cauchy and Schwarz.
proof fn lemma_cauchy_step(s: real, a: real, b: real, x: real, y: real)
    requires
        a >= 0real,
        b >= 0real,
        times(s, s) <= times(a, b),
    ensures
        times(s + times(x, y), s + times(x, y)) <= times(a + times(x, x), b + times(y, y)),
{
    let (xx, yy, p) = (times(x, x), times(y, y), times(x, y));
    let (u, w) = (times(a, yy), times(b, xx));
    let sp = times(s, p);
    lemma_square(x);
    lemma_square(y);
    lemma_times_not_negative(a, yy);
    lemma_times_not_negative(b, xx);
    assert(2real * sp <= u + w) by {
        lemma_square_of_product(s, p);
        lemma_square_of_product(x, y);
        lemma_times_not_negative(xx, yy);
        let pp = times(p, p);
        assert(times(sp, sp) <= times(times(a, b), pp)) by {
            lemma_times_sub(pp, times(a, b), times(s, s));
            lemma_times_not_negative(times(a, b) - times(s, s), pp);
        }
        assert(times(u, w) == times(times(a, b), pp)) by {
            lemma_pairs(a, yy, b, xx);
            lemma_times_comm(yy, xx);
        }
        lemma_square_of_sum(u, w);
        lemma_square(u - w);
        lemma_square_of_sum(u, -w);
        lemma_times_neg(u, w);
        lemma_times_neg(w, w);
        lemma_times_neg(w, -w);
        lemma_multiple(2real, sp, 2real * sp);
        lemma_multiple(2real, sp, sp);
        if 2real * sp > u + w {
            lemma_difference_of_squares(2real * sp, u + w);
            lemma_times_positive(2real * sp - (u + w), 2real * sp + (u + w));
        }
    }
    lemma_square_of_sum(s, p);
    lemma_square_of_product(x, y);
    lemma_times_add(b + yy, a, xx);
    lemma_times_add(a, b, yy);
    lemma_times_add(xx, b, yy);
    lemma_times_comm(a, b + yy);
    lemma_times_comm(a, b);
    lemma_times_comm(a, yy);
    lemma_times_comm(xx, b + yy);
    lemma_times_comm(xx, b);
    lemma_times_comm(xx, yy);
}

/// The inequality of Cauchy and Schwarz.
proof fn lemma_cauchy(x: spec_fn(int) -> real, y: spec_fn(int) -> real, n: int)
    ensures
        inner(x, x, n) >= 0real,
        inner(y, y, n) >= 0real,
        times(inner(x, y, n), inner(x, y, n)) <= times(inner(x, x, n), inner(y, y, n)),
    decreases n,
{
    if n > 0 {
        lemma_cauchy(x, y, n - 1);
        let k = n - 1;
        lemma_square(x(k));
        lemma_square(y(k));
        lemma_cauchy_step(inner(x, y, k), inner(x, x, k), inner(y, y, k), x(k), y(k));
    } else {
        lemma_times_unit(0real);
    }
}

/// A sum of terms that are not negative is not negative, nor less than any of them.
proof fn lemma_total_bounds(f: spec_fn(int) -> real, n: int, k: int)
    requires
        forall|i: int| 0 <= i < n ==> #[trigger] f(i) >= 0real,
    ensures
        total(f, n) >= 0real,
        0 <= k < n ==> f(k) <= total(f, n),
    decreases n,
{
    if n > 0 {
        lemma_total_bounds(f, n - 1, k);
    }
}

/// How far an eigenvector is from one: the square of what the matrix sends it to, less its
/// eigenvalue times itself, is in no element more than the sum of the squares that the iteration
/// has left off the diagonal.
pub proof fn law_eigenpair_error<T: Number, M: Elementary<T>>(
    m: M,
    v: spec_fn(T) -> real,
    a: Seq<Seq<T>>,
    i: int,
    k: int,
)
    requires
        exact(v),
        sqrt_exact(m, v),
        v(decimal_of::<T, M>(m, 1, -300)) > 0real,
        is_symmetric(a),
        has_shape(a, a.len() as int, a.len() as int),
        0 <= i < a.len(),
        0 <= k < a.len(),
    ensures
        ({
            let d = diagonalized(m, (a, identity_spec(a.len() as int)), MAX_SWEEPS as nat).0;
            let (eig, vecs) = jacobi_eigen_spec(m, a);
            let e = total(inner_terms(v, a[i], vecs[k]), a.len() as int) - times(
                v(eig[k]),
                v(vecs[k][i]),
            );
            times(e, e) <= off_diagonal(v, d)
        }),
{
    let n = a.len() as int;
    let (d, f) = diagonalized(m, (a, identity_spec(n)), MAX_SWEEPS as nat);
    law_jacobi_shows(m, v, a);
    law_eigenpairs(m, v, a, i, k);
    let x = |l: int|
        if l == k {
            0real
        } else {
            v(f[i][l])
        };
    let y = |l: int|
        if l == k {
            0real
        } else {
            v(d[l][k])
        };
    let xy = |l: int| times(x(l), y(l));
    let xx = |l: int| times(x(l), x(l));
    let yy = |l: int| times(y(l), y(l));
    lemma_times_unit(0real);
    lemma_total_same(left_terms(v, d, f, i, k), xy, n);
    lemma_cauchy(x, y, n);
    // The row of the frame has length one.
    let whole = inner_terms(v, f[i], f[i]);
    assert(total(whole, n) == delta(i, i));
    lemma_total_one(xx, whole, n, k);
    lemma_square(v(f[i][k]));
    assert(inner(x, x, n) <= 1real);
    // The column is the row, for the matrix is symmetric.
    assert forall|l: int| 0 <= l < n implies #[trigger] yy(l) == off_terms(v, d, k)(l) by {
        assert(d[l][k] == d[k][l]);
    }
    lemma_total_same(yy, off_terms(v, d, k), n);
    assert forall|r: int| 0 <= r < n implies #[trigger] off_rows(v, d)(r) >= 0real by {
        let g = off_terms(v, d, r);
        assert forall|j: int| 0 <= j < n implies #[trigger] g(j) >= 0real by {
            lemma_square(v(d[r][j]));
        }
        lemma_total_bounds(g, n, 0);
    }
    lemma_total_bounds(off_rows(v, d), n, k);
    let (p, q) = (inner(x, x, n), inner(y, y, n));
    lemma_times_sub(q, 1real, p);
    lemma_times_unit(q);
    lemma_times_not_negative(1real - p, q);
}

/// Sweeps, all `n` of them.
pub open spec fn sweeps_in_full<T: Number, M: Elementary<T>>(
    m: M,
    s: (Seq<Seq<T>>, Seq<Seq<T>>),
    n: nat,
) -> (Seq<Seq<T>>, Seq<Seq<T>>)
    decreases n,
{
    if n == 0 {
        s
    } else {
        sweeps_in_full(m, sweep(m, s, s.0.len() as int), (n - 1) as nat)
    }
}

/// How the eigenvalue iteration ends: with what is beyond the diagonal as good as zero, or after
/// all the sweeps that it may take.
pub proof fn law_iteration_ends<T: Number, M: Elementary<T>>(
    m: M,
    s: (Seq<Seq<T>>, Seq<Seq<T>>),
    left: nat,
)
    ensures
        sqrt_of(m, off_diagonal_spec(diagonalized(m, s, left).0)).is_lt(
            &decimal_of::<T, M>(m, 1, -14),
        ) || diagonalized(m, s, left) == sweeps_in_full(m, s, left),
    decreases left,
{
    if left > 0 {
        law_iteration_ends(m, sweep(m, s, s.0.len() as int), (left - 1) as nat);
    }
}

/// The squares of the entries of row `i` beyond the diagonal, as real numbers.
pub open spec fn beyond_terms<T>(v: spec_fn(T) -> real, a: Seq<Seq<T>>, i: int) -> spec_fn(
    int,
) -> real {
    |k: int| times(v(a[i][i + 1 + k]), v(a[i][i + 1 + k]))
}

/// The sums of the squares beyond the diagonal in the first `b` columns, row by row.
pub open spec fn beyond_rows<T>(v: spec_fn(T) -> real, a: Seq<Seq<T>>, b: int) -> spec_fn(
    int,
) -> real {
    |i: int| total(beyond_terms(v, a, i), b - i - 1)
}

/// The sums of the squares off the diagonal in the first `b` columns, row by row.
pub open spec fn off_rows_within<T>(v: spec_fn(T) -> real, a: Seq<Seq<T>>, b: int) -> spec_fn(
    int,
) -> real {
    |i: int| total(off_terms(v, a, i), b)
}

/// In the first `b` rows and columns of a symmetric matrix, there is twice as much off the
/// diagonal as beyond it.
proof fn lemma_twice_beyond<T: Number>(v: spec_fn(T) -> real, a: Seq<Seq<T>>, b: int)
    requires
        is_symmetric(a),
        has_shape(a, a.len() as int, a.len() as int),
        0 <= b <= a.len(),
    ensures
        total(off_rows_within(v, a, b), b) == 2real * total(beyond_rows(v, a, b), b),
    decreases b,
{
    if b > 0 {
        let c = b - 1;
        lemma_twice_beyond(v, a, c);
        let last = |i: int| times(v(a[i][c]), v(a[i][c]));
        let (f, f1) = (off_rows_within(v, a, c), off_rows_within(v, a, b));
        let (g, g1) = (beyond_rows(v, a, c), beyond_rows(v, a, b));
        assert forall|i: int| 0 <= i < c implies #[trigger] f1(i) == f(i) + times(
            1real,
            last(i),
        ) by {
            lemma_times_unit(last(i));
        }
        assert forall|i: int| 0 <= i < c implies #[trigger] g1(i) == g(i) + times(
            1real,
            last(i),
        ) by {
            lemma_times_unit(last(i));
            assert(beyond_terms(v, a, i)(c - i - 1) == last(i));
        }
        lemma_total_linear(f, last, f1, 1real, c);
        lemma_total_linear(g, last, g1, 1real, c);
        lemma_times_unit(total(last, c));
        // The last row is the last column.
        let row = off_terms(v, a, c);
        assert forall|j: int| 0 <= j < c implies #[trigger] row(j) == last(j) by {
            assert(a[c][j] == a[j][c]);
        }
        lemma_total_same(row, last, c);
    }
}

/// The sum that the iteration watches is half of what is off the diagonal.
proof fn lemma_watched_sum<T: Number>(v: spec_fn(T) -> real, a: Seq<Seq<T>>)
    requires
        exact(v),
        is_symmetric(a),
        has_shape(a, a.len() as int, a.len() as int),
    ensures
        2real * v(off_diagonal_spec(a)) == off_diagonal(v, a),
{
    let n = a.len() as int;
    lemma_twice_beyond(v, a, n);
    let rows = |i: int| sum(beyond_diagonal(a, i), a.len() - i - 1);
    assert forall|i: int| 0 <= i < n implies v(#[trigger] rows(i)) == beyond_rows(v, a, n)(i) by {
        lemma_sum_total(v, beyond_diagonal(a, i), beyond_terms(v, a, i), n - i - 1);
    }
    lemma_sum_total(v, rows, beyond_rows(v, a, n), n);
    lemma_total_same(off_rows(v, a), off_rows_within(v, a, n), n);
}

/// A sum has the sum of the values.
proof fn lemma_sum_total<T: Number>(
    v: spec_fn(T) -> real,
    f: spec_fn(int) -> T,
    g: spec_fn(int) -> real,
    n: int,
)
    requires
        exact(v),
        forall|i: int| 0 <= i < n ==> v(#[trigger] f(i)) == g(i),
    ensures
        v(sum(f, n)) == total(g, n),
    decreases n,
{
    if n > 0 {
        lemma_sum_total(v, f, g, n - 1);
    }
}

/// Where the iteration ends before its sweeps are used up, the eigenvectors are as good as
/// exact: in no element is the matrix times one further from its eigenvalue times itself than
/// the root of two times the tolerance.
pub proof fn law_converged_eigenpairs<T: Number, M: Elementary<T>>(
    m: M,
    v: spec_fn(T) -> real,
    a: Seq<Seq<T>>,
    i: int,
    k: int,
)
    requires
        exact(v),
        sqrt_exact(m, v),
        v(decimal_of::<T, M>(m, 1, -300)) > 0real,
        is_symmetric(a),
        has_shape(a, a.len() as int, a.len() as int),
        0 <= i < a.len(),
        0 <= k < a.len(),
        ({
            let s = (a, identity_spec(a.len() as int));
            diagonalized(m, s, MAX_SWEEPS as nat) != sweeps_in_full(m, s, MAX_SWEEPS as nat)
        }),
    ensures
        ({
            let (eig, vecs) = jacobi_eigen_spec(m, a);
            let e = total(inner_terms(v, a[i], vecs[k]), a.len() as int) - times(
                v(eig[k]),
                v(vecs[k][i]),
            );
            let tolerance = v(decimal_of::<T, M>(m, 1, -14));
            times(e, e) <= 2real * times(tolerance, tolerance)
        }),
{
    let n = a.len() as int;
    let s = (a, identity_spec::<T>(n));
    let d = diagonalized(m, s, MAX_SWEEPS as nat).0;
    law_iteration_ends(m, s, MAX_SWEEPS as nat);
    law_jacobi_shows(m, v, a);
    law_eigenpair_error(m, v, a, i, k);
    lemma_watched_sum(v, d);
    let off = off_diagonal_spec(d);
    assert forall|r: int| 0 <= r < n implies #[trigger] off_rows(v, d)(r) >= 0real by {
        let g = off_terms(v, d, r);
        assert forall|j: int| 0 <= j < n implies #[trigger] g(j) >= 0real by {
            lemma_square(v(d[r][j]));
        }
        lemma_total_bounds(g, n, 0);
    }
    lemma_total_bounds(off_rows(v, d), n, 0);
    let (x, y) = (v(sqrt_of(m, off)), v(decimal_of::<T, M>(m, 1, -14)));
    lemma_difference_of_squares(y, x);
    lemma_times_not_negative(y - x, y + x);
}

} // verus!
