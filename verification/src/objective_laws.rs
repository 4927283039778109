//! What a fit is for: each quote counts by its own weight and no further, a prior counts by the
//! distance from it, and the derivatives are those of the residuals.
use crate::bsm::bsm_price_and_greeks_spec;
use crate::calibration::{
    augmented_jacobian, augmented_residuals, augmented_weights, calibrate_spec, fit_end,
    fit_iteration, fit_run, fit_start, moved, quote_weights, Fit, Regularization, MAX_ITER,
};
use crate::evolution::fitness_spec;
use crate::exact::{
    exact, faithful, lemma_square_of_product, lemma_times_add, lemma_times_cancel, lemma_times_comm,
    lemma_times_sub, lemma_times_unit, lemma_total_one, lemma_total_same, lemma_total_single,
    same_value, sqrt_exact, times, total,
};
use crate::iv::{at_vol_spec, implied_vol_spec, law_implied_vol_ignores_own_vol};
use crate::linalg::{
    common_len, grad_spec, grad_term, jtj_spec, jtj_term, lemma_sum_equal, lm_step_spec,
    weighted_square, weighted_sse_spec,
};
use crate::model::{
    ad_entry_spec, bumped_down, bumped_up, column_is_exact, jacobian_column, jacobian_spec,
    residuals_spec, CalibInput, CalibModel,
};
use crate::number::{decimal_of, larger, smaller, sqrt_of, sum, Elementary, Number};
use crate::types::{HestonParams, IvProblem};
use vstd::prelude::*;
use vstd::std_specs::ops::{AddSpec, MulSpec, SubSpec};

verus! {

/// Two lists of quotes with the same weights, which differ only in quotes of weight zero.
pub open spec fn agree_where_weighed<T: Number>(
    v: spec_fn(T) -> real,
    qs: Seq<CalibInput<T>>,
    rs: Seq<CalibInput<T>>,
) -> bool {
    &&& qs.len() == rs.len()
    &&& forall|i: int| 0 <= i < qs.len() ==> (#[trigger] qs[i]).weight == rs[i].weight
    &&& forall|i: int|
        0 <= i < qs.len() && v((#[trigger] qs[i]).weight) != 0real ==> *qs[i].contract
            == *rs[i].contract && qs[i].iv_market == rs[i].iv_market
}

/// The same columns of the Jacobian are exact for both lists, whatever the parameters.
pub open spec fn same_exact_columns<T: Number, M: Elementary<T>, P: CalibModel<T, M>>(
    m: M,
    qs: Seq<CalibInput<T>>,
    rs: Seq<CalibInput<T>>,
) -> bool {
    forall|p: P, c: int| #[trigger]
        column_is_exact(m, qs, p, c) == column_is_exact(m, rs, p, c)
}

/// A product with a factor of zero is zero.
proof fn lemma_weightless<T: Number>(v: spec_fn(T) -> real, w: T, x: T, y: T, x2: T, y2: T)
    requires
        exact(v),
        faithful(v),
        v(w) == 0real,
    ensures
        w.mul_spec(x) == w.mul_spec(x2),
        w.mul_spec(w).mul_spec(x).mul_spec(y) == w.mul_spec(w).mul_spec(x2).mul_spec(y2),
{
    lemma_times_unit(v(x));
    lemma_times_unit(v(x2));
    lemma_times_unit(v(y));
    lemma_times_unit(v(y2));
    lemma_times_unit(0real);
    assert(same_value(v, w.mul_spec(x), w.mul_spec(x2)));
    let (a, b) = (w.mul_spec(w).mul_spec(x), w.mul_spec(w).mul_spec(x2));
    assert(same_value(v, a.mul_spec(y), b.mul_spec(y2)));
}

/// What is minimised is the same for both lists at the same parameters.
proof fn lemma_same_objective<T: Number, M: Elementary<T>, P: CalibModel<T, M>>(
    m: M,
    v: spec_fn(T) -> real,
    qs: Seq<CalibInput<T>>,
    rs: Seq<CalibInput<T>>,
    reg: Option<Regularization<T, P>>,
    p: P,
)
    requires
        exact(v),
        faithful(v),
        agree_where_weighed(v, qs, rs),
        same_exact_columns::<T, M, P>(m, qs, rs),
    ensures
        ({
            let (wq, wr) = (augmented_weights(m, qs, reg), augmented_weights(m, rs, reg));
            let (a, b) = (augmented_residuals(m, qs, reg, p), augmented_residuals(m, rs, reg, p));
            let (j, k) = (augmented_jacobian(m, qs, reg, p), augmented_jacobian(m, rs, reg, p));
            let n = P::dim_spec();
            &&& wq == wr
            &&& a.len() == b.len()
            &&& weighted_sse_spec(a, wq) == weighted_sse_spec(b, wr)
            &&& grad_spec(j, a, wq, a.len() as int, n) == grad_spec(k, b, wr, b.len() as int, n)
            &&& jtj_spec(j, wq, a.len() as int, n) == jtj_spec(k, wr, b.len() as int, n)
        }),
{
    let (wq, wr) = (augmented_weights(m, qs, reg), augmented_weights(m, rs, reg));
    let (a, b) = (augmented_residuals(m, qs, reg, p), augmented_residuals(m, rs, reg, p));
    let (j, k) = (augmented_jacobian(m, qs, reg, p), augmented_jacobian(m, rs, reg, p));
    let n = P::dim_spec();
    let len = a.len() as int;
    P::lemma_shape(m);
    assert(quote_weights(qs) =~= quote_weights(rs)) by {
        assert forall|i: int| 0 <= i < qs.len() implies quote_weights(qs)[i] == quote_weights(
            rs,
        )[i] by {
            assert(qs[i].weight == rs[i].weight);
        }
    }
    assert(wq == wr);
    assert forall|i: int| 0 <= i < len && v(wq[i]) != 0real implies #[trigger] a[i] == b[i] by {
        if i < qs.len() {
            assert(qs[i].weight == wq[i]);
        }
    }
    assert forall|i: int, c: int|
        0 <= i < len && 0 <= c < n && v(wq[i]) != 0real implies #[trigger] j[i][c] == k[i][c] by {
        if i < qs.len() {
            assert(qs[i].weight == wq[i]);
            assert(column_is_exact(m, qs, p, c) == column_is_exact(m, rs, p, c));
            assert(j[i][c] == jacobian_column(m, qs, p, c)[i]);
            assert(k[i][c] == jacobian_column(m, rs, p, c)[i]);
        }
    }
    assert forall|i: int| 0 <= i < len implies #[trigger] weighted_square(a, wq)(i)
        == weighted_square(b, wr)(i) by {
        if v(wq[i]) == 0real {
            lemma_weightless(v, wq[i], a[i], a[i], b[i], b[i]);
        } else {
            assert(a[i] == b[i]);
        }
    }
    lemma_sum_equal(
        weighted_square(a, wq),
        weighted_square(b, wr),
        common_len(len, wq.len() as int),
    );
    let (g, h) = (grad_spec(j, a, wq, len, n), grad_spec(k, b, wr, len, n));
    assert forall|c: int| 0 <= c < n implies #[trigger] g[c] == h[c] by {
        let (f1, f2) = (grad_term(j, a, wq, c), grad_term(k, b, wr, c));
        assert forall|i: int| 0 <= i < len implies #[trigger] f1(i) == f2(i) by {
            if v(wq[i]) == 0real {
                lemma_weightless(v, wq[i], j[i][c], a[i], k[i][c], b[i]);
            } else {
                assert(a[i] == b[i] && j[i][c] == k[i][c]);
            }
        }
        lemma_sum_equal(f1, f2, len);
    }
    assert(g =~= h);
    let (jj, kk) = (jtj_spec(j, wq, len, n), jtj_spec(k, wr, len, n));
    assert forall|c: int| 0 <= c < n implies #[trigger] jj[c] == kk[c] by {
        assert forall|d: int| 0 <= d < n implies #[trigger] jj[c][d] == kk[c][d] by {
            let (f1, f2) = (jtj_term(j, wq, c, d), jtj_term(k, wr, c, d));
            assert forall|i: int| 0 <= i < len implies #[trigger] f1(i) == f2(i) by {
                if v(wq[i]) == 0real {
                    lemma_weightless(v, wq[i], j[i][c], j[i][d], k[i][c], k[i][d]);
                } else {
                    assert(j[i][c] == k[i][c] && j[i][d] == k[i][d]);
                }
            }
            lemma_sum_equal(f1, f2, len);
        }
        assert(jj[c] =~= kk[c]);
    }
    assert(jj =~= kk);
}

/// Two fits under way that differ at most in their residuals, which are those of their quotes.
spec fn fits_agree<T: Number, M: Elementary<T>, P: CalibModel<T, M>>(
    m: M,
    qs: Seq<CalibInput<T>>,
    rs: Seq<CalibInput<T>>,
    reg: Option<Regularization<T, P>>,
    s: Fit<T>,
    t: Fit<T>,
) -> bool {
    &&& t == (Fit { res: t.res, ..s })
    &&& s.res == augmented_residuals(m, qs, reg, P::from_seq(s.p))
    &&& t.res == augmented_residuals(m, rs, reg, P::from_seq(t.p))
}

/// Fits that agree go on agreeing.
proof fn lemma_fits_agree<T: Number, M: Elementary<T>, P: CalibModel<T, M>>(
    m: M,
    v: spec_fn(T) -> real,
    qs: Seq<CalibInput<T>>,
    rs: Seq<CalibInput<T>>,
    reg: Option<Regularization<T, P>>,
    s: Fit<T>,
    t: Fit<T>,
    left: nat,
)
    requires
        exact(v),
        faithful(v),
        agree_where_weighed(v, qs, rs),
        same_exact_columns::<T, M, P>(m, qs, rs),
        fits_agree(m, qs, rs, reg, s, t),
    ensures
        fits_agree(m, qs, rs, reg, fit_run(m, qs, reg, s, left), fit_run(m, rs, reg, t, left)),
    decreases left,
{
    if left > 0 && !s.done {
        let (a, b) = (fit_iteration(m, qs, reg, s), fit_iteration(m, rs, reg, t));
        lemma_same_objective(m, v, qs, rs, reg, P::from_seq(s.p));
        let weights = augmented_weights(m, qs, reg);
        let j = augmented_jacobian(m, qs, reg, P::from_seq(s.p));
        let rows = s.res.len() as int;
        let grad = grad_spec(j, s.res, weights, rows, P::dim_spec());
        let dp = lm_step_spec(m, jtj_spec(j, weights, rows, P::dim_spec()), grad, s.lam);
        lemma_same_objective(m, v, qs, rs, reg, P::from_seq(moved(s.p, dp)));
        assert(fits_agree(m, qs, rs, reg, a, b));
        lemma_fits_agree(m, v, qs, rs, reg, a, b, (left - 1) as nat);
    }
}

/// A quote of weight zero does not influence a fit: where two lists of quotes have the same
/// weights and differ only in quotes of weight zero, the fits from the same start end with the
/// same parameters, the same weighted error and the same conditioning, after the same iterations.
pub proof fn law_weightless_quotes_are_ignored<T: Number, M: Elementary<T>, P: CalibModel<T, M>>(
    m: M,
    v: spec_fn(T) -> real,
    qs: Seq<CalibInput<T>>,
    rs: Seq<CalibInput<T>>,
    p0: P,
    best: Option<T>,
    reg: Option<Regularization<T, P>>,
)
    requires
        exact(v),
        faithful(v),
        agree_where_weighed(v, qs, rs),
        same_exact_columns::<T, M, P>(m, qs, rs),
    ensures
        ({
            let (a, b) = (
                calibrate_spec(m, qs, p0, best, reg),
                calibrate_spec(m, rs, p0, best, reg),
            );
            &&& a.params == b.params
            &&& a.rmse == b.rmse
            &&& a.iters == b.iters
            &&& a.converged == b.converged
            &&& a.early_stopped == b.early_stopped
            &&& a.condition_number == b.condition_number
            &&& a.weakest_direction == b.weakest_direction
        }),
{
    reveal(calibrate_spec);
    reveal(fit_end);
    let (s, t) = (fit_start(m, qs, reg, p0, best), fit_start(m, rs, reg, p0, best));
    lemma_same_objective(m, v, qs, rs, reg, P::from_seq(p0.to_seq()));
    lemma_fits_agree(m, v, qs, rs, reg, s, t, MAX_ITER as nat);
    let end = fit_end(m, qs, reg, p0, best);
    lemma_same_objective(m, v, qs, rs, None::<Regularization<T, P>>, P::from_seq(end.p));
}

/// In Heston's model no quote of weight zero influences a fit.
pub proof fn law_heston_ignores_weightless_quotes<T: Number, M: Elementary<T>>(
    m: M,
    v: spec_fn(T) -> real,
    qs: Seq<CalibInput<T>>,
    rs: Seq<CalibInput<T>>,
    p0: HestonParams<T>,
    best: Option<T>,
    reg: Option<Regularization<T, HestonParams<T>>>,
)
    requires
        exact(v),
        faithful(v),
        agree_where_weighed(v, qs, rs),
    ensures
        ({
            let (a, b) = (
                calibrate_spec(m, qs, p0, best, reg),
                calibrate_spec(m, rs, p0, best, reg),
            );
            a.params == b.params && a.rmse == b.rmse && a.iters == b.iters
        }),
{
    assert forall|p: HestonParams<T>, c: int| #[trigger]
        column_is_exact(m, qs, p, c) == column_is_exact(m, rs, p, c) by {
        if qs.len() > 0 {
            assert(ad_entry_spec(m, qs[0], p, c) is None);
            assert(ad_entry_spec(m, rs[0], p, c) is None);
        }
    }
    law_weightless_quotes_are_ignored(m, v, qs, rs, p0, best, reg);
}

/// The value of a weighted sum of squares, term by term.
pub open spec fn square_values<T: Number>(
    v: spec_fn(T) -> real,
    res: Seq<T>,
    weights: Seq<T>,
) -> spec_fn(int) -> real {
    |i: int| times(times(v(weights[i]), v(res[i])), times(v(weights[i]), v(res[i])))
}

/// A weighted sum of squares has the sum of its values.
proof fn lemma_sse_values<T: Number>(
    v: spec_fn(T) -> real,
    res: Seq<T>,
    weights: Seq<T>,
    n: int,
)
    requires
        exact(v),
    ensures
        v(sum(weighted_square(res, weights), n)) == total(square_values(v, res, weights), n),
    decreases n,
{
    if n > 0 {
        lemma_sse_values(v, res, weights, n - 1);
    }
}

/// A quote counts by the square of its own weight: where two lists of quotes differ only in the
/// weight of quote `k`, what their sums of squares differ by is the difference of the squares of
/// the two weights, times the square of the residual of quote `k`.
pub proof fn law_quote_counts_by_its_weight<T: Number, M: Elementary<T>, P: CalibModel<T, M>>(
    m: M,
    v: spec_fn(T) -> real,
    qs: Seq<CalibInput<T>>,
    rs: Seq<CalibInput<T>>,
    p: P,
    k: int,
)
    requires
        exact(v),
        qs.len() == rs.len(),
        0 <= k < qs.len(),
        *qs[k].contract == *rs[k].contract,
        qs[k].iv_market == rs[k].iv_market,
        forall|i: int| 0 <= i < qs.len() && i != k ==> #[trigger] qs[i] == rs[i],
    ensures
        ({
            let a = weighted_sse_spec(residuals_spec(m, qs, p), quote_weights(qs));
            let b = weighted_sse_spec(residuals_spec(m, rs, p), quote_weights(rs));
            let r = v(residuals_spec(m, qs, p)[k]);
            let (x, y) = (v(qs[k].weight), v(rs[k].weight));
            v(a) - v(b) == times(times(x, x) - times(y, y), times(r, r))
        }),
{
    let (wq, wr) = (quote_weights(qs), quote_weights(rs));
    let (a, b) = (residuals_spec(m, qs, p), residuals_spec(m, rs, p));
    let n = qs.len() as int;
    assert(a =~= b) by {
        assert forall|i: int| 0 <= i < n implies a[i] == b[i] by {
            if i != k {
                assert(qs[i] == rs[i]);
            }
        }
    }
    lemma_sse_values(v, a, wq, n);
    lemma_sse_values(v, b, wr, n);
    let (f, g) = (square_values(v, a, wq), square_values(v, b, wr));
    assert forall|i: int| 0 <= i < n && i != k implies #[trigger] f(i) == g(i) by {
        assert(qs[i] == rs[i]);
    }
    lemma_total_one(f, g, n, k);
    let (x, y, r) = (v(qs[k].weight), v(rs[k].weight), v(a[k]));
    lemma_square_of_product(x, r);
    lemma_square_of_product(y, r);
    lemma_times_sub(times(r, r), times(x, x), times(y, y));
}

/// A residual is what the model's volatility exceeds the quoted one by: the quoted one and the
/// residual add up to a volatility that reprices the model's price of the contract. Where there
/// is none, the residual is zero.
pub proof fn law_residual_is_excess_volatility<T: Number, M: Elementary<T>, P: CalibModel<T, M>>(
    m: M,
    v: spec_fn(T) -> real,
    qs: Seq<CalibInput<T>>,
    p: P,
    i: int,
)
    requires
        exact(v),
        0 <= i < qs.len(),
    ensures
        ({
            let c = *qs[i].contract;
            let r = v(residuals_spec(m, qs, p)[i]);
            let prob = IvProblem { contract: c, market_price: p.price_spec(m, c) };
            match implied_vol_spec(m, prob) {
                Some(x) => v(qs[i].iv_market) + r == v(x),
                None => r == 0real,
            }
        }),
{
    let c = *qs[i].contract;
    let prob = IvProblem { contract: c, market_price: p.price_spec(m, c) };
    law_implied_vol_ignores_own_vol(m, prob, qs[i].iv_market);
}

/// The penalty of a prior: what it adds to the sum of squares is its strength times the sum of
/// the squares of the distances from it, each in units of the typical size of its parameter. At
/// the prior it adds nothing.
pub proof fn law_prior_adds_penalty<T: Number, M: Elementary<T>, P: CalibModel<T, M>>(
    m: M,
    v: spec_fn(T) -> real,
    quotes: Seq<CalibInput<T>>,
    prior: P,
    weight: T,
    p: P,
    z: spec_fn(int) -> real,
)
    requires
        exact(v),
        sqrt_exact(m, v),
        v(weight) >= 0real,
        forall|i: int|
            0 <= i < P::dim_spec() ==> v(#[trigger] P::regularization_scale_spec(m)[i]) != 0real,
        forall|i: int|
            0 <= i < P::dim_spec() ==> times(
                #[trigger] z(i),
                v(P::regularization_scale_spec(m)[i]),
            ) == v(p.to_seq()[i]) - v(prior.to_seq()[i]),
    ensures
        ({
            let reg = Some(Regularization { prior, weight });
            let all = weighted_sse_spec(
                augmented_residuals(m, quotes, reg, p),
                augmented_weights(m, quotes, reg),
            );
            let data = weighted_sse_spec(residuals_spec(m, quotes, p), quote_weights(quotes));
            &&& v(all) == v(data) + times(
                v(weight),
                total(|i: int| times(z(i), z(i)), P::dim_spec()),
            )
            &&& p == prior ==> v(all) == v(data)
        }),
{
    let reg = Some(Regularization { prior, weight });
    let (a, w) = (augmented_residuals(m, quotes, reg, p), augmented_weights(m, quotes, reg));
    let (b, u) = (residuals_spec(m, quotes, p), quote_weights(quotes));
    let n = quotes.len() as int;
    let d = P::dim_spec();
    P::lemma_shape(m);
    lemma_sse_values(v, a, w, n + d);
    lemma_sse_values(v, b, u, n);
    lemma_total_same(square_values(v, a, w), square_values(v, b, u), n);
    let root = v(sqrt_of(m, weight));
    let squares = |i: int| times(z(i), z(i));
    assert forall|i: int| 0 <= i < d implies #[trigger] square_values(v, a, w)(n + i) == times(
        v(weight),
        squares(i),
    ) by {
        let size = P::regularization_scale_spec(m)[i];
        assert(v(size) != 0real);
        let x = v(a[n + i]);
        assert(times(z(i), v(size)) == v(p.to_seq()[i]) - v(prior.to_seq()[i]));
        lemma_times_cancel(x, z(i), v(size));
        lemma_square_of_product(root, x);
    }
    lemma_total_tail(square_values(v, a, w), squares, v(weight), n, d);
    if p == prior {
        assert forall|i: int| 0 <= i < d implies #[trigger] squares(i) == 0real by {
            let size = P::regularization_scale_spec(m)[i];
            assert(v(size) != 0real);
            assert(times(z(i), v(size)) == 0real);
            lemma_times_unit(v(size));
            lemma_times_cancel(z(i), 0real, v(size));
            lemma_times_unit(0real);
        }
        lemma_total_single(squares, d, 0);
        lemma_times_unit(v(weight));
    }
}

/// A sum whose last `d` terms are multiples of the terms of another.
proof fn lemma_total_tail(
    f: spec_fn(int) -> real,
    g: spec_fn(int) -> real,
    k: real,
    n: int,
    d: int,
)
    requires
        0 <= n,
        0 <= d,
        forall|i: int| 0 <= i < d ==> #[trigger] f(n + i) == times(k, g(i)),
    ensures
        total(f, n + d) == total(f, n) + times(k, total(g, d)),
    decreases d,
{
    lemma_times_unit(k);
    if d > 0 {
        lemma_total_tail(f, g, k, n, d - 1);
        assert(f(n + (d - 1)) == times(k, g(d - 1)));
        lemma_times_comm(k, total(g, d - 1) + g(d - 1));
        lemma_times_comm(k, total(g, d - 1));
        lemma_times_comm(k, g(d - 1));
        lemma_times_add(k, total(g, d - 1), g(d - 1));
    }
}

/// An entry of the Jacobian that is a difference is exact where the residual is linear in its
/// parameter: it is then the slope, wherever the bounds let the parameter move.
pub proof fn law_jacobian_exact_on_lines<T: Number, M: Elementary<T>, P: CalibModel<T, M>>(
    m: M,
    v: spec_fn(T) -> real,
    qs: Seq<CalibInput<T>>,
    p: P,
    row: int,
    col: int,
    a: real,
    b: real,
)
    requires
        exact(v),
        0 <= row < qs.len(),
        0 <= col < P::dim_spec(),
        !column_is_exact(m, qs, p, col),
        v(P::bump_sizes_spec(m)[col]) > 0real,
        v(P::param_bounds_spec(m)[col].0) < v(P::param_bounds_spec(m)[col].1),
        v(P::param_bounds_spec(m)[col].0) <= v(p.to_seq()[col]) <= v(
            P::param_bounds_spec(m)[col].1,
        ),
        forall|x: T|
            v(P::param_bounds_spec(m)[col].0) <= v(x) <= v(P::param_bounds_spec(m)[col].1) ==> v(
                #[trigger] residuals_spec(m, qs, P::from_seq(p.to_seq().update(col, x)))[row],
            ) == a + times(b, v(x)),
    ensures
        v(jacobian_spec(m, qs, p)[row][col]) == b,
{
    P::lemma_shape(m);
    p.lemma_vector(Seq::empty());
    let seq = p.to_seq();
    let (lo, hi) = P::param_bounds_spec(m)[col];
    let step = P::bump_sizes_spec(m)[col];
    let up = smaller(seq[col].add_spec(step), hi);
    let dn = larger(seq[col].sub_spec(step), lo);
    assert(bumped_up(m, p, col) == seq.update(col, up));
    assert(bumped_down(m, p, col) == seq.update(col, dn));
    assert(v(dn) < v(up));
    let (x, y) = (
        residuals_spec(m, qs, P::from_seq(seq.update(col, up)))[row],
        residuals_spec(m, qs, P::from_seq(seq.update(col, dn)))[row],
    );
    assert(v(x) == a + times(b, v(up)));
    assert(v(y) == a + times(b, v(dn)));
    lemma_times_comm(b, v(up));
    lemma_times_comm(b, v(dn));
    lemma_times_comm(b, v(up) - v(dn));
    lemma_times_sub(b, v(up), v(dn));
    let e = v(jacobian_spec(m, qs, p)[row][col]);
    assert(times(e, v(up) - v(dn)) == v(x) - v(y));
    lemma_times_cancel(e, b, v(up) - v(dn));
}

/// An entry of the Jacobian that is exact is the derivative of the price over vega: it times the
/// vega at the model's volatility is the derivative of the model's price.
pub proof fn law_exact_entry_times_vega<T: Number, M: Elementary<T>, P: CalibModel<T, M>>(
    m: M,
    v: spec_fn(T) -> real,
    qs: Seq<CalibInput<T>>,
    p: P,
    row: int,
    col: int,
)
    requires
        exact(v),
        v(decimal_of::<T, M>(m, 1, -10)) > 0real,
        0 <= row < qs.len(),
        0 <= col < P::dim_spec(),
        column_is_exact(m, qs, p, col),
    ensures
        ({
            let c = *qs[row].contract;
            let prob = IvProblem { contract: c, market_price: p.price_spec(m, c) };
            &&& implied_vol_spec(m, prob) matches Some(x) && p.ad_price_derivative_spec(
                m,
                c,
                col,
            ) matches Some(d) && times(
                v(jacobian_spec(m, qs, p)[row][col]),
                v(bsm_price_and_greeks_spec(m, at_vol_spec(c, x)).vega),
            ) == v(d)
        }),
{
    let c = *qs[row].contract;
    let prob = IvProblem { contract: c, market_price: p.price_spec(m, c) };
    law_implied_vol_ignores_own_vol(m, prob, qs[row].iv_market);
    assert(ad_entry_spec(m, qs[row], p, col) is Some);
}

/// How well a vector fits does not depend on quotes of weight zero.
pub proof fn law_fitness_ignores_weightless_quotes<
    T: Number,
    M: Elementary<T>,
    P: CalibModel<T, M>,
>(m: M, v: spec_fn(T) -> real, qs: Seq<CalibInput<T>>, rs: Seq<CalibInput<T>>, x: Seq<T>)
    requires
        exact(v),
        faithful(v),
        agree_where_weighed(v, qs, rs),
        same_exact_columns::<T, M, P>(m, qs, rs),
    ensures
        fitness_spec::<T, M, P>(m, qs, x) == fitness_spec::<T, M, P>(m, rs, x),
{
    lemma_same_objective(m, v, qs, rs, None::<Regularization<T, P>>, P::from_seq(x));
}

} // verus!
