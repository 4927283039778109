//! What a fit reports and what drives it: the errors as functions of the residuals, the normal
//! equations as the expansion of the sum of squares, the damping, and the challengers of the
//! evolution.
use crate::calibration::{
    augmented_jacobian, augmented_residuals, augmented_weights, best_after, calibrate_spec,
    condition_spec, converged_count, fit_end, fit_iteration, fit_run, fit_start, is_pruned, largest,
    largest_magnitude, moved, pruned_count, quote_weights, report, restart, smallest, step_refused,
    step_taken, CalibInput, CalibModel, Fit, Outcome, Regularization, MAX_ITER,
};
use crate::evolution::{challenger, marks, population_size};
use crate::exact::{
    decimal_exact, exact, lemma_difference_of_squares, lemma_fraction, lemma_literal,
    lemma_multiple, lemma_quotient_positive, lemma_sign_of_factor, lemma_square,
    lemma_square_of_product, lemma_times_add, lemma_times_assoc, lemma_times_comm, lemma_times_neg,
    lemma_times_not_negative, lemma_times_positive, lemma_times_unit, lemma_total_linear,
    lemma_total_same, ordered, power_of_ten, sqrt_exact, times, total,
};
use crate::linalg::{
    damped, grad_spec, grad_term, has_shape, jtj_spec, jtj_term, lm_step_spec, sum_squares_spec,
    weighted_square, weighted_sse_spec,
};
use crate::model::residuals_spec;
use crate::number::{
    decimal_of, frac, is_finite_of, magnitude, num, sqrt_of, sum, Elementary, Number,
};
use crate::random::{unit_of, RandomSource};
use crate::sensitivity_laws::lemma_swap;
use vstd::prelude::*;
use vstd::std_specs::cmp::PartialOrdIs;
use vstd::std_specs::ops::{DivSpec, MulSpec};

verus! {

/// The value of a sum is the sum of the values.
proof fn lemma_value_of_sum<T: Number>(
    v: spec_fn(T) -> real,
    f: spec_fn(int) -> T,
    g: spec_fn(int) -> real,
    n: int,
)
    requires
        exact(v),
        forall|i: int| 0 <= i < n ==> v(#[trigger] f(i)) == g(i),
    ensures
        v(sum(f, n)) == total(g, n),
    decreases n,
{
    if n > 0 {
        lemma_value_of_sum(v, f, g, n - 1);
        assert(v(f(n - 1)) == g(n - 1));
    }
}

/// The squares of the weights of the quotes.
pub open spec fn squared_weights<T>(
    v: spec_fn(T) -> real,
    quotes: Seq<CalibInput<T>>,
) -> spec_fn(int) -> real {
    |i: int| times(v(quotes[i].weight), v(quotes[i].weight))
}

/// The squares of the errors, each times the square of the weight of its quote.
pub open spec fn weighed_errors<T>(
    v: spec_fn(T) -> real,
    quotes: Seq<CalibInput<T>>,
    res: Seq<T>,
) -> spec_fn(int) -> real {
    |i: int| times(times(v(quotes[i].weight), v(quotes[i].weight)), times(v(res[i]), v(res[i])))
}

/// Sums of squares are not negative.
proof fn lemma_errors_not_negative<T>(
    v: spec_fn(T) -> real,
    quotes: Seq<CalibInput<T>>,
    res: Seq<T>,
    n: int,
)
    ensures
        total(weighed_errors(v, quotes, res), n) >= 0real,
    decreases n,
{
    if n > 0 {
        lemma_errors_not_negative(v, quotes, res, n - 1);
        let (w, r) = (v(quotes[n - 1].weight), v(res[n - 1]));
        lemma_square_of_product(w, r);
        lemma_square(times(w, r));
    }
}

/// The error that a fit reports is the root of the weighed mean of the squares of its errors on
/// the quotes, whatever prior helped to find it: each square counts by the square of the weight of
/// its quote.
pub proof fn law_error_is_weighed_mean<T: Number, M: Elementary<T>, P: CalibModel<T, M>>(
    m: M,
    v: spec_fn(T) -> real,
    quotes: Seq<CalibInput<T>>,
    s: Fit<T>,
)
    requires
        exact(v),
        sqrt_exact(m, v),
        total(squared_weights(v, quotes), quotes.len() as int) > 0real,
        residuals_spec(m, quotes, P::from_seq(s.p)).len() == quotes.len(),
    ensures
        ({
            let r: Outcome<T, P> = report(m, quotes, s);
            let res = residuals_spec(m, quotes, r.params);
            let n = quotes.len() as int;
            &&& r.params == P::from_seq(s.p)
            &&& v(r.rmse) >= 0real
            &&& times(
                times(v(r.rmse), v(r.rmse)),
                total(squared_weights(v, quotes), n),
            ) == total(weighed_errors(v, quotes, res), n)
        }),
{
    let params = P::from_seq(s.p);
    let res = residuals_spec(m, quotes, params);
    let n = quotes.len() as int;
    let weights = quote_weights(quotes);
    let f = weighted_square(res, weights);
    assert forall|i: int| 0 <= i < n implies v(#[trigger] f(i)) == weighed_errors(
        v,
        quotes,
        res,
    )(i) by {
        lemma_square_of_product(v(quotes[i].weight), v(res[i]));
    }
    lemma_value_of_sum(v, f, weighed_errors(v, quotes, res), n);
    let g = |i: int| weights[i].mul_spec(weights[i]);
    lemma_value_of_sum(v, g, squared_weights(v, quotes), n);
    lemma_errors_not_negative(v, quotes, res, n);
    let (top, bottom) = (weighted_sse_spec(res, weights), sum_squares_spec(weights));
    assert(v(top) == total(weighed_errors(v, quotes, res), n));
    assert(v(bottom) == total(squared_weights(v, quotes), n));
    let q = top.div_spec(bottom);
    lemma_times_comm(v(q), v(bottom));
    lemma_sign_of_factor(v(bottom), v(q));
}

/// The largest magnitude is that of one of the elements, and no element has a larger one.
proof fn lemma_largest_magnitude<T: Number>(v: spec_fn(T) -> real, s: Seq<T>, n: int)
    requires
        exact(v),
        0 <= n <= s.len(),
    ensures
        forall|i: int|
            0 <= i < n ==> -v(largest_magnitude(s, n)) <= v(#[trigger] s[i]) <= v(
                largest_magnitude(s, n),
            ),
        n == 0 ==> v(largest_magnitude(s, n)) == 0real,
        n > 0 ==> exists|i: int|
            0 <= i < n && (v(#[trigger] s[i]) == v(largest_magnitude(s, n)) || v(s[i]) == -v(
                largest_magnitude(s, n),
            )),
        v(largest_magnitude(s, n)) >= 0real,
    decreases n,
{
    if n > 0 {
        lemma_largest_magnitude(v, s, n - 1);
        let x = s[n - 1];
        let before = largest_magnitude(s, n - 1);
        assert(v(magnitude(x)) == v(x) || v(magnitude(x)) == -v(x));
        assert(v(magnitude(x)) >= 0real);
        let all = largest_magnitude(s, n);
        assert(v(all) == v(before) || v(all) == v(magnitude(x)));
        if v(all) == v(before) && n > 1 {
            let i = choose|i: int|
                0 <= i < n - 1 && (v(#[trigger] s[i]) == v(before) || v(s[i]) == -v(before));
            assert(v(s[i]) == v(all) || v(s[i]) == -v(all));
        } else {
            assert(v(s[n - 1]) == v(all) || v(s[n - 1]) == -v(all));
        }
    }
}

/// The largest error that a fit reports bounds its errors on the quotes, and one of them attains
/// it.
pub proof fn law_largest_error_is_attained<T: Number, M: Elementary<T>, P: CalibModel<T, M>>(
    m: M,
    v: spec_fn(T) -> real,
    quotes: Seq<CalibInput<T>>,
    s: Fit<T>,
)
    requires
        exact(v),
    ensures
        ({
            let r: Outcome<T, P> = report(m, quotes, s);
            let res = residuals_spec(m, quotes, r.params);
            let top = v(r.max_err);
            &&& forall|i: int| 0 <= i < res.len() ==> -top <= v(#[trigger] res[i]) <= top
            &&& res.len() > 0 ==> exists|i: int|
                0 <= i < res.len() && (v(#[trigger] res[i]) == top || v(res[i]) == -top)
        }),
{
    let res = residuals_spec(m, quotes, P::from_seq(s.p));
    lemma_largest_magnitude(v, res, res.len() as int);
}

/// The largest of the first elements, where one of them is the largest.
proof fn lemma_largest<T: Number, M: Elementary<T>>(
    m: M,
    v: spec_fn(T) -> real,
    s: Seq<T>,
    n: int,
    top: real,
)
    requires
        ordered(v),
        0 <= n <= s.len(),
        v(decimal_of::<T, M>(m, -17976931348623157, 292)) <= top,
        forall|i: int| 0 <= i < n ==> v(#[trigger] s[i]) <= top,
    ensures
        v(largest(m, s, n)) <= top,
        forall|i: int| 0 <= i < n ==> v(#[trigger] s[i]) <= v(largest(m, s, n)),
    decreases n,
{
    if n > 0 {
        lemma_largest(m, v, s, n - 1, top);
    }
}

/// The smallest of the first elements, where one of them is the smallest.
proof fn lemma_smallest<T: Number, M: Elementary<T>>(
    m: M,
    v: spec_fn(T) -> real,
    s: Seq<T>,
    n: int,
    low: real,
)
    requires
        ordered(v),
        0 <= n <= s.len(),
        v(decimal_of::<T, M>(m, 17976931348623157, 292)) >= low,
        forall|i: int| 0 <= i < n ==> v(#[trigger] s[i]) >= low,
    ensures
        v(smallest(m, s, n)) >= low,
        forall|i: int| 0 <= i < n ==> v(#[trigger] s[i]) >= v(smallest(m, s, n)),
    decreases n,
{
    if n > 0 {
        lemma_smallest(m, v, s, n - 1, low);
    }
}

/// The condition number is the ratio of the largest to the smallest eigenvalue: times the smallest
/// it is the largest, where eigenvalues are positive and the smallest is not as good as zero.
pub proof fn law_condition_is_ratio<T: Number, M: Elementary<T>>(
    m: M,
    v: spec_fn(T) -> real,
    eig: Seq<T>,
    i: int,
    j: int,
)
    requires
        exact(v),
        0 <= i < eig.len(),
        0 <= j < eig.len(),
        forall|k: int| 0 <= k < eig.len() ==> v(eig[j]) <= v(#[trigger] eig[k]) <= v(eig[i]),
        v(eig[j]) > v(decimal_of::<T, M>(m, 1, -300)) >= 0real,
        v(decimal_of::<T, M>(m, -17976931348623157, 292)) <= v(eig[i]),
        v(decimal_of::<T, M>(m, 17976931348623157, 292)) >= v(eig[j]),
    ensures
        times(v(condition_spec(m, eig)), v(eig[j])) == v(eig[i]),
{
    let n = eig.len() as int;
    lemma_largest(m, v, eig, n, v(eig[i]));
    lemma_smallest(m, v, eig, n, v(eig[j]));
    let (hi, lo) = (largest(m, eig, n), smallest(m, eig, n));
    assert(v(eig[i]) <= v(hi) && v(lo) <= v(eig[j]));
    assert(v(magnitude(lo)) == v(lo));
    lemma_quotient_positive(v, hi, lo);
    assert(v(magnitude(hi.div_spec(lo))) == v(hi.div_spec(lo)));
}

/// A step that is taken after one that is not gives the damping back, within its limits; a step
/// that is not taken leaves the parameters and their errors, one that is taken puts its own in
/// their place.
pub proof fn law_damping_returns<T: Number, M: Elementary<T>>(
    m: M,
    v: spec_fn(T) -> real,
    s: Fit<T>,
    p_new: Seq<T>,
    dp: Seq<T>,
    res_new: Seq<T>,
    sse_new: T,
)
    requires
        exact(v),
        v(s.lam) >= v(decimal_of::<T, M>(m, 1, -12)),
        10real * v(s.lam) <= v(decimal_of::<T, M>(m, 1, 8)),
        v(s.lam) > 0real,
    ensures
        ({
            let r = step_refused(m, s);
            let t = step_taken(m, r, p_new, dp, res_new, sse_new);
            &&& v(r.lam) > v(s.lam)
            &&& v(t.lam) == v(s.lam)
            &&& r.p == s.p && r.res == s.res && r.sse == s.sse && r.iters == s.iters + 1
            &&& t.p == p_new && t.res == res_new && t.sse == sse_new && t.iters == s.iters + 2
            &&& r.done == (10real * v(s.lam) == v(decimal_of::<T, M>(m, 1, 8)))
        }),
{
    let r = step_refused(m, s);
    lemma_literal(10real, v(s.lam));
    lemma_fraction(v, 1, 10);
    lemma_literal(1real / 10real, v(r.lam));
    assert(v(r.lam) == 10real * v(s.lam));
    assert(r.lam.is_ge(&decimal_of::<T, M>(m, 1, 8)) == (v(r.lam) >= v(
        decimal_of::<T, M>(m, 1, 8),
    )));
}

/// What the step changes the residual of a row by, element by element.
pub open spec fn changes<T>(
    v: spec_fn(T) -> real,
    j: Seq<Seq<T>>,
    dp: Seq<T>,
    row: int,
) -> spec_fn(int) -> real {
    |c: int| times(v(j[row][c]), v(dp[c]))
}

/// The elements of the gradient over the first `k` rows, times those of the step.
pub open spec fn slope_parts<T: Number>(
    v: spec_fn(T) -> real,
    j: Seq<Seq<T>>,
    res: Seq<T>,
    weights: Seq<T>,
    dp: Seq<T>,
    k: int,
) -> spec_fn(int) -> real {
    |c: int| times(v(sum(grad_term(j, res, weights, c), k)), v(dp[c]))
}

/// The entries of a row of the matrix over the first `k` rows, times the elements of the step.
pub open spec fn bow_row<T: Number>(
    v: spec_fn(T) -> real,
    j: Seq<Seq<T>>,
    weights: Seq<T>,
    dp: Seq<T>,
    c: int,
    k: int,
) -> spec_fn(int) -> real {
    |e: int| times(v(sum(jtj_term(j, weights, c, e), k)), v(dp[e]))
}

/// The elements of the matrix times the step, times those of the step.
pub open spec fn bow_parts<T: Number>(
    v: spec_fn(T) -> real,
    j: Seq<Seq<T>>,
    weights: Seq<T>,
    dp: Seq<T>,
    n: int,
    k: int,
) -> spec_fn(int) -> real {
    |c: int| times(v(dp[c]), total(bow_row(v, j, weights, dp, c, k), n))
}

/// The sum over no terms that are not zero.
proof fn lemma_total_zero(f: spec_fn(int) -> real, n: int)
    requires
        forall|i: int| 0 <= i < n ==> #[trigger] f(i) == 0real,
    ensures
        total(f, n) == 0real,
    decreases n,
{
    if n > 0 {
        lemma_total_zero(f, n - 1);
    }
}

/// One more row in the gradient: its weight squared times its residual times its change.
proof fn lemma_slope_row<T: Number>(
    v: spec_fn(T) -> real,
    j: Seq<Seq<T>>,
    res: Seq<T>,
    weights: Seq<T>,
    dp: Seq<T>,
    n: int,
    k: int,
)
    requires
        exact(v),
        k > 0,
    ensures
        ({
            let w2 = times(v(weights[k - 1]), v(weights[k - 1]));
            total(slope_parts(v, j, res, weights, dp, k), n) == total(
                slope_parts(v, j, res, weights, dp, k - 1),
                n,
            ) + times(times(w2, v(res[k - 1])), total(changes(v, j, dp, k - 1), n))
        }),
{
    let w2 = times(v(weights[k - 1]), v(weights[k - 1]));
    let r = v(res[k - 1]);
    let (f, g, h) = (
        slope_parts(v, j, res, weights, dp, k - 1),
        changes(v, j, dp, k - 1),
        slope_parts(v, j, res, weights, dp, k),
    );
    assert forall|c: int| 0 <= c < n implies #[trigger] h(c) == f(c) + times(
        times(w2, r),
        g(c),
    ) by {
        let x = v(j[k - 1][c]);
        let before = v(sum(grad_term(j, res, weights, c), k - 1));
        assert(v(sum(grad_term(j, res, weights, c), k)) == before + times(times(w2, x), r));
        lemma_times_add(v(dp[c]), before, times(times(w2, x), r));
        lemma_times_assoc(w2, x, r);
        lemma_times_comm(x, r);
        lemma_times_assoc(w2, r, x);
        lemma_times_assoc(times(w2, r), x, v(dp[c]));
    }
    lemma_total_linear(f, g, h, times(w2, r), n);
}

/// One more row in the matrix: its weight squared times the square of its change.
proof fn lemma_bow_row<T: Number>(
    v: spec_fn(T) -> real,
    j: Seq<Seq<T>>,
    weights: Seq<T>,
    dp: Seq<T>,
    n: int,
    k: int,
)
    requires
        exact(v),
        k > 0,
    ensures
        ({
            let w2 = times(v(weights[k - 1]), v(weights[k - 1]));
            let u = total(changes(v, j, dp, k - 1), n);
            total(bow_parts(v, j, weights, dp, n, k), n) == total(
                bow_parts(v, j, weights, dp, n, k - 1),
                n,
            ) + times(times(w2, u), u)
        }),
{
    let w2 = times(v(weights[k - 1]), v(weights[k - 1]));
    let g = changes(v, j, dp, k - 1);
    let u = total(g, n);
    let (f, h) = (bow_parts(v, j, weights, dp, n, k - 1), bow_parts(v, j, weights, dp, n, k));
    assert forall|c: int| 0 <= c < n implies #[trigger] h(c) == f(c) + times(
        times(w2, u),
        g(c),
    ) by {
        let x = v(j[k - 1][c]);
        let (p, q) = (
            bow_row(v, j, weights, dp, c, k - 1),
            bow_row(v, j, weights, dp, c, k),
        );
        assert forall|e: int| 0 <= e < n implies #[trigger] q(e) == p(e) + times(
            times(w2, x),
            g(e),
        ) by {
            let y = v(j[k - 1][e]);
            let before = v(sum(jtj_term(j, weights, c, e), k - 1));
            assert(v(sum(jtj_term(j, weights, c, e), k)) == before + times(times(w2, x), y));
            lemma_times_add(v(dp[e]), before, times(times(w2, x), y));
            lemma_times_assoc(times(w2, x), y, v(dp[e]));
        }
        lemma_total_linear(p, g, q, times(w2, x), n);
        let d = v(dp[c]);
        lemma_times_add(d, total(p, n), times(times(w2, x), u));
        lemma_times_assoc(w2, x, u);
        lemma_times_comm(x, u);
        lemma_times_assoc(w2, u, x);
        lemma_swap(d, times(w2, u), x);
        lemma_times_comm(d, x);
    }
    lemma_total_linear(f, g, h, times(w2, u), n);
}

/// The squares of the residuals before and after a step, over the first `k` rows.
proof fn lemma_expansion<T: Number>(
    v: spec_fn(T) -> real,
    j: Seq<Seq<T>>,
    res: Seq<T>,
    after: Seq<T>,
    weights: Seq<T>,
    dp: Seq<T>,
    n: int,
    k: int,
)
    requires
        exact(v),
        0 <= k <= res.len(),
        forall|row: int|
            0 <= row < res.len() ==> v(#[trigger] after[row]) == v(res[row]) + total(
                changes(v, j, dp, row),
                n,
            ),
    ensures
        v(sum(weighted_square(after, weights), k)) == v(sum(weighted_square(res, weights), k))
            + 2real * total(slope_parts(v, j, res, weights, dp, k), n) + total(
            bow_parts(v, j, weights, dp, n, k),
            n,
        ),
    decreases k,
{
    if k > 0 {
        lemma_expansion(v, j, res, after, weights, dp, n, k - 1);
        lemma_slope_row(v, j, res, weights, dp, n, k);
        lemma_bow_row(v, j, weights, dp, n, k);
        let w = v(weights[k - 1]);
        let (r, u) = (v(res[k - 1]), total(changes(v, j, dp, k - 1), n));
        assert(v(after[k - 1]) == r + u);
        let w2 = times(w, w);
        lemma_square_of_product(w, r);
        lemma_square_of_product(w, r + u);
        assert(times(r + u, r + u) == times(r, r) + 2real * times(r, u) + times(u, u)) by {
            lemma_times_add(r + u, r, u);
            lemma_times_add(r, r, u);
            lemma_times_add(u, r, u);
            lemma_times_comm(r, u);
        }
        lemma_times_add(w2, times(r, r) + 2real * times(r, u), times(u, u));
        lemma_times_add(w2, times(r, r), 2real * times(r, u));
        lemma_multiple(2real, w2, times(r, u));
        lemma_times_assoc(w2, r, u);
        lemma_times_assoc(w2, u, u);
    } else {
        assert forall|c: int| 0 <= c < n implies #[trigger] slope_parts(
            v,
            j,
            res,
            weights,
            dp,
            0,
        )(c) == 0real by {
            lemma_times_unit(v(dp[c]));
        }
        lemma_total_zero(slope_parts(v, j, res, weights, dp, 0), n);
        assert forall|c: int| 0 <= c < n implies #[trigger] bow_parts(v, j, weights, dp, n, 0)(c)
            == 0real by {
            let p = bow_row(v, j, weights, dp, c, 0);
            assert forall|e: int| 0 <= e < n implies #[trigger] p(e) == 0real by {
                lemma_times_unit(v(dp[e]));
            }
            lemma_total_zero(p, n);
            lemma_times_unit(v(dp[c]));
        }
        lemma_total_zero(bow_parts(v, j, weights, dp, n, 0), n);
    }
}

/// The elements of a gradient times those of a step.
pub open spec fn slope_along<T>(v: spec_fn(T) -> real, grad: Seq<T>, dp: Seq<T>) -> spec_fn(
    int,
) -> real {
    |c: int| times(v(grad[c]), v(dp[c]))
}

/// The elements of a matrix times a step, times those of the step.
pub open spec fn bow_along<T>(
    v: spec_fn(T) -> real,
    a: Seq<Seq<T>>,
    dp: Seq<T>,
    n: int,
) -> spec_fn(int) -> real {
    |c: int| times(v(dp[c]), total(slope_along(v, a[c], dp), n))
}

/// The normal equations expand the sum of squares that is minimised: where residuals change by the
/// Jacobian times a step, the sum of the squares changes by twice the gradient along the step, and
/// by the matrix along the step on both sides.
pub proof fn law_normal_equations_expand<T: Number>(
    v: spec_fn(T) -> real,
    j: Seq<Seq<T>>,
    res: Seq<T>,
    after: Seq<T>,
    weights: Seq<T>,
    dp: Seq<T>,
    n: int,
)
    requires
        exact(v),
        n >= 0,
        after.len() == res.len(),
        weights.len() == res.len(),
        forall|row: int|
            0 <= row < res.len() ==> v(#[trigger] after[row]) == v(res[row]) + total(
                changes(v, j, dp, row),
                n,
            ),
    ensures
        ({
            let rows = res.len() as int;
            v(weighted_sse_spec(after, weights)) == v(weighted_sse_spec(res, weights)) + 2real
                * total(slope_along(v, grad_spec(j, res, weights, rows, n), dp), n) + total(
                bow_along(v, jtj_spec(j, weights, rows, n), dp, n),
                n,
            )
        }),
{
    let rows = res.len() as int;
    lemma_expansion(v, j, res, after, weights, dp, n, rows);
    let grad = grad_spec(j, res, weights, rows, n);
    let a = jtj_spec(j, weights, rows, n);
    lemma_total_same(
        slope_parts(v, j, res, weights, dp, rows),
        slope_along(v, grad, dp),
        n,
    );
    assert forall|c: int| 0 <= c < n implies #[trigger] bow_parts(v, j, weights, dp, n, rows)(c)
        == bow_along(v, a, dp, n)(c) by {
        lemma_total_same(
            bow_row(v, j, weights, dp, c, rows),
            slope_along(v, a[c], dp),
            n,
        );
    }
    lemma_total_same(
        bow_parts(v, j, weights, dp, n, rows),
        bow_along(v, a, dp, n),
        n,
    );
}

/// A challenger has the elements of its member where they are not marked; where they are, three
/// fifths of the way from the third donor to the second, added to the first, if that lies in the
/// range, else the end of the range that it lies beyond.
pub proof fn law_challenger_combines_donors<T: Number>(
    v: spec_fn(T) -> real,
    bounds: Seq<(T, T)>,
    pop: Seq<Seq<T>>,
    i: int,
    a: int,
    b: int,
    c: int,
    mask: Seq<bool>,
    d: int,
)
    requires
        exact(v),
        0 <= d < pop[i].len(),
        v(bounds[d].0) <= v(bounds[d].1),
    ensures
        ({
            let x = challenger(bounds, pop, i, a, b, c, mask)[d];
            let (lo, hi) = (v(bounds[d].0), v(bounds[d].1));
            let move_by = v(pop[b][d]) - v(pop[c][d]);
            let reach = v(pop[a][d]) + 3real * move_by / 5real;
            &&& !mask[d] ==> x == pop[i][d]
            &&& mask[d] && lo <= reach <= hi ==> 5real * (v(x) - v(pop[a][d])) == 3real * move_by
            &&& mask[d] && reach < lo ==> v(x) == lo
            &&& mask[d] && reach > hi ==> v(x) == hi
        }),
{
    lemma_fraction(v, 6, 10);
    let move_by = v(pop[b][d]) - v(pop[c][d]);
    lemma_literal(6real / 10real, move_by);
}

/// The marks of a challenger: the forced one is set without a draw, each of the others with the
/// next draw from the unit interval, if that is less than nine tenths. The marks before it stay.
pub proof fn law_marks_follow_draws<T: Number, S: RandomSource<T>>(
    v: spec_fn(T) -> real,
    src: S,
    forced: int,
    n: int,
)
    requires
        exact(v),
        n > 0,
    ensures
        ({
            let (before, s) = marks::<T, S>(src, forced, n - 1);
            let (all, rest) = marks::<T, S>(src, forced, n);
            &&& all.len() == n
            &&& all.take(n - 1) == before
            &&& n - 1 == forced ==> all[n - 1] && rest == s
            &&& n - 1 != forced ==> all[n - 1] == (10real * v(unit_of::<T, S>(s).0) < 9real)
                && rest == unit_of::<T, S>(s).1
        }),
    decreases n,
{
    let (before, s) = marks::<T, S>(src, forced, n - 1);
    if n > 1 {
        law_marks_follow_draws::<T, S>(v, src, forced, n - 1);
    }
    let (all, _) = marks::<T, S>(src, forced, n);
    assert(before.len() == n - 1);
    assert(all.take(n - 1) =~= before);
    lemma_fraction(v, 9, 10);
    let u = unit_of::<T, S>(s).0;
    assert(u.is_lt(&frac::<T>(9, 10)) == (v(u) < v(frac::<T>(9, 10))));
}

/// A fit has not ended both ways: one that has converged was not given up, and one that has ended
/// either way is done.
pub open spec fn ends_one_way<T>(s: Fit<T>) -> bool {
    &&& !(s.converged && s.early_stopped)
    &&& s.converged || s.early_stopped ==> s.done
}

/// Iterations keep that a fit ends one way.
proof fn lemma_ends_one_way<T: Number, M: Elementary<T>, P: CalibModel<T, M>>(
    m: M,
    quotes: Seq<CalibInput<T>>,
    reg: Option<Regularization<T, P>>,
    s: Fit<T>,
    left: nat,
)
    requires
        ends_one_way(s),
    ensures
        ends_one_way(fit_run(m, quotes, reg, s, left)),
    decreases left,
{
    if left > 0 && !s.done {
        let next = fit_iteration(m, quotes, reg, s);
        assert(ends_one_way(next));
        lemma_ends_one_way(m, quotes, reg, next, (left - 1) as nat);
    }
}

/// A fit that has converged was not given up.
pub proof fn law_fit_ends_one_way<T: Number, M: Elementary<T>, P: CalibModel<T, M>>(
    m: M,
    quotes: Seq<CalibInput<T>>,
    p0: P,
    best: Option<T>,
    reg: Option<Regularization<T, P>>,
)
    ensures
        ({
            let r = calibrate_spec(m, quotes, p0, best, reg);
            !(r.converged && r.early_stopped)
        }),
{
    reveal(calibrate_spec);
    reveal(fit_end);
    let s = fit_start(m, quotes, reg, p0, best);
    lemma_ends_one_way(m, quotes, reg, s, MAX_ITER as nat);
}

/// The starts whose fits converge, among the first `n`.
pub open spec fn converging<T: Number, M: Elementary<T>, P: CalibModel<T, M>>(
    m: M,
    quotes: Seq<CalibInput<T>>,
    starts: Seq<P>,
    n: int,
) -> Seq<int> {
    Seq::new(n as nat, |i: int| i).filter(|i: int| restart(m, quotes, starts, i).converged)
}

/// The starts whose fits are given up, among the first `n`.
pub open spec fn given_up<T: Number, M: Elementary<T>, P: CalibModel<T, M>>(
    m: M,
    quotes: Seq<CalibInput<T>>,
    starts: Seq<P>,
    n: int,
) -> Seq<int> {
    Seq::new(n as nat, |i: int| i).filter(|i: int| restart(m, quotes, starts, i).early_stopped)
}

/// The counts of several fits: how many converged is the number of starts whose fits do, how many
/// were pruned the number of starts whose fits are given up, and together they are no more than
/// there are starts.
pub proof fn law_fits_are_counted<T: Number, M: Elementary<T>, P: CalibModel<T, M>>(
    m: M,
    quotes: Seq<CalibInput<T>>,
    starts: Seq<P>,
    n: int,
)
    requires
        0 <= n <= starts.len(),
    ensures
        converged_count(m, quotes, starts, n) == converging(m, quotes, starts, n).len(),
        pruned_count(m, quotes, starts, n) == given_up(m, quotes, starts, n).len(),
        converged_count(m, quotes, starts, n) + pruned_count(m, quotes, starts, n) <= n,
    decreases n,
{
    reveal(Seq::filter);
    let all = Seq::new(n as nat, |i: int| i);
    if n > 0 {
        law_fits_are_counted(m, quotes, starts, n - 1);
        let before = Seq::new((n - 1) as nat, |i: int| i);
        assert(all.drop_last() =~= before);
        assert(all.last() == n - 1);
        law_fit_ends_one_way(
            m,
            quotes,
            starts[n - 1],
            best_after(m, quotes, starts, n - 1),
            None::<Regularization<T, P>>,
        );
    }
}

/// A fit among several is given up at every tenth iteration but the first, and only there, if its
/// sum of squares is more than eight times the best that any of them has reached.
pub proof fn law_pruning<T: Number, M: Elementary<T>>(m: M, v: spec_fn(T) -> real, s: Fit<T>, b: T)
    requires
        exact(v),
        s.best == Some(b),
        is_finite_of(m, b),
    ensures
        is_pruned(m, s) == (s.iters > 0 && s.iters % 10 == 0 && v(s.sse) > 8real * v(b)),
{
    let limit = b.mul_spec(num::<T>(8));
    lemma_literal(8real, v(b));
    assert(s.sse.is_gt(&limit) == (v(s.sse) > v(limit)));
}

/// The squares of the elements.
pub open spec fn squares<T>(v: spec_fn(T) -> real, s: Seq<T>) -> spec_fn(int) -> real {
    |i: int| times(v(s[i]), v(s[i]))
}

/// Where the root of the sum of the squares is less than a limit, the sum is less than its square.
proof fn lemma_short<T: Number, M: Elementary<T>>(
    m: M,
    v: spec_fn(T) -> real,
    s: Seq<T>,
    limit: T,
)
    requires
        exact(v),
        sqrt_exact(m, v),
        v(limit) > 0real,
    ensures
        sqrt_of(m, sum_squares_spec(s)).is_lt(&limit) == (total(
            squares(v, s),
            s.len() as int,
        ) < times(v(limit), v(limit))),
{
    let n = s.len() as int;
    let f = |i: int| s[i].mul_spec(s[i]);
    lemma_value_of_sum(v, f, squares(v, s), n);
    lemma_squares_not_negative(v, s, n);
    let r = v(sqrt_of(m, sum_squares_spec(s)));
    let l = v(limit);
    assert(sqrt_of(m, sum_squares_spec(s)).is_lt(&limit) == (r < l));
    lemma_difference_of_squares(l, r);
    if r < l {
        lemma_times_positive(l - r, l + r);
    } else {
        lemma_times_neg(l - r, l + r);
        lemma_times_not_negative(r - l, l + r);
    }
}

/// Sums of squares are not negative.
proof fn lemma_squares_not_negative<T>(v: spec_fn(T) -> real, s: Seq<T>, n: int)
    ensures
        total(squares(v, s), n) >= 0real,
    decreases n,
{
    if n > 0 {
        lemma_squares_not_negative(v, s, n - 1);
        lemma_square(v(s[n - 1]));
    }
}

/// How an iteration ends a fit that is not given up: where the gradient is shorter than a limit the
/// fit has converged where it is; else the step is taken if it stays within the bounds and lessens
/// the sum of squares, and the fit has converged if and only if the step is shorter than another
/// limit. A step that is not taken does not end it so.
pub proof fn law_iteration_converges<T: Number, M: Elementary<T>, P: CalibModel<T, M>>(
    m: M,
    v: spec_fn(T) -> real,
    quotes: Seq<CalibInput<T>>,
    reg: Option<Regularization<T, P>>,
    s: Fit<T>,
)
    requires
        exact(v),
        sqrt_exact(m, v),
        !is_pruned(m, s),
        !s.converged,
        v(decimal_of::<T, M>(m, 1, -8)) > 0real,
        v(decimal_of::<T, M>(m, 1, -10)) > 0real,
    ensures
        ({
            let weights = augmented_weights(m, quotes, reg);
            let j = augmented_jacobian(m, quotes, reg, P::from_seq(s.p));
            let grad = grad_spec(j, s.res, weights, s.res.len() as int, P::dim_spec());
            let next = fit_iteration(m, quotes, reg, s);
            let (e, f) = (
                v(decimal_of::<T, M>(m, 1, -8)),
                v(decimal_of::<T, M>(m, 1, -10)),
            );
            let flat = total(squares(v, grad), grad.len() as int) < times(e, e);
            &&& flat ==> next.converged && next.done && next.p == s.p
            &&& !flat && next.p != s.p ==> v(next.sse) < v(s.sse) && P::from_seq(
                next.p,
            ).bounds_ok_spec(m)
            &&& !flat && next.converged ==> {
                let a = jtj_spec(j, weights, s.res.len() as int, P::dim_spec());
                let dp = lm_step_spec(m, a, grad, s.lam);
                &&& next.p == moved(s.p, dp)
                &&& total(squares(v, dp), dp.len() as int) < times(f, f)
            }
        }),
{
    let weights = augmented_weights(m, quotes, reg);
    let j = augmented_jacobian(m, quotes, reg, P::from_seq(s.p));
    let rows = s.res.len() as int;
    let grad = grad_spec(j, s.res, weights, rows, P::dim_spec());
    let dp = lm_step_spec(m, jtj_spec(j, weights, rows, P::dim_spec()), grad, s.lam);
    lemma_short(m, v, grad, decimal_of::<T, M>(m, 1, -8));
    lemma_short(m, v, dp, decimal_of::<T, M>(m, 1, -10));
    let next = fit_iteration(m, quotes, reg, s);
    assert(next.sse.is_lt(&s.sse) == (v(next.sse) < v(s.sse)));
}

/// A population has as many members as are asked for, but at least four for each parameter.
pub proof fn law_population_size<T: Number, M: Elementary<T>, P: CalibModel<T, M>>(n_pop: usize)
    ensures
        ({
            let n = population_size::<T, M, P>(n_pop);
            &&& n >= n_pop && n >= 4 * P::dim_spec()
            &&& n == n_pop || n == 4 * P::dim_spec()
        }),
{
}

/// A run of iterations ends when the fit is done, or after as many as are left.
proof fn lemma_run_ends<T: Number, M: Elementary<T>, P: CalibModel<T, M>>(
    m: M,
    quotes: Seq<CalibInput<T>>,
    reg: Option<Regularization<T, P>>,
    s: Fit<T>,
    left: nat,
)
    ensures
        ({
            let end = fit_run(m, quotes, reg, s, left);
            &&& s.iters <= end.iters <= s.iters + left
            &&& end.done || end.iters == s.iters + left
        }),
    decreases left,
{
    if left > 0 && !s.done {
        let next = fit_iteration(m, quotes, reg, s);
        assert(next.iters == s.iters + 1);
        lemma_run_ends(m, quotes, reg, next, (left - 1) as nat);
    }
}

/// A fit ends by itself, or after two hundred iterations.
pub proof fn law_fit_ends_by_limit<T: Number, M: Elementary<T>, P: CalibModel<T, M>>(
    m: M,
    quotes: Seq<CalibInput<T>>,
    reg: Option<Regularization<T, P>>,
    p0: P,
    best: Option<T>,
)
    ensures
        ({
            let end = fit_end(m, quotes, reg, p0, best);
            end.iters <= 200 && (end.done || end.iters == 200)
        }),
{
    reveal(fit_end);
    lemma_run_ends(m, quotes, reg, fit_start(m, quotes, reg, p0, best), MAX_ITER as nat);
}

/// Damping adds to each diagonal entry its own multiple and leaves the others: a matrix that is
/// not damped is itself, and twice the damping adds twice as much.
pub proof fn law_damping_scales_diagonal<T: Number>(
    v: spec_fn(T) -> real,
    a: Seq<Seq<T>>,
    lam: T,
    i: int,
    j: int,
)
    requires
        exact(v),
        has_shape(a, a.len() as int, a.len() as int),
        0 <= i < a.len(),
        0 <= j < a.len(),
    ensures
        ({
            let d = damped(a, lam);
            &&& has_shape(d, a.len() as int, a.len() as int)
            &&& i != j ==> d[i][j] == a[i][j]
            &&& v(d[i][i]) - v(a[i][i]) == times(v(lam), v(a[i][i]))
        }),
{
    let d = damped(a, lam);
    assert(a[i].len() == a.len());
    lemma_times_add(v(a[i][i]), 1real, v(lam));
    lemma_times_comm(v(a[i][i]), v(lam));
    lemma_times_unit(v(a[i][i]));
    assert forall|k: int| 0 <= k < a.len() implies (#[trigger] d[k]).len() == a.len() by {
        assert(a[k].len() == a.len());
    }
}

/// A fit starts at the given parameters, with a damping of a thousandth, and with the errors and
/// the sum of squares that they have.
pub proof fn law_fit_starts<T: Number, M: Elementary<T>, P: CalibModel<T, M>>(
    m: M,
    v: spec_fn(T) -> real,
    quotes: Seq<CalibInput<T>>,
    reg: Option<Regularization<T, P>>,
    p0: P,
    best: Option<T>,
)
    requires
        exact(v),
        decimal_exact(m, v),
    ensures
        ({
            let s = fit_start(m, quotes, reg, p0, best);
            &&& 1000real * v(s.lam) == 1real
            &&& P::from_seq(s.p) == p0
            &&& s.res == augmented_residuals(m, quotes, reg, p0)
            &&& s.sse == weighted_sse_spec(s.res, augmented_weights(m, quotes, reg))
            &&& s.iters == 0 && !s.done && !s.converged && !s.early_stopped && s.best == best
        }),
{
    p0.lemma_vector(Seq::empty());
    let lam = v(decimal_of::<T, M>(m, 1, -3));
    reveal_with_fuel(power_of_ten, 4);
    assert(times(lam, power_of_ten((-(-3int)) as nat)) == 1real);
    lemma_literal(1000real, lam);
}

} // verus!
