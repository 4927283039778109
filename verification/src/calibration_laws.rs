//! What holds of every fit: how it ends, that it never leaves the bounds and never gets
//! worse, and that several fits are never worse than the one from the given start.
use crate::calibration::{
    augmented_jacobian, augmented_residuals, augmented_weights, best_after, calibrate_spec, fit_end,
    fit_iteration, fit_run, fit_start, is_multistart, is_pruned, largest_magnitude,
    law_multistart_best, moved, quote_weights, restart, Fit, MultistartResult, Regularization,
    MAX_ITER, PRUNE_CHECK_EVERY,
};
use crate::evolution::{
    challenger, draw_first_spec, draw_member_spec, first_population_spec, is_global_fit,
    population_after, winner, GlobalCalibResult, FIRST_DRAWS,
};
use crate::exact::{
    decimal_exact, exact, lemma_difference_of_squares, lemma_fraction, lemma_literal,
    lemma_multiple, lemma_quotients_ordered, lemma_sign_of_factor, lemma_square,
    lemma_square_of_product, lemma_times_add, lemma_times_comm, lemma_times_neg,
    lemma_times_positive, lemma_times_sub, lemma_times_unit, ordered, power_of_ten, sqrt_exact,
    times,
};
use crate::linalg::{
    common_len, grad_spec, jtj_spec, lm_step_spec, sum_squares_spec, weighted_square,
    weighted_sse_spec,
};
use crate::model::{
    bates_bounds_ok_spec, heston_bounds_ok_spec, residuals_spec, sigma_cap_spec, CalibInput,
    CalibModel, RandomStart,
};
use crate::number::{
    decimal_of, infinity_of, is_finite_of, magnitude, num, rank_of, ranks_follow_order, sqrt_of,
    sum, Elementary, Number,
};
use crate::random::{made_by, splitmix64_spec, within_of, RandomSource};
use crate::types::{BatesParams, HestonParams};
use vstd::prelude::*;
use vstd::std_specs::cmp::{PartialOrdIs, PartialOrdSpec};
use vstd::std_specs::ops::{DivSpec, MulSpec};

verus! {

/// A number less than one that is less than a third is less than the third.
pub open spec fn transitive<T: Number>() -> bool {
    forall|a: T, b: T, c: T|
        #![trigger a.partial_cmp_spec(&b), b.partial_cmp_spec(&c)]
        a.is_lt(&b) && b.is_lt(&c) ==> a.is_lt(&c)
}

/// What holds of a fit throughout: its residuals and their sum of squares are those of its
/// parameters; the parameters are those that it started from, or within the bounds; it has
/// not both converged and been given up; and if it was given up, then it trails the best by
/// more than a factor of eight, after a multiple of ten iterations.
pub open spec fn fit_invariant<T: Number, M: Elementary<T>, P: CalibModel<T, M>>(
    m: M,
    quotes: Seq<CalibInput<T>>,
    reg: Option<Regularization<T, P>>,
    p0: P,
    s: Fit<T>,
) -> bool {
    &&& s.res == augmented_residuals(m, quotes, reg, P::from_seq(s.p))
    &&& s.sse == weighted_sse_spec(s.res, augmented_weights(m, quotes, reg))
    &&& s.p == p0.to_seq() || P::from_seq(s.p).bounds_ok_spec(m)
    &&& s.iters >= 0
    &&& s.converged ==> s.done
    &&& s.early_stopped ==> s.done && !s.converged
    &&& s.early_stopped ==> {
        &&& s.best matches Some(b)
        &&& is_finite_of(m, b)
        &&& s.sse.is_gt(&b.mul_spec(num::<T>(8)))
        &&& s.iters > 1
        &&& (s.iters - 1) % (PRUNE_CHECK_EVERY as int) == 0
    }
}

/// A fit that started from `start` has not moved, or has lessened the sum of squares.
pub open spec fn no_worse<T: Number>(start: Fit<T>, s: Fit<T>) -> bool {
    (s.p == start.p && s.sse == start.sse) || s.sse.is_lt(&start.sse)
}

/// `fit_invariant` holds after further iterations if it holds before.
proof fn lemma_fit_run<T: Number, M: Elementary<T>, P: CalibModel<T, M>>(
    m: M,
    quotes: Seq<CalibInput<T>>,
    reg: Option<Regularization<T, P>>,
    p0: P,
    s: Fit<T>,
    left: nat,
)
    requires
        fit_invariant(m, quotes, reg, p0, s),
    ensures
        fit_invariant(m, quotes, reg, p0, fit_run(m, quotes, reg, s, left)),
        s.iters <= fit_run(m, quotes, reg, s, left).iters <= s.iters + left,
        left > 0 && !s.done ==> fit_run(m, quotes, reg, s, left).iters > s.iters,
        fit_run(m, quotes, reg, s, left).best is Some <==> s.best is Some,
    decreases left,
{
    if left > 0 && !s.done {
        let next = fit_iteration(m, quotes, reg, s);
        assert(fit_invariant(m, quotes, reg, p0, next));
        lemma_fit_run(m, quotes, reg, p0, next, (left - 1) as nat);
    }
}

/// How a fit ends: after at least one and at most two hundred iterations, and with what always
/// holds of it. A fit on its own is never given up.
pub proof fn law_fit_end<T: Number, M: Elementary<T>, P: CalibModel<T, M>>(
    m: M,
    quotes: Seq<CalibInput<T>>,
    reg: Option<Regularization<T, P>>,
    p0: P,
    best: Option<T>,
)
    ensures
        fit_invariant(m, quotes, reg, p0, fit_end(m, quotes, reg, p0, best)),
        1 <= fit_end(m, quotes, reg, p0, best).iters <= MAX_ITER,
        best is None ==> !fit_end(m, quotes, reg, p0, best).early_stopped,
{
    reveal(fit_end);
    lemma_fit_run(m, quotes, reg, p0, fit_start(m, quotes, reg, p0, best), MAX_ITER as nat);
}

/// The sums of squares of the steps that are taken, in order.
pub open spec fn accepted_sums<T: Number, M: Elementary<T>, P: CalibModel<T, M>>(
    m: M,
    quotes: Seq<CalibInput<T>>,
    reg: Option<Regularization<T, P>>,
    s: Fit<T>,
    left: nat,
) -> Seq<T>
    decreases left,
{
    if left == 0 || s.done {
        Seq::empty()
    } else {
        let next = fit_iteration(m, quotes, reg, s);
        let later = accepted_sums(m, quotes, reg, next, (left - 1) as nat);
        if is_step(m, quotes, reg, s) {
            seq![next.sse] + later
        } else {
            later
        }
    }
}

/// The next iteration takes a step.
pub open spec fn is_step<T: Number, M: Elementary<T>, P: CalibModel<T, M>>(
    m: M,
    quotes: Seq<CalibInput<T>>,
    reg: Option<Regularization<T, P>>,
    s: Fit<T>,
) -> bool {
    let weights = augmented_weights(m, quotes, reg);
    let j = augmented_jacobian(m, quotes, reg, P::from_seq(s.p));
    let rows = s.res.len() as int;
    let grad = grad_spec(j, s.res, weights, rows, P::dim_spec());
    let dp = lm_step_spec(m, jtj_spec(j, weights, rows, P::dim_spec()), grad, s.lam);
    let p_new = P::from_seq(moved(s.p, dp));
    let sse_new = weighted_sse_spec(augmented_residuals(m, quotes, reg, p_new), weights);
    &&& !is_pruned(m, s)
    &&& !sqrt_of(m, sum_squares_spec(grad)).is_lt(&decimal_of::<T, M>(m, 1, -8))
    &&& p_new.bounds_ok_spec(m)
    &&& sse_new.is_lt(&s.sse)
}

/// Each step that is taken lessens the sum of squares, and further iterations end with that of
/// the last of them, or where they began if there is none.
proof fn lemma_accepted_sums<T: Number, M: Elementary<T>, P: CalibModel<T, M>>(
    m: M,
    quotes: Seq<CalibInput<T>>,
    reg: Option<Regularization<T, P>>,
    s: Fit<T>,
    left: nat,
)
    ensures
        ({
            let sums = accepted_sums(m, quotes, reg, s, left);
            let end = fit_run(m, quotes, reg, s, left);
            &&& sums.len() > 0 ==> sums[0].is_lt(&s.sse) && end.sse == sums.last()
            &&& sums.len() == 0 ==> end.sse == s.sse && end.p == s.p
            &&& forall|k: int|
                0 < k < sums.len() ==> (#[trigger] sums[k]).is_lt(&sums[k - 1])
        }),
    decreases left,
{
    if left > 0 && !s.done {
        let next = fit_iteration(m, quotes, reg, s);
        let later = accepted_sums(m, quotes, reg, next, (left - 1) as nat);
        lemma_accepted_sums(m, quotes, reg, next, (left - 1) as nat);
        let sums = accepted_sums(m, quotes, reg, s, left);
        if is_step(m, quotes, reg, s) {
            assert forall|k: int| 0 < k < sums.len() implies (#[trigger] sums[k]).is_lt(
                &sums[k - 1],
            ) by {
                assert(sums[k] == later[k - 1]);
                if k > 1 {
                    assert(sums[k - 1] == later[k - 2]);
                }
            }
            if later.len() > 0 {
                assert(sums.last() == later.last());
            }
        } else {
            assert(next.sse == s.sse && next.p == s.p);
        }
    }
}

/// A strict order: no number is less than itself, and one less than a second that is less than
/// a third is less than the third.
pub open spec fn strict_order<T: Number>() -> bool {
    &&& transitive::<T>()
    &&& forall|a: T| #![trigger a.partial_cmp_spec(&a)] !a.is_lt(&a)
}

/// In further iterations the shared best stays, or becomes less, and ends at or below the sum of
/// squares of every step that was taken.
proof fn lemma_shared_best<T: Number, M: Elementary<T>, P: CalibModel<T, M>>(
    m: M,
    quotes: Seq<CalibInput<T>>,
    reg: Option<Regularization<T, P>>,
    s: Fit<T>,
    left: nat,
)
    requires
        strict_order::<T>(),
        s.best is Some,
    ensures
        ({
            let sums = accepted_sums(m, quotes, reg, s, left);
            let end = fit_run(m, quotes, reg, s, left);
            &&& end.best is Some
            &&& end.best == s.best || end.best->0.is_lt(&s.best->0)
            &&& forall|k: int|
                0 <= k < sums.len() ==> !(#[trigger] sums[k]).is_lt(&end.best->0)
        }),
    decreases left,
{
    if left > 0 && !s.done {
        let next = fit_iteration(m, quotes, reg, s);
        let later = accepted_sums(m, quotes, reg, next, (left - 1) as nat);
        lemma_shared_best(m, quotes, reg, next, (left - 1) as nat);
        let sums = accepted_sums(m, quotes, reg, s, left);
        let end = fit_run(m, quotes, reg, s, left);
        let (b, c, e) = (s.best->0, next.best->0, end.best->0);
        assert(c == b || c.is_lt(&b));
        assert(e == c || e.is_lt(&c));
        assert forall|k: int| 0 <= k < sums.len() implies !(#[trigger] sums[k]).is_lt(&e) by {
            if is_step(m, quotes, reg, s) {
                if k > 0 {
                    assert(sums[k] == later[k - 1]);
                } else {
                    let x = next.sse;
                    assert(c == x || !x.is_lt(&b) && c == b);
                    if x.is_lt(&e) {
                        if e.is_lt(&c) {
                            assert(x.is_lt(&c));
                        }
                    }
                }
            }
        }
    }
}

/// The sums of squares of the steps that a fit takes.
pub open spec fn fit_sums<T: Number, M: Elementary<T>, P: CalibModel<T, M>>(
    m: M,
    quotes: Seq<CalibInput<T>>,
    reg: Option<Regularization<T, P>>,
    p0: P,
    best: Option<T>,
) -> Seq<T> {
    accepted_sums(m, quotes, reg, fit_start(m, quotes, reg, p0, best), MAX_ITER as nat)
}

/// Each step that a fit takes lessens the sum of squares, and the fit ends with that of the last
/// of them, or where it started if there is none.
pub proof fn law_accepted_sums_fall<T: Number, M: Elementary<T>, P: CalibModel<T, M>>(
    m: M,
    quotes: Seq<CalibInput<T>>,
    reg: Option<Regularization<T, P>>,
    p0: P,
    best: Option<T>,
)
    ensures
        ({
            let sums = fit_sums(m, quotes, reg, p0, best);
            let start = fit_start(m, quotes, reg, p0, best);
            let end = fit_end(m, quotes, reg, p0, best);
            &&& sums.len() > 0 ==> sums[0].is_lt(&start.sse) && end.sse == sums.last()
            &&& sums.len() == 0 ==> end.sse == start.sse && end.p == start.p
            &&& forall|k: int|
                0 < k < sums.len() ==> (#[trigger] sums[k]).is_lt(&sums[k - 1])
        }),
{
    reveal(fit_end);
    let start = fit_start(m, quotes, reg, p0, best);
    lemma_accepted_sums(m, quotes, reg, start, MAX_ITER as nat);
}

/// The best that fits share never rises: after a fit it is what it was, or less. It is then at
/// or below the sum of squares of every step that the fit took.
pub proof fn law_shared_best_falls<T: Number, M: Elementary<T>, P: CalibModel<T, M>>(
    m: M,
    quotes: Seq<CalibInput<T>>,
    reg: Option<Regularization<T, P>>,
    p0: P,
    best: T,
)
    requires
        strict_order::<T>(),
    ensures
        ({
            let sums = fit_sums(m, quotes, reg, p0, Some(best));
            let end = fit_end(m, quotes, reg, p0, Some(best));
            &&& end.best is Some
            &&& end.best->0 == best || end.best->0.is_lt(&best)
            &&& forall|k: int|
                0 <= k < sums.len() ==> !(#[trigger] sums[k]).is_lt(&end.best->0)
        }),
{
    reveal(fit_end);
    let start = fit_start(m, quotes, reg, p0, Some(best));
    lemma_shared_best(m, quotes, reg, start, MAX_ITER as nat);
}

/// `no_worse` holds after further iterations if it holds before.
proof fn lemma_run_no_worse<T: Number, M: Elementary<T>, P: CalibModel<T, M>>(
    m: M,
    quotes: Seq<CalibInput<T>>,
    reg: Option<Regularization<T, P>>,
    start: Fit<T>,
    s: Fit<T>,
    left: nat,
)
    requires
        transitive::<T>(),
        no_worse(start, s),
    ensures
        no_worse(start, fit_run(m, quotes, reg, s, left)),
    decreases left,
{
    if left > 0 && !s.done {
        let next = fit_iteration(m, quotes, reg, s);
        assert(no_worse(start, next));
        lemma_run_no_worse(m, quotes, reg, start, next, (left - 1) as nat);
    }
}

/// A fit never gets worse: it ends with the parameters that it started from, or with a
/// smaller sum of squares than theirs.
pub proof fn law_fit_no_worse<T: Number, M: Elementary<T>, P: CalibModel<T, M>>(
    m: M,
    quotes: Seq<CalibInput<T>>,
    reg: Option<Regularization<T, P>>,
    p0: P,
    best: Option<T>,
)
    requires
        transitive::<T>(),
    ensures
        no_worse(
            fit_start(m, quotes, reg, p0, best),
            fit_end(m, quotes, reg, p0, best),
        ),
{
    reveal(fit_end);
    let start = fit_start(m, quotes, reg, p0, best);
    lemma_run_no_worse(m, quotes, reg, start, start, MAX_ITER as nat);
}

/// A fit from a start within the bounds ends within them.
pub proof fn law_fit_stays_in_bounds<T: Number, M: Elementary<T>, P: CalibModel<T, M>>(
    m: M,
    quotes: Seq<CalibInput<T>>,
    p0: P,
    best: Option<T>,
    reg: Option<Regularization<T, P>>,
)
    requires
        p0.bounds_ok_spec(m),
    ensures
        calibrate_spec(m, quotes, p0, best, reg).params.bounds_ok_spec(m),
{
    reveal(calibrate_spec);
    law_fit_end(m, quotes, reg, p0, best);
    p0.lemma_vector(Seq::empty());
}

/// Feller's condition holds after every calibration of Heston's model from a start within
/// the bounds, and the bounds hold too.
pub proof fn law_heston_fit_satisfies_feller<T: Number, M: Elementary<T>>(
    m: M,
    quotes: Seq<CalibInput<T>>,
    p0: HestonParams<T>,
    best: Option<T>,
    reg: Option<Regularization<T, HestonParams<T>>>,
)
    requires
        p0.bounds_ok_spec(m),
    ensures
        calibrate_spec(m, quotes, p0, best, reg).params.feller_ok_spec(),
{
    law_fit_stays_in_bounds(m, quotes, p0, best, reg);
}

/// Feller's condition holds after every calibration of Bates's model from a start within the
/// bounds.
pub proof fn law_bates_fit_satisfies_feller<T: Number, M: Elementary<T>>(
    m: M,
    quotes: Seq<CalibInput<T>>,
    p0: BatesParams<T>,
    best: Option<T>,
    reg: Option<Regularization<T, BatesParams<T>>>,
)
    requires
        p0.bounds_ok_spec(m),
    ensures
        calibrate_spec(m, quotes, p0, best, reg).params.heston.feller_ok_spec(),
{
    law_fit_stays_in_bounds(m, quotes, p0, best, reg);
}

/// Sums of squares are not negative.
proof fn lemma_sse_not_negative<T: Number>(
    v: spec_fn(T) -> real,
    res: Seq<T>,
    weights: Seq<T>,
    n: int,
)
    requires
        exact(v),
    ensures
        v(sum(weighted_square(res, weights), n)) >= 0real,
    decreases n,
{
    if n > 0 {
        lemma_sse_not_negative(v, res, weights, n - 1);
        let e = weights[n - 1].mul_spec(res[n - 1]);
        lemma_square(v(e));
    }
}

/// No sum of squares is more than eight times itself, and the infinity of the provider is not
/// finite.
pub open spec fn prunes_no_leader<T: Number, M: Elementary<T>>(m: M) -> bool {
    &&& forall|res: Seq<T>, weights: Seq<T>|
        !(#[trigger] weighted_sse_spec(res, weights)).is_gt(
            &weighted_sse_spec(res, weights).mul_spec(num::<T>(8)),
        )
    &&& !is_finite_of(m, infinity_of::<T, M>(m))
}

/// Without rounding, no sum of squares is more than eight times itself.
pub proof fn law_leader_is_not_pruned<T: Number, M: Elementary<T>>(m: M, v: spec_fn(T) -> real)
    requires
        exact(v),
        !is_finite_of(m, infinity_of::<T, M>(m)),
    ensures
        prunes_no_leader::<T, M>(m),
{
    assert forall|res: Seq<T>, weights: Seq<T>|
        !(#[trigger] weighted_sse_spec(res, weights)).is_gt(
            &weighted_sse_spec(res, weights).mul_spec(num::<T>(8)),
        ) by {
        lemma_sse_not_negative(
            v,
            res,
            weights,
            common_len(res.len() as int, weights.len() as int),
        );
        lemma_times_eight(v(weighted_sse_spec(res, weights)));
    }
}

/// A fit that shares its best only with itself goes on as one that shares nothing.
proof fn lemma_alone<T: Number, M: Elementary<T>, P: CalibModel<T, M>>(
    m: M,
    quotes: Seq<CalibInput<T>>,
    reg: Option<Regularization<T, P>>,
    p0: P,
    s: Fit<T>,
    left: nat,
)
    requires
        prunes_no_leader::<T, M>(m),
        fit_invariant(m, quotes, reg, p0, s),
        s.best == Some(infinity_of::<T, M>(m)) || s.best == Some(s.sse),
    ensures
        ({
            let shared = fit_run(m, quotes, reg, s, left);
            let alone = fit_run(m, quotes, reg, Fit { best: None, ..s }, left);
            alone == Fit { best: None, ..shared }
        }),
    decreases left,
{
    if left > 0 && !s.done {
        let next = fit_iteration(m, quotes, reg, s);
        assert(fit_invariant(m, quotes, reg, p0, next));
        assert(next.best == Some(infinity_of::<T, M>(m)) || next.best == Some(next.sse));
        let alone = Fit { best: None, ..s };
        assert(fit_iteration(m, quotes, reg, alone) == Fit { best: None, ..next });
        lemma_alone(m, quotes, reg, p0, next, (left - 1) as nat);
    }
}

/// Eight times a number that is not negative is not less than it.
proof fn lemma_times_eight(a: real)
    requires
        a >= 0real,
    ensures
        times(a, 8real) >= a,
{
    reveal(times);
}

/// The first of several fits is the fit from the given start on its own: sharing the best
/// with the others does not change it.
pub proof fn law_first_restart_is_single_start<T: Number, M: Elementary<T>, P: CalibModel<T, M>>(
    m: M,
    quotes: Seq<CalibInput<T>>,
    starts: Seq<P>,
)
    requires
        prunes_no_leader::<T, M>(m),
        starts.len() > 0,
    ensures
        restart(m, quotes, starts, 0) == calibrate_spec(m, quotes, starts[0], None, None),
{
    reveal(fit_end);
    reveal(calibrate_spec);
    let best = best_after(m, quotes, starts, 0);
    let start = fit_start(m, quotes, None, starts[0], best);
    assert(fit_start(m, quotes, None, starts[0], None) == Fit { best: None, ..start });
    lemma_alone(m, quotes, None, starts[0], start, MAX_ITER as nat);
}

/// Several fits never lose to the single fit from the given start: it does not rank before the
/// best of them; and where ranks follow the order of the numbers, its error is not smaller.
pub proof fn law_multistart_never_loses<T: Number, M: Elementary<T>, P: CalibModel<T, M>>(
    m: M,
    quotes: Seq<CalibInput<T>>,
    starts: Seq<P>,
    res: MultistartResult<T, P>,
)
    requires
        prunes_no_leader::<T, M>(m),
        is_multistart(m, quotes, starts, res),
        starts.len() > 0,
    ensures
        rank_of(m, res.best.rmse) <= rank_of(
            m,
            calibrate_spec(m, quotes, starts[0], None, None).rmse,
        ),
        ranks_follow_order::<T, M>(m) ==> !calibrate_spec(
            m,
            quotes,
            starts[0],
            None,
            None,
        ).rmse.is_lt(&res.best.rmse),
{
    law_first_restart_is_single_start(m, quotes, starts);
    law_multistart_best(m, quotes, starts, res, 0);
}

/// The fit that follows an evolution never loses what the evolution found: it keeps the
/// winner, or fits the quotes better than the winner does. Where the winner's sum of squares is
/// finite, the winner is within the bounds, and the fit stays within them.
pub proof fn law_polish_never_loses<T: Number, M: Elementary<T>, P: CalibModel<T, M>>(
    m: M,
    quotes: Seq<CalibInput<T>>,
    gens: Seq<Seq<Seq<T>>>,
    res: GlobalCalibResult<T, P>,
)
    requires
        transitive::<T>(),
        !is_finite_of(m, infinity_of::<T, M>(m)),
        is_global_fit(m, quotes, gens, None, res),
        winner::<T, M, P>(m, quotes, gens.last()).len() == P::dim_spec(),
        is_finite_of(m, res.de_best_sse),
    ensures
        res.de_generations == gens.len() - 1,
        P::from_seq(winner::<T, M, P>(m, quotes, gens.last())).bounds_ok_spec(m),
        res.best.params.bounds_ok_spec(m),
        ({
            let w = P::from_seq(winner::<T, M, P>(m, quotes, gens.last()));
            let sse = fit_end(m, quotes, None, w, None).sse;
            &&& res.best.params == w && sse == res.de_best_sse || sse.is_lt(&res.de_best_sse)
        }),
{
    let ws = winner::<T, M, P>(m, quotes, gens.last());
    let w = P::from_seq(ws);
    w.lemma_vector(ws);
    law_fit_stays_in_bounds(m, quotes, w, None, None);
    law_fit_no_worse(m, quotes, None, w, None);
    reveal(calibrate_spec);
    assert(res.best.params == res.best.outcome().params);
}

/// Without rounding, the error after the polish is at most the root of the winner's mean square.
pub proof fn law_polish_error<T: Number, M: Elementary<T>, P: CalibModel<T, M>>(
    m: M,
    v: spec_fn(T) -> real,
    quotes: Seq<CalibInput<T>>,
    gens: Seq<Seq<Seq<T>>>,
    res: GlobalCalibResult<T, P>,
)
    requires
        exact(v),
        sqrt_exact(m, v),
        !is_finite_of(m, infinity_of::<T, M>(m)),
        is_global_fit(m, quotes, gens, None, res),
        winner::<T, M, P>(m, quotes, gens.last()).len() == P::dim_spec(),
        is_finite_of(m, res.de_best_sse),
        v(sum_squares_spec(quote_weights(quotes))) > 0real,
    ensures
        v(res.best.rmse) <= v(
            sqrt_of(m, res.de_best_sse.div_spec(sum_squares_spec(quote_weights(quotes)))),
        ),
{
    let ws = winner::<T, M, P>(m, quotes, gens.last());
    let w = P::from_seq(ws);
    let weights = quote_weights(quotes);
    let total = sum_squares_spec(weights);
    assert(transitive::<T>());
    law_polish_never_loses(m, quotes, gens, res);
    law_fit_end(m, quotes, None::<Regularization<T, P>>, w, None);
    reveal(calibrate_spec);
    let end = fit_end(m, quotes, None::<Regularization<T, P>>, w, None);
    let data = residuals_spec(m, quotes, P::from_seq(end.p));
    assert(res.best.rmse == res.best.outcome().rmse);
    assert(end.res == data);
    assert(end.sse == weighted_sse_spec(data, weights));
    let n = common_len(data.len() as int, weights.len() as int);
    lemma_sse_not_negative(v, data, weights, n);
    let (a, b) = (end.sse.div_spec(total), res.de_best_sse.div_spec(total));
    lemma_quotients_ordered(v, end.sse, res.de_best_sse, total);
    lemma_times_comm(v(a), v(total));
    lemma_sign_of_factor(v(total), v(a));
    let (x, y) = (v(sqrt_of(m, a)), v(sqrt_of(m, b)));
    lemma_roots_ordered(x, y);
}

/// Numbers that are not negative are ordered as their squares.
proof fn lemma_roots_ordered(x: real, y: real)
    requires
        x >= 0real,
        y >= 0real,
        times(x, x) <= times(y, y),
    ensures
        x <= y,
{
    if x > y {
        lemma_difference_of_squares(x, y);
        lemma_times_positive(x - y, x + y);
    }
}

/// No element is larger in magnitude than the largest.
proof fn lemma_largest<T: Number>(v: spec_fn(T) -> real, r: Seq<T>, n: int, k: int)
    requires
        exact(v),
        0 <= k < n,
    ensures
        v(largest_magnitude(r, n)) >= v(magnitude(r[k])),
        v(largest_magnitude(r, n)) >= 0real,
    decreases n,
{
    if k < n - 1 {
        lemma_largest(v, r, n - 1, k);
    } else if n > 1 {
        lemma_largest(v, r, n - 1, 0);
    }
}

/// A weighted sum of squares is at most the square of the bound times the sum of the squares of
/// the weights.
proof fn lemma_sse_bounded<T: Number>(
    v: spec_fn(T) -> real,
    res: Seq<T>,
    weights: Seq<T>,
    bound: real,
    n: int,
)
    requires
        exact(v),
        bound >= 0real,
        forall|k: int| 0 <= k < n ==> v(magnitude(#[trigger] res[k])) <= bound,
    ensures
        v(sum(weighted_square(res, weights), n)) <= times(
            times(bound, bound),
            v(sum(|i: int| weights[i].mul_spec(weights[i]), n)),
        ),
    decreases n,
{
    let squares = |i: int| weights[i].mul_spec(weights[i]);
    let bb = times(bound, bound);
    lemma_times_unit(bb);
    if n > 0 {
        lemma_sse_bounded(v, res, weights, bound, n - 1);
        let (w, r) = (v(weights[n - 1]), v(res[n - 1]));
        let a = v(magnitude(res[n - 1]));
        assert(v(magnitude(res[n - 1])) <= bound);
        assert(a == r || a == -r);
        assert(times(r, r) <= bb) by {
            lemma_times_neg(r, r);
            lemma_times_neg(r, -r);
            lemma_larger_product(a, a, bound, bound);
        }
        lemma_square_of_product(w, r);
        lemma_square(w);
        lemma_square(r);
        lemma_times_comm(times(w, w), times(r, r));
        lemma_larger_product(times(r, r), times(w, w), bb, times(w, w));
        let before = v(sum(squares, n - 1));
        lemma_times_comm(bb, before);
        lemma_times_comm(bb, times(w, w));
        lemma_times_comm(bb, before + times(w, w));
        lemma_times_add(bb, before, times(w, w));
    }
}

/// The error of a fit lies between zero and its largest error: without rounding, for quotes
/// whose weights are not all zero.
pub proof fn law_error_bounded<T: Number, M: Elementary<T>, P: CalibModel<T, M>>(
    m: M,
    v: spec_fn(T) -> real,
    quotes: Seq<CalibInput<T>>,
    p0: P,
    best: Option<T>,
    reg: Option<Regularization<T, P>>,
)
    requires
        exact(v),
        sqrt_exact(m, v),
        quotes.len() > 0,
        v(sum_squares_spec(quote_weights(quotes))) > 0real,
    ensures
        ({
            let r = calibrate_spec(m, quotes, p0, best, reg);
            0real <= v(r.rmse) <= v(r.max_err)
        }),
{
    reveal(calibrate_spec);
    let end = fit_end(m, quotes, reg, p0, best);
    let weights = quote_weights(quotes);
    let total = sum_squares_spec(weights);
    let data = residuals_spec(m, quotes, P::from_seq(end.p));
    let n = quotes.len() as int;
    let sse = weighted_sse_spec(data, weights);
    let top = v(largest_magnitude(data, n));
    assert forall|k: int| 0 <= k < n implies v(magnitude(#[trigger] data[k])) <= top by {
        lemma_largest(v, data, n, k);
    }
    lemma_largest(v, data, n, 0);
    lemma_sse_not_negative(v, data, weights, n);
    lemma_sse_bounded(v, data, weights, top, n);
    let q = sse.div_spec(total);
    lemma_times_comm(v(q), v(total));
    lemma_sign_of_factor(v(total), v(q));
    let tt = times(top, top);
    assert(v(q) <= tt) by {
        lemma_times_sub(v(total), tt, v(q));
        lemma_times_comm(v(total), tt - v(q));
        lemma_sign_of_factor(v(total), tt - v(q));
    }
    lemma_roots_ordered(v(sqrt_of(m, q)), top);
}

/// A challenger stays in the ranges of the parameters if the members do.
pub proof fn law_challenger_in_ranges<T: Number>(
    v: spec_fn(T) -> real,
    bounds: Seq<(T, T)>,
    pop: Seq<Seq<T>>,
    i: int,
    a: int,
    b: int,
    c: int,
    mask: Seq<bool>,
    d: int,
)
    requires
        ordered(v),
        0 <= i < pop.len(),
        0 <= d < pop[i].len(),
        v(bounds[d].0) <= v(bounds[d].1),
        v(bounds[d].0) <= v(pop[i][d]) <= v(bounds[d].1),
    ensures
        v(bounds[d].0) <= v(challenger(bounds, pop, i, a, b, c, mask)[d]) <= v(bounds[d].1),
{
}

/// The draws of a stream lie in the intervals that they are drawn from.
pub open spec fn draws_in_range<T: Number, S: RandomSource<T>>(v: spec_fn(T) -> real) -> bool {
    forall|s: S, lo: T, hi: T|
        #![trigger within_of(s, lo, hi)]
        v(lo) <= v(hi) ==> v(lo) <= v(within_of(s, lo, hi).0) <= v(hi)
}

/// Larger factors have a larger product.
proof fn lemma_larger_product(a: real, b: real, c: real, d: real)
    requires
        0real <= a <= c,
        0real <= b <= d,
    ensures
        times(a, b) <= times(c, d),
{
    reveal(times);
    assert(a * b <= c * b) by (nonlinear_arith)
        requires
            0real <= a <= c,
            0real <= b,
    ;
    assert(c * b <= c * d) by (nonlinear_arith)
        requires
            0real <= c,
            0real <= b <= d,
    ;
}

/// Every random start of Heston's model satisfies Feller's condition, with nothing rejected.
pub proof fn law_random_start_satisfies_feller<
    T: Number,
    M: Elementary<T>,
    S: RandomSource<T>,
>(m: M, v: spec_fn(T) -> real, src: S)
    requires
        exact(v),
        sqrt_exact(m, v),
        draws_in_range::<T, S>(v),
    ensures
        (<HestonParams<T> as RandomStart<T, M, S>>::random_guess_spec(
            m,
            src,
        ).0).feller_ok_spec(),
{
    let (p, _) = <HestonParams<T> as RandomStart<T, M, S>>::random_guess_spec(m, src);
    lemma_fraction(v, 5, 1000);
    lemma_fraction(v, 1, 2);
    lemma_fraction(v, 3, 10);
    lemma_fraction(v, 2, 100);
    lemma_fraction(v, 1, 20);
    lemma_fraction(v, 9, 10);
    let (k, t, s) = (v(p.kappa), v(p.theta), v(p.sigma));
    assert(k >= 3real / 10real && t >= 1real / 200real);
    let a = num::<T>(2).mul_spec(p.kappa).mul_spec(p.theta);
    lemma_literal(2real, k);
    lemma_larger_product(6real / 10real, 1real / 200real, 2real * k, t);
    lemma_literal(6real / 10real, 1real / 200real);
    assert(v(a) >= 3real / 1000real);
    let r = v(sqrt_of(m, a));
    let cap = v(sigma_cap_spec(m, p.kappa, p.theta));
    lemma_literal(9real / 10real, r);
    lemma_square(r);
    assert(cap == 9real / 10real * r || cap == 1real / 20real);
    assert(1real / 50real <= s <= cap);
    lemma_larger_product(s, s, cap, cap);
    if cap == 1real / 20real {
        lemma_literal(1real / 20real, 1real / 20real);
    } else {
        lemma_multiple(9real / 10real, r, 9real / 10real * r);
        lemma_multiple(9real / 10real, r, r);
    }
    assert(times(s, s) < v(a));
}

/// The smallest values that the bounds allow are less than a hundredth.
proof fn lemma_small_bounds<T: Number, M: Elementary<T>>(m: M, v: spec_fn(T) -> real)
    requires
        exact(v),
        decimal_exact(m, v),
    ensures
        v(decimal_of::<T, M>(m, 1, -8)) < 1real / 1000real,
        v(decimal_of::<T, M>(m, 1, -6)) < 1real / 1000real,
{
    let (a, b) = (v(decimal_of::<T, M>(m, 1, -8)), v(decimal_of::<T, M>(m, 1, -6)));
    reveal_with_fuel(power_of_ten, 9);
    assert(power_of_ten(8) == 100000000real);
    assert(power_of_ten(6) == 1000000real);
    lemma_literal(100000000real, a);
    lemma_literal(1000000real, b);
}

/// Every random start of Heston's model may be used: it lies in its ranges and within the
/// bounds, with nothing rejected.
pub proof fn law_random_start_in_bounds<T: Number, M: Elementary<T>, S: RandomSource<T>>(
    m: M,
    v: spec_fn(T) -> real,
    src: S,
)
    requires
        exact(v),
        sqrt_exact(m, v),
        decimal_exact(m, v),
        draws_in_range::<T, S>(v),
    ensures
        ({
            let p = <HestonParams<T> as RandomStart<T, M, S>>::random_guess_spec(m, src).0;
            &&& 1real / 200real <= v(p.v0) <= 1real / 2real
            &&& 3real / 10real <= v(p.kappa) <= 8real
            &&& 1real / 200real <= v(p.theta) <= 1real / 2real
            &&& -9real / 10real <= v(p.rho) <= 9real / 10real
            &&& heston_bounds_ok_spec(m, p)
        }),
{
    let (p, _) = <HestonParams<T> as RandomStart<T, M, S>>::random_guess_spec(m, src);
    law_random_start_satisfies_feller(m, v, src);
    lemma_small_bounds::<T, M>(m, v);
    lemma_fraction(v, 5, 1000);
    lemma_fraction(v, 1, 2);
    lemma_fraction(v, 3, 10);
    lemma_fraction(v, 2, 100);
    lemma_fraction(v, 1, 20);
    lemma_fraction(v, 9, 10);
    lemma_fraction(v, -9i32, 10);
    lemma_fraction(v, 9999, 10000);
    lemma_fraction(v, -9999i32, 10000);
    let (k, t, s) = (v(p.kappa), v(p.theta), v(p.sigma));
    assert(3real / 10real <= k <= 8real);
    assert(1real / 200real <= t <= 1real / 2real);
    // The cap on the volatility of variance is at most three.
    let a = num::<T>(2).mul_spec(p.kappa).mul_spec(p.theta);
    lemma_literal(2real, k);
    lemma_larger_product(2real * k, t, 16real, 1real / 2real);
    lemma_larger_product(6real / 10real, 1real / 200real, 2real * k, t);
    lemma_literal(6real / 10real, 1real / 200real);
    lemma_literal(16real, 1real / 2real);
    let r = v(sqrt_of(m, a));
    lemma_literal(3real, 3real);
    lemma_roots_ordered(r, 3real);
    let cap = v(sigma_cap_spec(m, p.kappa, p.theta));
    lemma_literal(9real / 10real, r);
    assert(cap == 9real / 10real * r || cap == 1real / 20real);
    assert(cap >= 1real / 20real);
    assert(1real / 50real <= s <= cap);
}

/// Every random start of Bates's model may be used: it lies in its ranges and within the bounds.
pub proof fn law_bates_random_start_in_bounds<T: Number, M: Elementary<T>, S: RandomSource<T>>(
    m: M,
    v: spec_fn(T) -> real,
    src: S,
)
    requires
        exact(v),
        sqrt_exact(m, v),
        decimal_exact(m, v),
        draws_in_range::<T, S>(v),
    ensures
        ({
            let p = <BatesParams<T> as RandomStart<T, M, S>>::random_guess_spec(m, src).0;
            &&& 0real <= v(p.lambda) <= 2real
            &&& -3real / 10real <= v(p.mu_j) <= 1real / 10real
            &&& 1real / 50real <= v(p.sigma_j) <= 2real / 5real
            &&& bates_bounds_ok_spec(m, p)
        }),
{
    law_random_start_in_bounds(m, v, src);
    lemma_small_bounds::<T, M>(m, v);
    lemma_fraction(v, -3i32, 10);
    lemma_fraction(v, 1, 10);
    lemma_fraction(v, 2, 100);
    lemma_fraction(v, 4, 10);
}

/// The elements of a vector lie in the ranges of the parameters.
pub open spec fn in_ranges<T: Number>(
    v: spec_fn(T) -> real,
    bounds: Seq<(T, T)>,
    x: Seq<T>,
) -> bool {
    &&& x.len() == bounds.len()
    &&& forall|d: int|
        0 <= d < x.len() ==> v(bounds[d].0) <= v(#[trigger] x[d]) <= v(bounds[d].1)
}

/// No range is empty.
pub open spec fn are_ranges<T: Number>(v: spec_fn(T) -> real, bounds: Seq<(T, T)>) -> bool {
    forall|d: int| 0 <= d < bounds.len() ==> v((#[trigger] bounds[d]).0) <= v(bounds[d].1)
}

/// A drawn member lies in the ranges of the parameters.
proof fn lemma_member_in_ranges<T: Number, S: RandomSource<T>>(
    v: spec_fn(T) -> real,
    src: S,
    bounds: Seq<(T, T)>,
    n: int,
)
    requires
        draws_in_range::<T, S>(v),
        are_ranges(v, bounds),
        0 <= n <= bounds.len(),
    ensures
        in_ranges(v, bounds.take(n), draw_member_spec(src, bounds, n).0),
    decreases n,
{
    if n > 0 {
        lemma_member_in_ranges(v, src, bounds, n - 1);
        let (x, s1) = draw_member_spec(src, bounds, n - 1);
        let y = draw_member_spec(src, bounds, n).0;
        assert(v(bounds[n - 1].0) <= v(bounds[n - 1].1));
        assert forall|d: int| 0 <= d < y.len() implies v(bounds.take(n)[d].0) <= v(#[trigger] y[d])
            <= v(bounds.take(n)[d].1) by {
            if d < n - 1 {
                assert(y[d] == x[d]);
                assert(bounds.take(n - 1)[d] == bounds[d]);
            }
        }
    }
}

/// A first member lies in the ranges of the parameters.
proof fn lemma_first_in_ranges<
    T: Number,
    M: Elementary<T>,
    P: CalibModel<T, M>,
    S: RandomSource<T>,
>(m: M, v: spec_fn(T) -> real, src: S, quotes: Seq<CalibInput<T>>, tries: nat)
    requires
        draws_in_range::<T, S>(v),
        are_ranges(v, P::param_bounds_spec(m)),
    ensures
        in_ranges(
            v,
            P::param_bounds_spec(m),
            draw_first_spec::<T, M, P, S>(m, src, quotes, tries).0,
        ),
    decreases tries,
{
    let bounds = P::param_bounds_spec(m);
    lemma_member_in_ranges(v, src, bounds, bounds.len() as int);
    assert(bounds.take(bounds.len() as int) =~= bounds);
    if tries > 0 {
        let s1 = draw_member_spec(src, bounds, bounds.len() as int).1;
        lemma_first_in_ranges::<T, M, P, S>(m, v, s1, quotes, (tries - 1) as nat);
    }
}

/// The members of a first population lie in the ranges of the parameters.
proof fn lemma_first_population_in_ranges<
    T: Number,
    M: Elementary<T>,
    P: CalibModel<T, M>,
    S: RandomSource<T>,
>(m: M, v: spec_fn(T) -> real, src: S, quotes: Seq<CalibInput<T>>, n: int, i: int)
    requires
        draws_in_range::<T, S>(v),
        are_ranges(v, P::param_bounds_spec(m)),
        0 <= i < n,
    ensures
        first_population_spec::<T, M, P, S>(m, src, quotes, n).0.len() == n,
        in_ranges(
            v,
            P::param_bounds_spec(m),
            first_population_spec::<T, M, P, S>(m, src, quotes, n).0[i],
        ),
    decreases n,
{
    let (pop, s1) = first_population_spec::<T, M, P, S>(m, src, quotes, n - 1);
    if n > 1 {
        lemma_first_population_in_ranges::<T, M, P, S>(m, v, src, quotes, n - 1, if i < n - 1 {
            i
        } else {
            0
        });
    } else {
        assert(pop.len() == 0);
    }
    lemma_first_in_ranges::<T, M, P, S>(m, v, s1, quotes, FIRST_DRAWS as nat);
}

/// An evolution never leaves the ranges of the parameters: every member of every generation
/// lies in them.
pub proof fn law_evolution_stays_in_ranges<
    T: Number,
    M: Elementary<T>,
    P: CalibModel<T, M>,
    S: RandomSource<T>,
    F: Fn(u64) -> S,
>(
    m: M,
    v: spec_fn(T) -> real,
    make: F,
    quotes: Seq<CalibInput<T>>,
    size: int,
    seed: u64,
    gen: int,
    i: int,
)
    requires
        ordered(v),
        draws_in_range::<T, S>(v),
        are_ranges(v, P::param_bounds_spec(m)),
        0 <= i < size <= usize::MAX,
    ensures
        population_after::<T, M, P, S, F>(m, make, quotes, size, seed, gen).len() == size,
        in_ranges(
            v,
            P::param_bounds_spec(m),
            population_after::<T, M, P, S, F>(m, make, quotes, size, seed, gen)[i],
        ),
    decreases gen,
{
    if gen <= 0 {
        lemma_first_population_in_ranges::<T, M, P, S>(
            m,
            v,
            made_by(make, splitmix64_spec(seed)),
            quotes,
            size,
            i,
        );
    } else {
        law_evolution_stays_in_ranges::<T, M, P, S, F>(
            m,
            v,
            make,
            quotes,
            size,
            seed,
            gen - 1,
            i,
        );
        let bounds = P::param_bounds_spec(m);
        let pop = population_after::<T, M, P, S, F>(m, make, quotes, size, seed, gen - 1);
        let x = population_after::<T, M, P, S, F>(m, make, quotes, size, seed, gen)[i];
        assert forall|a: int, b: int, c: int, mask: Seq<bool>| #[trigger] in_ranges(
            v,
            bounds,
            challenger(bounds, pop, i, a, b, c, mask),
        ) by {
            let trial = challenger(bounds, pop, i, a, b, c, mask);
            assert forall|d: int| 0 <= d < trial.len() implies v(bounds[d].0) <= v(
                #[trigger] trial[d],
            ) <= v(bounds[d].1) by {
                assert(v(bounds[d].0) <= v(pop[i][d]) <= v(bounds[d].1));
                law_challenger_in_ranges(v, bounds, pop, i, a, b, c, mask, d);
            }
        }
    }
}

} // verus!
