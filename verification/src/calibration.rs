//! Calibration to quoted volatilities: Levenberg-Marquardt from one start, from several, and
//! from the winner of a differential evolution.
pub use crate::evolution::{
    calibrate_bates_global, calibrate_bates_global_regularized, calibrate_heston_global,
    calibrate_heston_global_regularized, GlobalCalibResult,
};
use crate::linalg::{
    constant_vec, copy_vec, entries, grad_spec, has_shape, jacobi_eigen, jacobi_eigen_spec,
    jtj_and_grad, jtj_spec, lm_step, lm_step_spec, sum_squares, sum_squares_spec, weighted_sse,
    weighted_sse_spec,
};
pub use crate::model::{CalibInput, CalibModel, RandomStart};
use crate::model::{jacobian, jacobian_spec, residuals, residuals_spec};
use crate::number::{
    abs, decimal_of, fmax, fmin, frac, infinity_of, is_finite_of, larger, lawful, magnitude, num,
    rank_of, ranks_follow_order, ratio, smaller, sqrt_of, whole, Elementary, Number,
};
use crate::random::{chunk_seed, chunk_seed_spec, made_by, steady, steady_maker, RandomSource};
use crate::select::{find_first_min, first_min, law_first_min};
use crate::types::{BatesParams, HestonParams};
use vstd::prelude::*;
use vstd::std_specs::cmp::PartialOrdIs;
use vstd::std_specs::ops::{AddSpec, DivSpec, MulSpec, SubSpec};

verus! {

/// Iterations before a fit settles for what it has.
pub const MAX_ITER: usize = 200;

/// How often a fit among several compares itself with the best of them.
pub const PRUNE_CHECK_EVERY: usize = 10;

/// A fit: the parameters, how well they fit the quotes, how the iteration ended, and how
/// well the quotes determine them.
#[derive(Debug)]
pub struct CalibResult<T, P> {
    pub params: P,
    pub rmse: T,
    pub max_err: T,
    pub iters: usize,
    pub converged: bool,
    pub early_stopped: bool,
    pub condition_number: T,
    pub weakest_direction: Vec<T>,
}

/// A pull toward a prior: the strength of the penalty for a distance of one typical size.
#[derive(Debug, Clone, Copy)]
pub struct Regularization<T, P> {
    pub prior: P,
    pub weight: T,
}

/// The weights of the quotes.
pub open spec fn quote_weights<T>(quotes: Seq<CalibInput<T>>) -> Seq<T> {
    Seq::new(quotes.len(), |i: int| quotes[i].weight)
}

/// The distances of the parameters from the prior, in typical sizes.
pub open spec fn prior_distances<T: Number, M: Elementary<T>, P: CalibModel<T, M>>(
    m: M,
    p: P,
    prior: P,
) -> Seq<T> {
    Seq::new(
        P::dim_spec() as nat,
        |i: int|
            p.to_seq()[i].sub_spec(prior.to_seq()[i]).div_spec(
                P::regularization_scale_spec(m)[i],
            ),
    )
}

/// The residuals that are minimised: those of the quotes, and with a prior the distances
/// from it.
pub open spec fn augmented_residuals<T: Number, M: Elementary<T>, P: CalibModel<T, M>>(
    m: M,
    quotes: Seq<CalibInput<T>>,
    reg: Option<Regularization<T, P>>,
    p: P,
) -> Seq<T> {
    let data = residuals_spec(m, quotes, p);
    match reg {
        None => data,
        Some(r) => data + prior_distances(m, p, r.prior),
    }
}

/// The weights of the residuals that are minimised: those of the quotes, and with a prior
/// the root of its strength for each parameter.
pub open spec fn augmented_weights<T: Number, M: Elementary<T>, P: CalibModel<T, M>>(
    m: M,
    quotes: Seq<CalibInput<T>>,
    reg: Option<Regularization<T, P>>,
) -> Seq<T> {
    match reg {
        None => quote_weights(quotes),
        Some(r) => quote_weights(quotes) + Seq::new(
            P::dim_spec() as nat,
            |i: int| sqrt_of(m, r.weight),
        ),
    }
}

/// The derivatives of the distances from the prior: one over the typical sizes, on the
/// diagonal.
pub open spec fn prior_jacobian<T: Number, M: Elementary<T>, P: CalibModel<T, M>>(m: M) -> Seq<
    Seq<T>,
> {
    Seq::new(
        P::dim_spec() as nat,
        |i: int|
            Seq::new(
                P::dim_spec() as nat,
                |j: int|
                    if i == j {
                        num::<T>(1).div_spec(P::regularization_scale_spec(m)[i])
                    } else {
                        num::<T>(0)
                    },
            ),
    )
}

/// The Jacobian of the residuals that are minimised.
pub open spec fn augmented_jacobian<T: Number, M: Elementary<T>, P: CalibModel<T, M>>(
    m: M,
    quotes: Seq<CalibInput<T>>,
    reg: Option<Regularization<T, P>>,
    p: P,
) -> Seq<Seq<T>> {
    let data = jacobian_spec(m, quotes, p);
    match reg {
        None => data,
        Some(r) => data + prior_jacobian::<T, M, P>(m),
    }
}

/// A fit under way: the parameters, their residuals and the sum of the squares, the damping,
/// how many iterations there have been and how they ended, and the least sum of squares that
/// any of several fits has reached.
pub struct Fit<T> {
    pub p: Seq<T>,
    pub res: Seq<T>,
    pub sse: T,
    pub lam: T,
    pub iters: int,
    pub converged: bool,
    pub early_stopped: bool,
    pub done: bool,
    pub best: Option<T>,
}

/// A fit before its first iteration.
pub open spec fn fit_start<T: Number, M: Elementary<T>, P: CalibModel<T, M>>(
    m: M,
    quotes: Seq<CalibInput<T>>,
    reg: Option<Regularization<T, P>>,
    p0: P,
    best: Option<T>,
) -> Fit<T> {
    let res = augmented_residuals(m, quotes, reg, P::from_seq(p0.to_seq()));
    Fit {
        p: p0.to_seq(),
        res,
        sse: weighted_sse_spec(res, augmented_weights(m, quotes, reg)),
        lam: decimal_of::<T, M>(m, 1, -3),
        iters: 0,
        converged: false,
        early_stopped: false,
        done: false,
        best,
    }
}

/// Whether a fit among several is given up: at every tenth iteration but the first, if its
/// sum of squares is more than eight times the best.
pub open spec fn is_pruned<T: Number, M: Elementary<T>>(m: M, s: Fit<T>) -> bool {
    match s.best {
        None => false,
        Some(b) => {
            &&& s.iters > 0
            &&& s.iters % (PRUNE_CHECK_EVERY as int) == 0
            &&& is_finite_of(m, b)
            &&& s.sse.is_gt(&b.mul_spec(num::<T>(8)))
        },
    }
}

/// The damping after a step that is not taken: ten times as much, up to a ceiling.
pub open spec fn lam_up<T: Number, M: Elementary<T>>(m: M, lam: T) -> T {
    smaller(lam.mul_spec(num::<T>(10)), decimal_of::<T, M>(m, 1, 8))
}

/// A fit whose step is not taken: the damping grows, and at its ceiling the fit ends.
pub open spec fn step_refused<T: Number, M: Elementary<T>>(m: M, s: Fit<T>) -> Fit<T> {
    let lam = lam_up(m, s.lam);
    Fit { lam, iters: s.iters + 1, done: lam.is_ge(&decimal_of::<T, M>(m, 1, 8)), ..s }
}

/// The elements of `p` and `dp` added.
pub open spec fn moved<T: Number>(p: Seq<T>, dp: Seq<T>) -> Seq<T> {
    Seq::new(p.len(), |i: int| p[i].add_spec(dp[i]))
}

/// A fit whose step is taken: the damping shrinks, and where the step is small the fit has
/// converged.
pub open spec fn step_taken<T: Number, M: Elementary<T>>(
    m: M,
    s: Fit<T>,
    p_new: Seq<T>,
    dp: Seq<T>,
    res_new: Seq<T>,
    sse_new: T,
) -> Fit<T> {
    let lam = s.lam;
    let small = sqrt_of(m, sum_squares_spec(dp)).is_lt(&decimal_of::<T, M>(m, 1, -10));
    Fit {
        p: p_new,
        res: res_new,
        sse: sse_new,
        lam: larger(lam.mul_spec(frac::<T>(1, 10)), decimal_of::<T, M>(m, 1, -12)),
        iters: s.iters + 1,
        converged: small,
        early_stopped: s.early_stopped,
        done: small,
        best: match s.best {
            None => None,
            Some(b) => Some(
                if sse_new.is_lt(&b) {
                    sse_new
                } else {
                    b
                },
            ),
        },
    }
}

/// One iteration: the damped step from the parameters, taken if it stays within the bounds
/// and lessens the sum of squares.
pub open spec fn fit_iteration<T: Number, M: Elementary<T>, P: CalibModel<T, M>>(
    m: M,
    quotes: Seq<CalibInput<T>>,
    reg: Option<Regularization<T, P>>,
    s: Fit<T>,
) -> Fit<T> {
    let weights = augmented_weights(m, quotes, reg);
    let j = augmented_jacobian(m, quotes, reg, P::from_seq(s.p));
    let rows = s.res.len() as int;
    let grad = grad_spec(j, s.res, weights, rows, P::dim_spec());
    let dp = lm_step_spec(m, jtj_spec(j, weights, rows, P::dim_spec()), grad, s.lam);
    let p_new = moved(s.p, dp);
    let res_new = augmented_residuals(m, quotes, reg, P::from_seq(p_new));
    let sse_new = weighted_sse_spec(res_new, weights);
    if is_pruned(m, s) {
        Fit { iters: s.iters + 1, early_stopped: true, done: true, ..s }
    } else if sqrt_of(m, sum_squares_spec(grad)).is_lt(&decimal_of::<T, M>(m, 1, -8)) {
        Fit { iters: s.iters + 1, converged: true, done: true, ..s }
    } else if !P::from_seq(p_new).bounds_ok_spec(m) {
        step_refused(m, s)
    } else if sse_new.is_lt(&s.sse) {
        step_taken(m, s, p_new, dp, res_new, sse_new)
    } else {
        step_refused(m, s)
    }
}

/// The normal equations of a fit at the parameters `p` with the residuals `res`.
pub open spec fn are_normal_equations<T: Number, M: Elementary<T>, P: CalibModel<T, M>>(
    m: M,
    quotes: Seq<CalibInput<T>>,
    reg: Option<Regularization<T, P>>,
    p: Seq<T>,
    res: Seq<T>,
    jtj: Seq<Seq<T>>,
    grad: Seq<T>,
) -> bool {
    let weights = augmented_weights(m, quotes, reg);
    let j = augmented_jacobian(m, quotes, reg, P::from_seq(p));
    &&& jtj == jtj_spec(j, weights, res.len() as int, P::dim_spec())
    &&& grad == grad_spec(j, res, weights, res.len() as int, P::dim_spec())
}

/// Iterations, at most `left` of them, until the fit ends.
pub open spec fn fit_run<T: Number, M: Elementary<T>, P: CalibModel<T, M>>(
    m: M,
    quotes: Seq<CalibInput<T>>,
    reg: Option<Regularization<T, P>>,
    s: Fit<T>,
    left: nat,
) -> Fit<T>
    decreases left,
{
    if left == 0 || s.done {
        s
    } else {
        fit_run(m, quotes, reg, fit_iteration(m, quotes, reg, s), (left - 1) as nat)
    }
}

/// A fit that has ended.
#[verifier::opaque]
pub open spec fn fit_end<T: Number, M: Elementary<T>, P: CalibModel<T, M>>(
    m: M,
    quotes: Seq<CalibInput<T>>,
    reg: Option<Regularization<T, P>>,
    p0: P,
    best: Option<T>,
) -> Fit<T> {
    fit_run(m, quotes, reg, fit_start(m, quotes, reg, p0, best), MAX_ITER as nat)
}

/// The largest magnitude among the first `n` elements of `v`, or zero.
pub open spec fn largest_magnitude<T: Number>(v: Seq<T>, n: int) -> T
    decreases n,
{
    if n <= 0 {
        num::<T>(0)
    } else {
        larger(largest_magnitude(v, n - 1), magnitude(v[n - 1]))
    }
}

/// The largest of the first `n` elements of `v`.
pub open spec fn largest<T: Number, M: Elementary<T>>(m: M, v: Seq<T>, n: int) -> T
    decreases n,
{
    if n <= 0 {
        decimal_of::<T, M>(m, -17976931348623157, 292)
    } else {
        larger(largest(m, v, n - 1), v[n - 1])
    }
}

/// The smallest of the first `n` elements of `v`.
pub open spec fn smallest<T: Number, M: Elementary<T>>(m: M, v: Seq<T>, n: int) -> T
    decreases n,
{
    if n <= 0 {
        decimal_of::<T, M>(m, 17976931348623157, 292)
    } else {
        smaller(smallest(m, v, n - 1), v[n - 1])
    }
}

/// The quotient of the largest and the smallest eigenvalue in magnitude: large where some
/// direction in the parameters hardly matters to the fit.
pub open spec fn condition_spec<T: Number, M: Elementary<T>>(m: M, eig: Seq<T>) -> T {
    let hi = largest(m, eig, eig.len() as int);
    let lo = smallest(m, eig, eig.len() as int);
    if magnitude(lo).is_gt(&decimal_of::<T, M>(m, 1, -300)) {
        magnitude(hi.div_spec(lo))
    } else {
        infinity_of::<T, M>(m)
    }
}

/// The ranks of the magnitudes of the elements.
pub open spec fn magnitude_ranks<T: Number, M: Elementary<T>>(m: M, v: Seq<T>) -> Seq<i64> {
    Seq::new(v.len(), |i: int| rank_of(m, magnitude(v[i])))
}

/// What a fit amounts to.
pub struct Outcome<T, P> {
    pub params: P,
    pub rmse: T,
    pub max_err: T,
    pub iters: int,
    pub converged: bool,
    pub early_stopped: bool,
    pub condition_number: T,
    pub weakest_direction: Seq<T>,
}

impl<T, P> CalibResult<T, P> {
    /// What the fit amounts to.
    pub open spec fn outcome(self) -> Outcome<T, P> {
        Outcome {
            params: self.params,
            rmse: self.rmse,
            max_err: self.max_err,
            iters: self.iters as int,
            converged: self.converged,
            early_stopped: self.early_stopped,
            condition_number: self.condition_number,
            weakest_direction: self.weakest_direction@,
        }
    }
}

/// The report on a fit that has ended. The error and the conditioning are those of the
/// quotes alone, whatever prior helped to find the parameters.
pub open spec fn report<T: Number, M: Elementary<T>, P: CalibModel<T, M>>(
    m: M,
    quotes: Seq<CalibInput<T>>,
    s: Fit<T>,
) -> Outcome<T, P> {
    let params = P::from_seq(s.p);
    let weights = quote_weights(quotes);
    let res = residuals_spec(m, quotes, params);
    let wmse = weighted_sse_spec(res, weights).div_spec(sum_squares_spec(weights));
    let j = jacobian_spec(m, quotes, params);
    let (eig, vecs) = jacobi_eigen_spec(
        m,
        jtj_spec(j, weights, quotes.len() as int, P::dim_spec()),
    );
    Outcome {
        params,
        rmse: sqrt_of(m, wmse),
        max_err: largest_magnitude(res, res.len() as int),
        iters: s.iters,
        converged: s.converged,
        early_stopped: s.early_stopped,
        condition_number: condition_spec(m, eig),
        weakest_direction: vecs[first_min(magnitude_ranks(m, eig))],
    }
}

/// The fit of a model to quotes from one start.
#[verifier::opaque]
pub open spec fn calibrate_spec<T: Number, M: Elementary<T>, P: CalibModel<T, M>>(
    m: M,
    quotes: Seq<CalibInput<T>>,
    p0: P,
    best: Option<T>,
    reg: Option<Regularization<T, P>>,
) -> Outcome<T, P> {
    report(m, quotes, fit_end(m, quotes, reg, p0, best))
}

/// The weights of the quotes.
pub fn weights_of<T: Number>(quotes: &Vec<CalibInput<T>>) -> (res: Vec<T>)
    ensures
        res@ == quote_weights(quotes@),
{
    let mut w: Vec<T> = Vec::new();
    while w.len() < quotes.len()
        invariant
            w@.len() <= quotes@.len(),
            w@ =~= quote_weights(quotes@).take(w@.len() as int),
        decreases quotes@.len() - w@.len(),
    {
        w.push(quotes[w.len()].weight);
    }
    w
}

/// The residuals that are minimised.
fn compute_residuals<T: Number, M: Elementary<T>, P: CalibModel<T, M>>(
    m: M,
    quotes: &Vec<CalibInput<T>>,
    reg: &Option<Regularization<T, P>>,
    p: &P,
) -> (res: Vec<T>)
    requires
        lawful::<T, M>(m),
    ensures
        res@ == augmented_residuals(m, quotes@, *reg, *p),
        res@.len() == augmented_weights(m, quotes@, *reg).len(),
{
    let mut r = residuals(m, quotes, p);
    match reg {
        None => {},
        Some(g) => {
            proof {
                P::lemma_shape(m);
                p.lemma_vector(Seq::empty());
                g.prior.lemma_vector(Seq::empty());
            }
            let n: usize = P::dim();
            let pv = p.to_vec();
            let prior = g.prior.to_vec();
            let scale = P::regularization_scale(m);
            let ghost data = residuals_spec(m, quotes@, *p);
            let mut i: usize = 0;
            while i < n
                invariant
                    lawful::<T, M>(m),
                    n == P::dim_spec(),
                    i <= n,
                    pv@ == p.to_seq(),
                    prior@ == g.prior.to_seq(),
                    scale@ == P::regularization_scale_spec(m),
                    pv@.len() == n,
                    prior@.len() == n,
                    scale@.len() == n,
                    r@ =~= data + prior_distances(m, *p, g.prior).take(i as int),
                decreases n - i,
            {
                r.push((pv[i] - prior[i]) / scale[i]);
                i = i + 1;
            }
            proof {
                let d = prior_distances(m, *p, g.prior);
                assert(d.take(d.len() as int) =~= d);
            }
        },
    }
    r
}

/// The weights of the residuals that are minimised.
fn compute_weights<T: Number, M: Elementary<T>, P: CalibModel<T, M>>(
    m: M,
    quotes: &Vec<CalibInput<T>>,
    reg: &Option<Regularization<T, P>>,
) -> (res: Vec<T>)
    requires
        lawful::<T, M>(m),
    ensures
        res@ == augmented_weights(m, quotes@, *reg),
{
    let mut w = weights_of(quotes);
    match reg {
        None => {},
        Some(g) => {
            let n: usize = P::dim();
            let root = m.sqrt(g.weight);
            let ghost base = quote_weights(quotes@);
            let mut i: usize = 0;
            while i < n
                invariant
                    i <= n,
                    w@ =~= base + Seq::new(i as nat, |k: int| root),
                decreases n - i,
            {
                w.push(root);
                i = i + 1;
            }
            proof {
                assert(w@ =~= augmented_weights(m, quotes@, *reg));
            }
        },
    }
    w
}

/// The Jacobian of the residuals that are minimised.
fn compute_jacobian<T: Number, M: Elementary<T>, P: CalibModel<T, M>>(
    m: M,
    quotes: &Vec<CalibInput<T>>,
    reg: &Option<Regularization<T, P>>,
    p: &P,
) -> (res: Vec<Vec<T>>)
    requires
        lawful::<T, M>(m),
    ensures
        entries(res@) == augmented_jacobian(m, quotes@, *reg, *p),
        has_shape(
            entries(res@),
            augmented_weights(m, quotes@, *reg).len() as int,
            P::dim_spec(),
        ),
{
    let mut j = jacobian(m, quotes, p);
    if reg.is_some() {
        proof {
            P::lemma_shape(m);
        }
        let n: usize = P::dim();
        let scale = P::regularization_scale(m);
        let ghost data = jacobian_spec(m, quotes@, *p);
        let ghost prior = prior_jacobian::<T, M, P>(m);
        let ghost nq = quotes@.len();
        let mut i: usize = 0;
        proof {
            assert(entries(j@) =~= data + prior.take(0));
        }
        while i < n
            invariant
                lawful::<T, M>(m),
                n == P::dim_spec(),
                i <= n,
                scale@ == P::regularization_scale_spec(m),
                scale@.len() == n,
                prior == prior_jacobian::<T, M, P>(m),
                entries(j@) =~= data + prior.take(i as int),
            decreases n - i,
        {
            let mut row = constant_vec(whole::<T>(0), n);
            row.set(i, whole::<T>(1) / scale[i]);
            proof {
                assert(row@ =~= prior[i as int]);
            }
            let ghost before = j@;
            j.push(row);
            proof {
                assert(entries(j@) =~= entries(before).push(row@));
                assert(prior.take(i + 1) =~= prior.take(i as int).push(prior[i as int]));
            }
            i = i + 1;
        }
        proof {
            assert(prior.take(n as int) =~= prior);
            let all = entries(j@);
            assert forall|r: int| 0 <= r < all.len() implies (#[trigger] all[r]).len() == n by {
                if r < nq {
                    assert(all[r] == data[r]);
                } else {
                    assert(all[r] == prior[r - nq]);
                }
            }
        }
    }
    j
}

/// The fit from one start. With a best sum of squares in `shared`, the fit is one of
/// several: it is given up where it trails, and lowers the best where it leads.
pub fn calibrate_inner<T: Number, M: Elementary<T>, P: CalibModel<T, M>>(
    m: M,
    quotes: &Vec<CalibInput<T>>,
    p0: P,
    shared: &mut Option<T>,
    reg: Option<Regularization<T, P>>,
) -> (res: CalibResult<T, P>)
    requires
        lawful::<T, M>(m),
        quotes@.len() > 0,
    ensures
        res.outcome() == calibrate_spec(m, quotes@, p0, *old(shared), reg),
        *final(shared) == fit_end(m, quotes@, reg, p0, *old(shared)).best,
{
    let n: usize = P::dim();
    proof {
        P::lemma_shape(m);
        p0.lemma_vector(Seq::empty());
    }
    proof {
        reveal(fit_end);
        reveal(calibrate_spec);
    }
    let ghost qs = quotes@;
    let ghost end = fit_end(m, qs, reg, p0, *shared);
    let weights = compute_weights(m, quotes, &reg);
    let mut p = p0.to_vec();
    let mut lam = m.decimal(1, -3);
    let mut res = compute_residuals(m, quotes, &reg, &P::from_vec(&p));
    let mut sse = weighted_sse(&res, &weights);
    let mut iters: usize = 0;
    let mut converged = false;
    let mut early_stopped = false;
    let mut done = false;
    let mut jtj: Vec<Vec<T>> = Vec::new();
    let mut grad: Vec<T> = Vec::new();
    let mut stale = true;
    while iters < MAX_ITER && !done
        invariant
            lawful::<T, M>(m),
            qs == quotes@,
            !stale ==> are_normal_equations::<T, M, P>(
                m,
                qs,
                reg,
                p@,
                res@,
                entries(jtj@),
                grad@,
            ),
            n == P::dim_spec(),
            n >= 1,
            p@.len() == n,
            weights@ == augmented_weights(m, qs, reg),
            res@.len() == weights@.len(),
            iters <= MAX_ITER,
            fit_run(
                m,
                qs,
                reg,
                Fit {
                    p: p@,
                    res: res@,
                    sse,
                    lam,
                    iters: iters as int,
                    converged,
                    early_stopped,
                    done,
                    best: *shared,
                },
                (MAX_ITER - iters) as nat,
            ) == end,
        decreases MAX_ITER - iters,
    {
        let ghost s = Fit {
            p: p@,
            res: res@,
            sse,
            lam,
            iters: iters as int,
            converged,
            early_stopped,
            done,
            best: *shared,
        };
        let mut pruned = false;
        match *shared {
            None => {},
            Some(best) => {
                if iters > 0 && iters % PRUNE_CHECK_EVERY == 0 {
                    if m.is_finite(best) && sse > best * whole::<T>(8) {
                        pruned = true;
                    }
                }
            },
        }
        proof {
            assert(pruned == is_pruned(m, s));
        }
        let mut refused = false;
        if pruned {
            early_stopped = true;
            done = true;
        } else {
            if stale {
                let j = compute_jacobian(m, quotes, &reg, &P::from_vec(&p));
                let (a, b) = jtj_and_grad(&j, &res, &weights, n);
                jtj = a;
                grad = b;
                stale = false;
            }
            let gnorm = m.sqrt(sum_squares(&grad));
            if gnorm < m.decimal(1, -8) {
                converged = true;
                done = true;
            } else {
                let dp = lm_step(m, &jtj, &grad, lam, n);
                let mut p_new: Vec<T> = Vec::new();
                while p_new.len() < n
                    invariant
                        lawful::<T, M>(m),
                        p@.len() == n,
                        dp@.len() == n,
                        p_new@.len() <= n,
                        p_new@ =~= moved(p@, dp@).take(p_new@.len() as int),
                    decreases n - p_new@.len(),
                {
                    let i: usize = p_new.len();
                    p_new.push(p[i] + dp[i]);
                }
                proof {
                    assert(p_new@ =~= moved(p@, dp@));
                }
                let m_new = P::from_vec(&p_new);
                if !m_new.bounds_ok(m) {
                    refused = true;
                } else {
                    let res_new = compute_residuals(m, quotes, &reg, &m_new);
                    let sse_new = weighted_sse(&res_new, &weights);
                    if sse_new < sse {
                        p = p_new;
                        res = res_new;
                        sse = sse_new;
                        stale = true;
                        lam = fmax(lam * ratio::<T>(1, 10), m.decimal(1, -12));
                        match *shared {
                            None => {},
                            Some(best) => {
                                if sse < best {
                                    *shared = Some(sse);
                                }
                            },
                        }
                        let step_norm = m.sqrt(sum_squares(&dp));
                        if step_norm < m.decimal(1, -10) {
                            converged = true;
                            done = true;
                        } else {
                            converged = false;
                        }
                    } else {
                        refused = true;
                    }
                }
            }
        }
        if refused {
            lam = fmin(lam * whole::<T>(10), m.decimal(1, 8));
            done = lam >= m.decimal(1, 8);
        }
        iters = iters + 1;
        proof {
            let t = Fit {
                p: p@,
                res: res@,
                sse,
                lam,
                iters: iters as int,
                converged,
                early_stopped,
                done,
                best: *shared,
            };
            assert(t == fit_iteration(m, qs, reg, s));
        }
    }
    finish(
        m,
        quotes,
        &p,
        iters,
        converged,
        early_stopped,
        Ghost(end),
    )
}

/// The report on a fit that has ended.
fn finish<T: Number, M: Elementary<T>, P: CalibModel<T, M>>(
    m: M,
    quotes: &Vec<CalibInput<T>>,
    p: &Vec<T>,
    iters: usize,
    converged: bool,
    early_stopped: bool,
    Ghost(end): Ghost<Fit<T>>,
) -> (res: CalibResult<T, P>)
    requires
        lawful::<T, M>(m),
        p@.len() == P::dim_spec(),
        end.p == p@,
        end.iters == iters,
        end.converged == converged,
        end.early_stopped == early_stopped,
    ensures
        res.outcome() == report::<T, M, P>(m, quotes@, end),
{
    let n: usize = P::dim();
    proof {
        P::lemma_shape(m);
    }
    let params = P::from_vec(p);
    let weights = weights_of(quotes);
    let res = residuals(m, quotes, &params);
    let wmse = weighted_sse(&res, &weights) / sum_squares(&weights);
    let rmse = m.sqrt(wmse);
    let mut max_err = whole::<T>(0);
    let mut i: usize = 0;
    while i < res.len()
        invariant
            lawful::<T, M>(m),
            i <= res@.len(),
            max_err == largest_magnitude(res@, i as int),
        decreases res@.len() - i,
    {
        max_err = fmax(max_err, abs(res[i]));
        i = i + 1;
    }
    let j = jacobian(m, quotes, &params);
    let (jtj, _grad) = jtj_and_grad(&j, &res, &weights, n);
    let (eig, vecs) = jacobi_eigen(m, &jtj, n);
    let mut hi = m.decimal(-17976931348623157, 292);
    let mut lo = m.decimal(17976931348623157, 292);
    let mut ranks: Vec<i64> = Vec::new();
    let mut k: usize = 0;
    while k < n
        invariant
            lawful::<T, M>(m),
            eig@.len() == n,
            k <= n,
            hi == largest(m, eig@, k as int),
            lo == smallest(m, eig@, k as int),
            ranks@ =~= magnitude_ranks(m, eig@).take(k as int),
        decreases n - k,
    {
        let x = eig[k];
        hi = fmax(hi, x);
        lo = fmin(lo, x);
        ranks.push(m.rank(abs(x)));
        k = k + 1;
    }
    proof {
        assert(ranks@ =~= magnitude_ranks(m, eig@));
    }
    let condition_number = if abs(lo) > m.decimal(1, -300) {
        abs(hi / lo)
    } else {
        m.infinity()
    };
    let weakest: usize = find_first_min(&ranks);
    proof {
        assert(entries(vecs@)[weakest as int] == vecs@[weakest as int]@);
    }
    let weakest_direction = copy_vec(&vecs[weakest]);
    CalibResult {
        params,
        rmse,
        max_err,
        iters,
        converged,
        early_stopped,
        condition_number,
        weakest_direction,
    }
}

/// The fit from one start, on its own.
pub fn calibrate<T: Number, M: Elementary<T>, P: CalibModel<T, M>>(
    m: M,
    quotes: &Vec<CalibInput<T>>,
    p0: P,
) -> (res: CalibResult<T, P>)
    requires
        lawful::<T, M>(m),
        quotes@.len() > 0,
    ensures
        res.outcome() == calibrate_spec(m, quotes@, p0, None, None),
{
    let mut alone: Option<T> = None;
    calibrate_inner(m, quotes, p0, &mut alone, None)
}

/// The fit from one start, pulled toward a prior.
pub fn calibrate_regularized<T: Number, M: Elementary<T>, P: CalibModel<T, M>>(
    m: M,
    quotes: &Vec<CalibInput<T>>,
    p0: P,
    prior: &P,
    reg_weight: T,
) -> (res: CalibResult<T, P>)
    requires
        lawful::<T, M>(m),
        quotes@.len() > 0,
    ensures
        res.outcome() == calibrate_spec(
            m,
            quotes@,
            p0,
            None,
            Some(Regularization { prior: *prior, weight: reg_weight }),
        ),
{
    let mut alone: Option<T> = None;
    let reg = Some(Regularization { prior: *prior, weight: reg_weight });
    calibrate_inner(m, quotes, p0, &mut alone, reg)
}

/// The fit of Heston's model from one start.
pub fn calibrate_heston<T: Number, M: Elementary<T>>(
    m: M,
    quotes: &Vec<CalibInput<T>>,
    p0: HestonParams<T>,
) -> (res: CalibResult<T, HestonParams<T>>)
    requires
        lawful::<T, M>(m),
        quotes@.len() > 0,
    ensures
        res.outcome() == calibrate_spec(m, quotes@, p0, None, None),
{
    calibrate(m, quotes, p0)
}

/// The fit of Bates's model from one start.
pub fn calibrate_bates<T: Number, M: Elementary<T>>(
    m: M,
    quotes: &Vec<CalibInput<T>>,
    p0: BatesParams<T>,
) -> (res: CalibResult<T, BatesParams<T>>)
    requires
        lawful::<T, M>(m),
        quotes@.len() > 0,
    ensures
        res.outcome() == calibrate_spec(m, quotes@, p0, None, None),
{
    calibrate(m, quotes, p0)
}

/// The fit of Heston's model from one start, pulled toward a prior.
pub fn calibrate_heston_regularized<T: Number, M: Elementary<T>>(
    m: M,
    quotes: &Vec<CalibInput<T>>,
    p0: HestonParams<T>,
    prior: &HestonParams<T>,
    reg_weight: T,
) -> (res: CalibResult<T, HestonParams<T>>)
    requires
        lawful::<T, M>(m),
        quotes@.len() > 0,
    ensures
        res.outcome() == calibrate_spec(
            m,
            quotes@,
            p0,
            None,
            Some(Regularization { prior: *prior, weight: reg_weight }),
        ),
{
    calibrate_regularized(m, quotes, p0, prior, reg_weight)
}

/// The fit of Bates's model from one start, pulled toward a prior.
pub fn calibrate_bates_regularized<T: Number, M: Elementary<T>>(
    m: M,
    quotes: &Vec<CalibInput<T>>,
    p0: BatesParams<T>,
    prior: &BatesParams<T>,
    reg_weight: T,
) -> (res: CalibResult<T, BatesParams<T>>)
    requires
        lawful::<T, M>(m),
        quotes@.len() > 0,
    ensures
        res.outcome() == calibrate_spec(
            m,
            quotes@,
            p0,
            None,
            Some(Regularization { prior: *prior, weight: reg_weight }),
        ),
{
    calibrate_regularized(m, quotes, p0, prior, reg_weight)
}

/// The best of several fits, and how many of them converged or were given up.
#[derive(Debug)]
pub struct MultistartResult<T, P> {
    pub best: CalibResult<T, P>,
    pub n_restarts: usize,
    pub n_converged: usize,
    pub n_pruned: usize,
}

/// The best sum of squares after the fits from the first `n` starts.
pub open spec fn best_after<T: Number, M: Elementary<T>, P: CalibModel<T, M>>(
    m: M,
    quotes: Seq<CalibInput<T>>,
    starts: Seq<P>,
    n: int,
) -> Option<T>
    decreases n,
{
    if n <= 0 {
        Some(infinity_of::<T, M>(m))
    } else {
        fit_end(
            m,
            quotes,
            None,
            starts[n - 1],
            best_after(m, quotes, starts, n - 1),
        ).best
    }
}

/// The fit from start `i`, which knows the best of those before it.
pub open spec fn restart<T: Number, M: Elementary<T>, P: CalibModel<T, M>>(
    m: M,
    quotes: Seq<CalibInput<T>>,
    starts: Seq<P>,
    i: int,
) -> Outcome<T, P> {
    calibrate_spec(m, quotes, starts[i], best_after(m, quotes, starts, i), None)
}

/// The ranks of the errors of the fits.
pub open spec fn rmse_ranks<T: Number, M: Elementary<T>, P: CalibModel<T, M>>(
    m: M,
    quotes: Seq<CalibInput<T>>,
    starts: Seq<P>,
) -> Seq<i64> {
    Seq::new(starts.len(), |i: int| rank_of(m, restart(m, quotes, starts, i).rmse))
}

/// How many of the first `n` fits converged.
pub open spec fn converged_count<T: Number, M: Elementary<T>, P: CalibModel<T, M>>(
    m: M,
    quotes: Seq<CalibInput<T>>,
    starts: Seq<P>,
    n: int,
) -> int
    decreases n,
{
    if n <= 0 {
        0
    } else {
        converged_count(m, quotes, starts, n - 1) + if restart(m, quotes, starts, n - 1).converged {
            1int
        } else {
            0
        }
    }
}

/// How many of the first `n` fits were given up.
pub open spec fn pruned_count<T: Number, M: Elementary<T>, P: CalibModel<T, M>>(
    m: M,
    quotes: Seq<CalibInput<T>>,
    starts: Seq<P>,
    n: int,
) -> int
    decreases n,
{
    if n <= 0 {
        0
    } else {
        pruned_count(m, quotes, starts, n - 1) + if restart(
            m,
            quotes,
            starts,
            n - 1,
        ).early_stopped {
            1int
        } else {
            0
        }
    }
}

/// The number of fits that are made when `n` are asked for.
pub open spec fn at_least_one(n: usize) -> int {
    if n == 0 {
        1
    } else {
        n as int
    }
}

/// The starts of several fits: the given one first, the others random, each from a stream of
/// its own, made from its seed.
pub open spec fn starts_spec<
    T: Number,
    M: Elementary<T>,
    P: RandomStart<T, M, S>,
    S: RandomSource<T>,
    F: Fn(u64) -> S,
>(m: M, make: F, seed: u64, p0: P, n: int) -> Seq<P> {
    Seq::new(
        n as nat,
        |i: int|
            if i == 0 {
                p0
            } else {
                P::random_guess_spec(m, made_by(make, chunk_seed_spec(seed, i as u64))).0
            },
    )
}

/// What several fits from the given starts amount to: the one with the least error, the
/// first of them if there are several.
pub open spec fn is_multistart<T: Number, M: Elementary<T>, P: CalibModel<T, M>>(
    m: M,
    quotes: Seq<CalibInput<T>>,
    starts: Seq<P>,
    res: MultistartResult<T, P>,
) -> bool {
    let n = starts.len() as int;
    let b = first_min(rmse_ranks(m, quotes, starts));
    &&& res.n_restarts == n
    &&& res.n_converged == converged_count(m, quotes, starts, n)
    &&& res.n_pruned == pruned_count(m, quotes, starts, n)
    &&& res.best.outcome() == restart(m, quotes, starts, b)
}

/// Fits from several starts, at least one: the given one, and random ones. The streams are
/// made by `make`, which is called on the seeds of the random starts and on nothing else.
pub fn calibrate_multistart<
    T: Number,
    M: Elementary<T>,
    P: RandomStart<T, M, S>,
    S: RandomSource<T>,
    F: Fn(u64) -> S,
>(
    m: M,
    quotes: &Vec<CalibInput<T>>,
    p0: P,
    n_restarts: usize,
    seed: u64,
    make: F,
) -> (res: MultistartResult<T, P>)
    requires
        lawful::<T, M>(m),
        steady::<T, S>(),
        steady_maker(make),
        quotes@.len() > 0,
        forall|i: u64|
            1 <= i < n_restarts ==> call_requires(make, (#[trigger] chunk_seed_spec(seed, i),)),
    ensures
        is_multistart(
            m,
            quotes@,
            starts_spec(m, make, seed, p0, at_least_one(n_restarts)),
            res,
        ),
{
    let n: usize = if n_restarts == 0 {
        1
    } else {
        n_restarts
    };
    let ghost qs = quotes@;
    let mut shared: Option<T> = Some(m.infinity());
    let mut results: Vec<CalibResult<T, P>> = Vec::new();
    let mut ranks: Vec<i64> = Vec::new();
    let mut n_converged: usize = 0;
    let mut n_pruned: usize = 0;
    let ghost starts = starts_spec(m, make, seed, p0, n as int);
    let mut i: usize = 0;
    while i < n
        invariant
            lawful::<T, M>(m),
            steady::<T, S>(),
            steady_maker(make),
            qs == quotes@,
            quotes@.len() > 0,
            n == (if n_restarts == 0 {
                1
            } else {
                n_restarts
            }),
            forall|i: u64|
                1 <= i < n_restarts
                    ==> call_requires(make, (#[trigger] chunk_seed_spec(seed, i),)),
            i <= n,
            results@.len() == i,
            ranks@.len() == i,
            n_converged <= i,
            n_pruned <= i,
            starts == starts_spec(m, make, seed, p0, n as int),
            shared == best_after(m, qs, starts, i as int),
            forall|k: int|
                0 <= k < i ==> (#[trigger] results@[k]).outcome() == restart(m, qs, starts, k),
            forall|k: int|
                0 <= k < i ==> (#[trigger] ranks@[k]) == rank_of(
                    m,
                    restart(m, qs, starts, k).rmse,
                ),
            n_converged == converged_count(m, qs, starts, i as int),
            n_pruned == pruned_count(m, qs, starts, i as int),
        decreases n - i,
    {
        let start = if i == 0 {
            p0
        } else {
            let (guess, _) = P::random_guess(m, make(chunk_seed(seed, i as u64)));
            guess
        };
        let r = calibrate_inner(m, quotes, start, &mut shared, None);
        proof {
            assert(r.outcome() == restart(m, qs, starts, i as int));
        }
        if r.converged {
            n_converged = n_converged + 1;
        }
        if r.early_stopped {
            n_pruned = n_pruned + 1;
        }
        ranks.push(m.rank(r.rmse));
        results.push(r);
        i = i + 1;
    }
    proof {
        assert(ranks@ =~= rmse_ranks(m, qs, starts));
    }
    let b: usize = find_first_min(&ranks);
    let best = results.swap_remove(b);
    MultistartResult { best, n_restarts: n, n_converged, n_pruned }
}

/// Fits of Heston's model from several starts.
pub fn calibrate_heston_multistart<
    T: Number,
    M: Elementary<T>,
    S: RandomSource<T>,
    F: Fn(u64) -> S,
>(
    m: M,
    quotes: &Vec<CalibInput<T>>,
    p0: HestonParams<T>,
    n_restarts: usize,
    seed: u64,
    make: F,
) -> (res: MultistartResult<T, HestonParams<T>>)
    requires
        lawful::<T, M>(m),
        steady::<T, S>(),
        steady_maker(make),
        quotes@.len() > 0,
        forall|i: u64|
            1 <= i < n_restarts ==> call_requires(make, (#[trigger] chunk_seed_spec(seed, i),)),
    ensures
        is_multistart(
            m,
            quotes@,
            starts_spec(m, make, seed, p0, at_least_one(n_restarts)),
            res,
        ),
{
    calibrate_multistart(m, quotes, p0, n_restarts, seed, make)
}

/// Fits of Bates's model from several starts.
pub fn calibrate_bates_multistart<
    T: Number,
    M: Elementary<T>,
    S: RandomSource<T>,
    F: Fn(u64) -> S,
>(
    m: M,
    quotes: &Vec<CalibInput<T>>,
    p0: BatesParams<T>,
    n_restarts: usize,
    seed: u64,
    make: F,
) -> (res: MultistartResult<T, BatesParams<T>>)
    requires
        lawful::<T, M>(m),
        steady::<T, S>(),
        steady_maker(make),
        quotes@.len() > 0,
        forall|i: u64|
            1 <= i < n_restarts ==> call_requires(make, (#[trigger] chunk_seed_spec(seed, i),)),
    ensures
        is_multistart(
            m,
            quotes@,
            starts_spec(m, make, seed, p0, at_least_one(n_restarts)),
            res,
        ),
{
    calibrate_multistart(m, quotes, p0, n_restarts, seed, make)
}

/// No fit among several ranks before the best; and where ranks follow the order of the numbers,
/// none has a smaller error.
pub proof fn law_multistart_best<T: Number, M: Elementary<T>, P: CalibModel<T, M>>(
    m: M,
    quotes: Seq<CalibInput<T>>,
    starts: Seq<P>,
    res: MultistartResult<T, P>,
    i: int,
)
    requires
        is_multistart(m, quotes, starts, res),
        0 <= i < starts.len(),
    ensures
        rank_of(m, res.best.rmse) <= rank_of(m, restart(m, quotes, starts, i).rmse),
        ranks_follow_order::<T, M>(m) ==> !restart(m, quotes, starts, i).rmse.is_lt(
            &res.best.rmse,
        ),
{
    let ranks = rmse_ranks(m, quotes, starts);
    law_first_min(ranks);
    assert(ranks[first_min(ranks)] <= ranks[i]);
    assert(res.best.rmse == res.best.outcome().rmse);
}

/// The weakest direction of a report belongs to an eigenvalue that is the smallest in magnitude:
/// none ranks before it; and where ranks follow the order of the numbers, none is smaller.
pub proof fn law_weakest_direction<T: Number, M: Elementary<T>>(m: M, eig: Seq<T>, i: int)
    requires
        0 <= i < eig.len(),
    ensures
        ({
            let w = first_min(magnitude_ranks(m, eig));
            &&& 0 <= w < eig.len()
            &&& rank_of(m, magnitude(eig[w])) <= rank_of(m, magnitude(eig[i]))
            &&& ranks_follow_order::<T, M>(m) ==> !magnitude(eig[i]).is_lt(&magnitude(eig[w]))
        }),
{
    let ranks = magnitude_ranks(m, eig);
    law_first_min(ranks);
    assert(ranks[first_min(ranks)] <= ranks[i]);
}

} // verus!
