//! Monte Carlo in the rough Bergomi model: the hybrid scheme, with the two cells next to the
//! kernel's singularity simulated exactly and a Riemann sum for the rest.
use crate::mc::{
    add_payoff, add_payoff_spec, box_muller, box_muller_spec, chunk_boundary, chunk_range,
    chunk_size, lemma_chunk_fits, merge, merge_spec, no_payoffs_spec, paths_per_pair,
    run_rbergomi_path, run_rbergomi_path_spec, summary, summary_spec, McConfig, McResult, Payoff,
    Tally,
};
use crate::number::{
    count_of, exp_of, frac, lawful, num, powf_of, ratio, regular, sqrt_of, sum, whole, Elementary,
    Number,
};
use crate::random::{chunk_seed, chunk_seed_spec, made_by, steady, steady_maker, RandomSource};
use crate::rbergomi::{
    cholesky_lower, cov_entry, factor, hybrid_scheme_covariance, optimal_eval_point,
    optimal_eval_point_spec, pivot_ok,
};
use crate::types::{ForwardVarianceCurve, RoughBergomiParams};
use core::ops::Neg;
use vstd::pervasive::unreached;
use vstd::prelude::*;
use vstd::std_specs::ops::{AddSpec, DivSpec, MulSpec, NegSpec, SubSpec};

verus! {

/// The normals of one step: three for the increment and its two weighted copies, one for
/// the part of the price that does not move with variance.
#[derive(Debug, Clone, Copy)]
pub struct RoughStep<T> {
    pub z0: T,
    pub z1: T,
    pub z2: T,
    pub zperp: T,
}

/// A model and a grid, ready for simulation: the length of a step, the exponent of the
/// kernel, the factor of the covariance of the exact part, row by row, the weights of the
/// rest, and at the start of each step forward variance and what the mean of the exponential
/// is compensated by.
#[derive(Debug)]
pub struct RoughSetup<T> {
    pub params: RoughBergomiParams<T>,
    pub dt: T,
    pub alpha: T,
    pub factor: Vec<T>,
    pub gamma: Vec<T>,
    pub forward: Vec<T>,
    pub compensator: Vec<T>,
}

/// What a setup holds, with sequences for vectors.
pub struct RoughGrid<T> {
    pub params: RoughBergomiParams<T>,
    pub dt: T,
    pub alpha: T,
    pub factor: Seq<T>,
    pub gamma: Seq<T>,
    pub forward: Seq<T>,
    pub compensator: Seq<T>,
}

impl<T> View for RoughSetup<T> {
    type V = RoughGrid<T>;

    open spec fn view(&self) -> RoughGrid<T> {
        RoughGrid {
            params: self.params,
            dt: self.dt,
            alpha: self.alpha,
            factor: self.factor@,
            gamma: self.gamma@,
            forward: self.forward@,
            compensator: self.compensator@,
        }
    }
}

/// The weight of the increment `k` steps back: zero for those that are simulated exactly.
pub open spec fn tail_weight<T: Number, M: Elementary<T>>(m: M, alpha: T, n: T, k: int) -> T {
    if k < 3 {
        num::<T>(0)
    } else {
        let b = optimal_eval_point_spec(m, alpha, k as usize);
        powf_of(m, b.div_spec(n), alpha)
    }
}

/// The weights of the increments up to `n_steps` steps back.
pub fn build_gamma<T: Number, M: Elementary<T>>(
    m: M,
    alpha: T,
    n_steps: usize,
    n: T,
) -> (res: Vec<T>)
    requires
        lawful::<T, M>(m),
    ensures
        res@ == Seq::new(n_steps as nat, |k: int| tail_weight(m, alpha, n, k)),
{
    let mut g: Vec<T> = Vec::new();
    while g.len() < n_steps
        invariant
            lawful::<T, M>(m),
            g@.len() <= n_steps,
            g@ =~= Seq::new(g@.len(), |k: int| tail_weight(m, alpha, n, k)),
        decreases n_steps - g@.len(),
    {
        let k: usize = g.len();
        if k < 3 {
            g.push(whole::<T>(0));
        } else {
            let b = optimal_eval_point(m, alpha, k);
            g.push(m.powf(b / n, alpha));
        }
    }
    g
}

/// The increment of a step and its copies weighted for one and two steps on, from the
/// normals of the step and the factor `l` of their covariance.
pub open spec fn increments_spec<T: Number>(
    l: Seq<T>,
    s: RoughStep<T>,
    antithetic: bool,
) -> (T, T, T) {
    let z0 = if antithetic {
        s.z0.neg_spec()
    } else {
        s.z0
    };
    let z1 = if antithetic {
        s.z1.neg_spec()
    } else {
        s.z1
    };
    let z2 = if antithetic {
        s.z2.neg_spec()
    } else {
        s.z2
    };
    (
        l[0].mul_spec(z0),
        l[3].mul_spec(z0).add_spec(l[4].mul_spec(z1)),
        l[6].mul_spec(z0).add_spec(l[7].mul_spec(z1)).add_spec(l[8].mul_spec(z2)),
    )
}

/// The increment of a step and its weighted copies.
pub fn increments<T: Number>(l: &Vec<T>, s: &RoughStep<T>, antithetic: bool) -> (res: (T, T, T))
    requires
        regular::<T>(),
        l@.len() == 9,
    ensures
        res == increments_spec(l@, *s, antithetic),
{
    let z0 = if antithetic {
        s.z0.neg()
    } else {
        s.z0
    };
    let z1 = if antithetic {
        s.z1.neg()
    } else {
        s.z1
    };
    let z2 = if antithetic {
        s.z2.neg()
    } else {
        s.z2
    };
    (l[0] * z0, l[3] * z0 + l[4] * z1, l[6] * z0 + l[7] * z1 + l[8] * z2)
}

/// What the increment `k + 3` steps back adds to the rough process after `i` steps.
pub open spec fn tail_term<T: Number>(
    gamma: Seq<T>,
    l: Seq<T>,
    steps: Seq<RoughStep<T>>,
    antithetic: bool,
    i: int,
) -> spec_fn(int) -> T {
    |k: int| gamma[k + 3].mul_spec(increments_spec(l, steps[i - 3 - k], antithetic).0)
}

/// The rough process after `i` steps, before its normalisation: the weighted copies from one
/// and two steps back, and the weighted increments from further back.
pub open spec fn rough_sum<T: Number>(
    gamma: Seq<T>,
    l: Seq<T>,
    steps: Seq<RoughStep<T>>,
    antithetic: bool,
    i: int,
) -> T {
    let near1 = if i >= 1 {
        increments_spec(l, steps[i - 1], antithetic).1
    } else {
        num::<T>(0)
    };
    let near2 = if i >= 2 {
        increments_spec(l, steps[i - 2], antithetic).2
    } else {
        num::<T>(0)
    };
    let far = sum(tail_term(gamma, l, steps, antithetic, i), i - 2);
    near1.add_spec(near2).add_spec(far)
}

/// What the exponent of variance is compensated by at time `t`, so that its mean is forward
/// variance.
pub open spec fn compensation_spec<T: Number, M: Elementary<T>>(m: M, eta: T, alpha: T, t: T) -> T {
    frac::<T>(1, 2).mul_spec(eta).mul_spec(eta).mul_spec(
        powf_of(m, t, num::<T>(2).mul_spec(alpha).add_spec(num::<T>(1))),
    )
}

/// What the exponent of variance is compensated by at time `t`, so that its mean is forward
/// variance.
pub fn compensation<T: Number, M: Elementary<T>>(m: M, eta: T, alpha: T, t: T) -> (res: T)
    requires
        lawful::<T, M>(m),
    ensures
        res == compensation_spec(m, eta, alpha, t),
{
    ratio::<T>(1, 2) * eta * eta * m.powf(t, whole::<T>(2) * alpha + whole::<T>(1))
}

/// Variance where forward variance is `xi` and the normalised rough process is `root` times
/// `y`.
pub open spec fn rough_variance_spec<T: Number, M: Elementary<T>>(
    m: M,
    xi: T,
    eta: T,
    root: T,
    y: T,
    comp: T,
) -> T {
    xi.mul_spec(exp_of(m, eta.mul_spec(root.mul_spec(y)).sub_spec(comp)))
}

/// Variance where forward variance is `xi` and the normalised rough process is `root` times
/// `y`.
pub fn rough_variance<T: Number, M: Elementary<T>>(
    m: M,
    xi: T,
    eta: T,
    root: T,
    y: T,
    comp: T,
) -> (res: T)
    requires
        lawful::<T, M>(m),
    ensures
        res == rough_variance_spec(m, xi, eta, root, y, comp),
{
    xi * m.exp(eta * (root * y) - comp)
}

/// Variance at the start of step `i`.
pub open spec fn variance_at<T: Number, M: Elementary<T>>(
    m: M,
    setup: RoughGrid<T>,
    steps: Seq<RoughStep<T>>,
    antithetic: bool,
    i: int,
) -> T {
    let alpha = setup.alpha;
    rough_variance_spec(
        m,
        setup.forward[i],
        setup.params.eta,
        sqrt_of(m, num::<T>(2).mul_spec(alpha).add_spec(num::<T>(1))),
        rough_sum(setup.gamma, setup.factor, steps, antithetic, i),
        setup.compensator[i],
    )
}

/// The shock to the price in step `i`: partly the increment that moves variance, partly one
/// of its own.
pub open spec fn price_shock<T: Number, M: Elementary<T>>(
    m: M,
    setup: RoughGrid<T>,
    steps: Seq<RoughStep<T>>,
    antithetic: bool,
    i: int,
) -> T {
    let rho = setup.params.rho;
    let dt = setup.dt;
    let own = if antithetic {
        steps[i].zperp.neg_spec()
    } else {
        steps[i].zperp
    };
    let w = increments_spec(setup.factor, steps[i], antithetic).0;
    rho.mul_spec(w).add_spec(
        sqrt_of(m, num::<T>(1).sub_spec(rho.mul_spec(rho))).mul_spec(sqrt_of(m, dt)).mul_spec(own),
    )
}

/// The variances and the price shocks of a path through the given steps.
pub fn simulate_variance_and_dz<T: Number, M: Elementary<T>>(
    m: M,
    setup: &RoughSetup<T>,
    steps: &Vec<RoughStep<T>>,
    antithetic: bool,
) -> (res: (Vec<T>, Vec<T>))
    requires
        lawful::<T, M>(m),
        setup.factor@.len() == 9,
        setup.gamma@.len() >= steps@.len(),
        setup.forward@.len() >= steps@.len(),
        setup.compensator@.len() >= steps@.len(),
    ensures
        res.0@ == Seq::new(
            steps@.len(),
            |i: int| variance_at(m, setup@, steps@, antithetic, i),
        ),
        res.1@ == Seq::new(steps@.len(), |i: int| price_shock(m, setup@, steps@, antithetic, i)),
{
    let n: usize = steps.len();
    let alpha = setup.alpha;
    let root = m.sqrt(whole::<T>(2) * alpha + whole::<T>(1));
    let rho = setup.params.rho;
    let dt = setup.dt;
    let side = m.sqrt(whole::<T>(1) - rho * rho) * m.sqrt(dt);
    let mut w: Vec<(T, T, T)> = Vec::new();
    while w.len() < n
        invariant
            lawful::<T, M>(m),
            setup.factor@.len() == 9,
            n == steps@.len(),
            w@.len() <= n,
            forall|k: int|
                0 <= k < w@.len() ==> (#[trigger] w@[k]) == increments_spec(
                    setup.factor@,
                    steps@[k],
                    antithetic,
                ),
        decreases n - w@.len(),
    {
        let x = increments(&setup.factor, &steps[w.len()], antithetic);
        w.push(x);
    }
    let mut v: Vec<T> = Vec::new();
    let mut dz: Vec<T> = Vec::new();
    let mut i: usize = 0;
    while i < n
        invariant
            lawful::<T, M>(m),
            setup.gamma@.len() >= n,
            setup.forward@.len() >= n,
            setup.compensator@.len() >= n,
            n == steps@.len(),
            alpha == setup.alpha,
            root == sqrt_of(m, num::<T>(2).mul_spec(alpha).add_spec(num::<T>(1))),
            rho == setup.params.rho,
            dt == setup.dt,
            side == sqrt_of(m, num::<T>(1).sub_spec(rho.mul_spec(rho))).mul_spec(sqrt_of(m, dt)),
            w@.len() == n,
            forall|k: int|
                0 <= k < n ==> (#[trigger] w@[k]) == increments_spec(
                    setup.factor@,
                    steps@[k],
                    antithetic,
                ),
            i <= n,
            v@ =~= Seq::new(
                i as nat,
                |k: int| variance_at(m, setup@, steps@, antithetic, k),
            ),
            dz@ =~= Seq::new(i as nat, |k: int| price_shock(m, setup@, steps@, antithetic, k)),
        decreases n - i,
    {
        let near1 = if i >= 1 {
            w[i - 1].1
        } else {
            whole::<T>(0)
        };
        let near2 = if i >= 2 {
            w[i - 2].2
        } else {
            whole::<T>(0)
        };
        let ghost f = tail_term(setup.gamma@, setup.factor@, steps@, antithetic, i as int);
        let mut far = whole::<T>(0);
        let mut k: usize = 3;
        while k <= i
            invariant
                lawful::<T, M>(m),
                setup.gamma@.len() >= n,
                n == steps@.len(),
                i < n,
                3 <= k,
                k <= i + 1 || k == 3,
                w@.len() == n,
                forall|k: int|
                    0 <= k < n ==> (#[trigger] w@[k]) == increments_spec(
                        setup.factor@,
                        steps@[k],
                        antithetic,
                    ),
                f == tail_term(setup.gamma@, setup.factor@, steps@, antithetic, i as int),
                far == sum(f, k - 3),
            decreases i + 1 - k,
        {
            far = far + setup.gamma[k] * w[i - k].0;
            k = k + 1;
        }
        let y = near1 + near2 + far;
        let x = rough_variance(
            m,
            setup.forward[i],
            setup.params.eta,
            root,
            y,
            setup.compensator[i],
        );
        v.push(x);
        let own = if antithetic {
            steps[i].zperp.neg()
        } else {
            steps[i].zperp
        };
        dz.push(rho * w[i].0 + side * own);
        i = i + 1;
    }
    (v, dz)
}

/// The normals of a path of `n` steps, two pairs for each of them, and the rest of the stream.
pub open spec fn draw_rbergomi_path_spec<T: Number, M: Elementary<T>, S: RandomSource<T>>(
    m: M,
    src: S,
    n: int,
) -> (Seq<RoughStep<T>>, S)
    decreases n,
{
    if n <= 0 {
        (Seq::empty(), src)
    } else {
        let (steps, s1) = draw_rbergomi_path_spec(m, src, n - 1);
        let ((z0, z1), s2) = box_muller_spec(m, s1);
        let ((z2, zperp), s3) = box_muller_spec(m, s2);
        (steps.push(RoughStep { z0, z1, z2, zperp }), s3)
    }
}

/// The normals of a path, and the rest of the stream.
pub fn draw_rbergomi_path<T: Number, M: Elementary<T>, S: RandomSource<T>>(
    m: M,
    src: S,
    n_steps: usize,
) -> (res: (Vec<RoughStep<T>>, S))
    requires
        lawful::<T, M>(m),
        steady::<T, S>(),
    ensures
        res.0@.len() == n_steps,
        (res.0@, res.1) == draw_rbergomi_path_spec(m, src, n_steps as int),
{
    let mut rest = src;
    let mut steps: Vec<RoughStep<T>> = Vec::new();
    while steps.len() < n_steps
        invariant
            lawful::<T, M>(m),
            steady::<T, S>(),
            steps@.len() <= n_steps,
            (steps@, rest) == draw_rbergomi_path_spec(m, src, steps@.len() as int),
        decreases n_steps - steps@.len(),
    {
        let ((z0, z1), left) = box_muller(m, rest);
        let ((z2, zperp), left) = box_muller(m, left);
        rest = left;
        steps.push(RoughStep { z0, z1, z2, zperp });
    }
    (steps, rest)
}

/// What a path through the given steps is worth today.
pub open spec fn rough_payoff<T: Number, M: Elementary<T>>(
    m: M,
    setup: RoughGrid<T>,
    spot: T,
    drift0: T,
    steps: Seq<RoughStep<T>>,
    antithetic: bool,
    payoff: Payoff<T>,
    rate: T,
    expiry: T,
) -> T {
    let v = Seq::new(
        steps.len(),
        |i: int| variance_at(m, setup, steps, antithetic, i),
    );
    let dz = Seq::new(steps.len(), |i: int| price_shock(m, setup, steps, antithetic, i));
    run_rbergomi_path_spec(m, spot, drift0, v, dz, setup.dt, payoff, rate, expiry)
}

/// The tally with the payoffs of one set of normals: that of the path, and where paths come
/// in antithetic pairs that of its sibling.
pub open spec fn add_rough_pair<T: Number, M: Elementary<T>>(
    m: M,
    t: Tally<T>,
    setup: RoughGrid<T>,
    spot: T,
    drift0: T,
    steps: Seq<RoughStep<T>>,
    antithetic: bool,
    payoff: Payoff<T>,
    rate: T,
    expiry: T,
) -> Tally<T> {
    let t1 = add_payoff_spec(
        t,
        rough_payoff(m, setup, spot, drift0, steps, false, payoff, rate, expiry),
    );
    if antithetic {
        add_payoff_spec(
            t1,
            rough_payoff(m, setup, spot, drift0, steps, true, payoff, rate, expiry),
        )
    } else {
        t1
    }
}

/// The tally of `n` sets of normals from one stream, and the rest of the stream.
pub open spec fn rough_chunk_spec<T: Number, M: Elementary<T>, S: RandomSource<T>>(
    m: M,
    src: S,
    setup: RoughGrid<T>,
    spot: T,
    drift0: T,
    payoff: Payoff<T>,
    rate: T,
    expiry: T,
    n: int,
    n_steps: int,
    antithetic: bool,
) -> (Tally<T>, S)
    decreases n,
{
    if n <= 0 {
        (no_payoffs_spec(), src)
    } else {
        let (t, s1) = rough_chunk_spec(
            m,
            src,
            setup,
            spot,
            drift0,
            payoff,
            rate,
            expiry,
            n - 1,
            n_steps,
            antithetic,
        );
        let (steps, s2) = draw_rbergomi_path_spec(m, s1, n_steps);
        (add_rough_pair(m, t, setup, spot, drift0, steps, antithetic, payoff, rate, expiry), s2)
    }
}

/// The tally of `n` sets of normals from one stream, and the rest of the stream.
pub fn rough_chunk<T: Number, M: Elementary<T>, S: RandomSource<T>>(
    m: M,
    src: S,
    setup: &RoughSetup<T>,
    spot: T,
    drift0: T,
    payoff: &Payoff<T>,
    rate: T,
    expiry: T,
    n: usize,
    n_steps: usize,
    antithetic: bool,
) -> (res: (Tally<T>, S))
    requires
        lawful::<T, M>(m),
        steady::<T, S>(),
        setup.factor@.len() == 9,
        setup.gamma@.len() >= n_steps,
        setup.forward@.len() >= n_steps,
        setup.compensator@.len() >= n_steps,
        n * paths_per_pair(antithetic) <= usize::MAX,
    ensures
        res.0.count == n * paths_per_pair(antithetic),
        res == rough_chunk_spec(
            m,
            src,
            setup@,
            spot,
            drift0,
            *payoff,
            rate,
            expiry,
            n as int,
            n_steps as int,
            antithetic,
        ),
{
    let mut t = Tally { sum: whole::<T>(0), sum_sq: whole::<T>(0), count: 0 };
    let mut i: usize = 0;
    let mut rest = src;
    while i < n
        invariant
            lawful::<T, M>(m),
            steady::<T, S>(),
            setup.factor@.len() == 9,
            setup.gamma@.len() >= n_steps,
            setup.forward@.len() >= n_steps,
            setup.compensator@.len() >= n_steps,
            n * paths_per_pair(antithetic) <= usize::MAX,
            i <= n,
            t.count == i * paths_per_pair(antithetic),
            (t, rest) == rough_chunk_spec(
                m,
                src,
                setup@,
                spot,
                drift0,
                *payoff,
                rate,
                expiry,
                i as int,
                n_steps as int,
                antithetic,
            ),
        decreases n - i,
    {
        proof {
            assert(i * paths_per_pair(antithetic) + paths_per_pair(antithetic) == (i + 1)
                * paths_per_pair(antithetic)) by (nonlinear_arith);
            assert((i + 1) * paths_per_pair(antithetic) <= n * paths_per_pair(antithetic))
                by (nonlinear_arith)
                requires
                    i + 1 <= n,
                    0 <= paths_per_pair(antithetic),
            ;
        }
        let (steps, left) = draw_rbergomi_path(m, rest, n_steps);
        rest = left;
        let (v, dz) = simulate_variance_and_dz(m, setup, &steps, false);
        let x = run_rbergomi_path(m, spot, drift0, &v, &dz, setup.dt, payoff, rate, expiry);
        proof {
            assert(x == rough_payoff(
                m,
                setup@,
                spot,
                drift0,
                steps@,
                false,
                *payoff,
                rate,
                expiry,
            ));
        }
        t = add_payoff(t, x);
        if antithetic {
            let (v2, dz2) = simulate_variance_and_dz(m, setup, &steps, true);
            let y = run_rbergomi_path(m, spot, drift0, &v2, &dz2, setup.dt, payoff, rate, expiry);
            proof {
                assert(y == rough_payoff(
                    m,
                    setup@,
                    spot,
                    drift0,
                    steps@,
                    true,
                    *payoff,
                    rate,
                    expiry,
                ));
            }
            t = add_payoff(t, y);
        }
        i = i + 1;
    }
    (t, rest)
}

/// The covariance of an increment and its two weighted copies, row by row, where a unit of
/// time has `n` steps.
pub open spec fn hybrid_matrix<T: Number, M: Elementary<T>>(m: M, alpha: T, n: T) -> Seq<T> {
    seq![
        cov_entry(m, alpha, n, 0, 0),
        cov_entry(m, alpha, n, 0, 1),
        cov_entry(m, alpha, n, 0, 2),
        cov_entry(m, alpha, n, 1, 0),
        cov_entry(m, alpha, n, 1, 1),
        cov_entry(m, alpha, n, 1, 2),
        cov_entry(m, alpha, n, 2, 0),
        cov_entry(m, alpha, n, 2, 1),
        cov_entry(m, alpha, n, 2, 2),
    ]
}

/// The covariance has a factor: its pivots are positive.
pub open spec fn is_simulable<T: Number, M: Elementary<T>>(
    m: M,
    params: RoughBergomiParams<T>,
    expiry: T,
    n_steps: usize,
) -> bool {
    let dt = expiry.div_spec(count_of(m, n_steps));
    let a = hybrid_matrix(m, params.alpha_spec(), num::<T>(1).div_spec(dt));
    forall|i: int| 0 <= i < 3 ==> #[trigger] pivot_ok(m, a, 3, i)
}

/// A model and a grid, ready for simulation.
pub open spec fn rough_setup_spec<T: Number, M: Elementary<T>>(
    m: M,
    params: RoughBergomiParams<T>,
    curve: ForwardVarianceCurve<T>,
    expiry: T,
    n_steps: usize,
) -> RoughGrid<T> {
    let dt = expiry.div_spec(count_of(m, n_steps));
    let n = num::<T>(1).div_spec(dt);
    let alpha = params.alpha_spec();
    RoughGrid {
        params,
        dt,
        alpha,
        factor: Seq::new(9, |k: int| factor(m, hybrid_matrix(m, alpha, n), 3, k / 3, k % 3)),
        gamma: Seq::new(n_steps as nat, |k: int| tail_weight(m, alpha, n, k)),
        forward: Seq::new(
            n_steps as nat,
            |i: int| curve.at_spec(count_of::<T, M>(m, i as usize).mul_spec(dt)),
        ),
        compensator: Seq::new(
            n_steps as nat,
            |i: int|
                compensation_spec(
                    m,
                    params.eta,
                    alpha,
                    count_of::<T, M>(m, i as usize).mul_spec(dt),
                ),
        ),
    }
}

/// A model and a grid made ready for simulation; `None` if and only if the covariance of the
/// exact part has no factor.
pub fn rough_setup<T: Number, M: Elementary<T>>(
    m: M,
    params: &RoughBergomiParams<T>,
    curve: &ForwardVarianceCurve<T>,
    expiry: T,
    n_steps: usize,
) -> (res: Option<RoughSetup<T>>)
    requires
        lawful::<T, M>(m),
        curve.wf(),
    ensures
        res is Some <==> is_simulable(m, *params, expiry, n_steps),
        res matches Some(setup) ==> setup@ == rough_setup_spec(
            m,
            *params,
            *curve,
            expiry,
            n_steps,
        ),
{
    let dt = expiry / m.count(n_steps);
    let n = whole::<T>(1) / dt;
    let alpha = params.alpha();
    let sigma = hybrid_scheme_covariance(m, alpha, 2, n);
    let ghost a = hybrid_matrix(m, alpha, n);
    proof {
        assert forall|k: int| 0 <= k < 9 implies (#[trigger] sigma@[k]) == a[k] by {
            let (i, j) = (k / 3, k % 3);
            assert(sigma@[i * (2 + 1) + j] == cov_entry(m, alpha, n, i, j));
        }
        assert(sigma@ =~= a);
    }
    match cholesky_lower(m, &sigma, 3) {
        None => None,
        Some(l) => {
            proof {
                assert forall|k: int| 0 <= k < 9 implies (#[trigger] l@[k]) == factor(
                    m,
                    a,
                    3,
                    k / 3,
                    k % 3,
                ) by {
                    assert(l@[(k / 3) * 3 + k % 3] == factor(m, a, 3, k / 3, k % 3));
                }
                assert(l@ =~= Seq::new(9, |k: int| factor(m, a, 3, k / 3, k % 3)));
            }
            let gamma = build_gamma(m, alpha, n_steps, n);
            let mut forward: Vec<T> = Vec::new();
            let mut compensator: Vec<T> = Vec::new();
            while forward.len() < n_steps
                invariant
                    lawful::<T, M>(m),
                    curve.wf(),
                    forward@.len() <= n_steps,
                    forward@ =~= Seq::new(
                        forward@.len(),
                        |i: int| curve.at_spec(count_of::<T, M>(m, i as usize).mul_spec(dt)),
                    ),
                    compensator@ =~= Seq::new(
                        forward@.len(),
                        |i: int|
                            compensation_spec(
                                m,
                                params.eta,
                                alpha,
                                count_of::<T, M>(m, i as usize).mul_spec(dt),
                            ),
                    ),
                decreases n_steps - forward@.len(),
            {
                let t = m.count(forward.len()) * dt;
                compensator.push(compensation(m, params.eta, alpha, t));
                forward.push(curve.at(t));
            }
            Some(
                RoughSetup { params: *params, dt, alpha, factor: l, gamma, forward, compensator },
            )
        },
    }
}

/// The tallies of the first `n` chunks together. Each chunk has a stream of its own, made
/// from its seed.
pub open spec fn rough_total<T: Number, M: Elementary<T>, S: RandomSource<T>, F: Fn(u64) -> S>(
    m: M,
    make: F,
    setup: RoughGrid<T>,
    spot: T,
    drift0: T,
    payoff: Payoff<T>,
    rate: T,
    expiry: T,
    cfg: McConfig,
    n_chunks: int,
    n: int,
) -> Tally<T>
    decreases n,
{
    if n <= 0 {
        no_payoffs_spec()
    } else {
        let n_pairs = cfg.n_paths as int / paths_per_pair(cfg.antithetic);
        merge_spec(
            rough_total(
                m,
                make,
                setup,
                spot,
                drift0,
                payoff,
                rate,
                expiry,
                cfg,
                n_chunks,
                n - 1,
            ),
            rough_chunk_spec(
                m,
                made_by(make, chunk_seed_spec(cfg.seed, (n - 1) as u64)),
                setup,
                spot,
                drift0,
                payoff,
                rate,
                expiry,
                chunk_boundary(n_pairs, n_chunks, n) - chunk_boundary(n_pairs, n_chunks, n - 1),
                cfg.n_steps as int,
                cfg.antithetic,
            ).0,
        )
    }
}

/// The estimate from all chunks of a simulation: the mean and the standard error of their
/// payoffs.
pub open spec fn rough_estimate<T: Number, M: Elementary<T>, S: RandomSource<T>, F: Fn(u64) -> S>(
    m: M,
    make: F,
    setup: RoughGrid<T>,
    spot: T,
    drift0: T,
    payoff: Payoff<T>,
    rate: T,
    expiry: T,
    cfg: McConfig,
    n_chunks: int,
) -> McResult<T> {
    summary_spec(
        m,
        rough_total(
            m,
            make,
            setup,
            spot,
            drift0,
            payoff,
            rate,
            expiry,
            cfg,
            n_chunks,
            n_chunks,
        ),
    )
}

/// The estimate of a payoff in the rough Bergomi model: the logarithm of the price drifts at the
/// rate less the dividend yield.
pub open spec fn rough_price_spec<
    T: Number,
    M: Elementary<T>,
    S: RandomSource<T>,
    F: Fn(u64) -> S,
>(
    m: M,
    make: F,
    spot: T,
    expiry: T,
    rate: T,
    div_yield: T,
    params: RoughBergomiParams<T>,
    curve: ForwardVarianceCurve<T>,
    payoff: Payoff<T>,
    cfg: McConfig,
    n_chunks: int,
) -> McResult<T> {
    rough_estimate(
        m,
        make,
        rough_setup_spec(m, params, curve, expiry, cfg.n_steps),
        spot,
        rate.sub_spec(div_yield),
        payoff,
        rate,
        expiry,
        cfg,
        n_chunks,
    )
}

/// The simulation of a payoff in the rough Bergomi model, in the given number of chunks. The
/// streams are made by `make`, which is called on the seeds of the chunks and on nothing
/// else.
pub fn mc_rough_bergomi<T: Number, M: Elementary<T>, S: RandomSource<T>, F: Fn(u64) -> S>(
    m: M,
    make: F,
    spot: T,
    expiry: T,
    rate: T,
    div_yield: T,
    params: &RoughBergomiParams<T>,
    curve: &ForwardVarianceCurve<T>,
    payoff: Payoff<T>,
    cfg: &McConfig,
    n_chunks: usize,
) -> (res: McResult<T>)
    requires
        lawful::<T, M>(m),
        steady::<T, S>(),
        steady_maker(make),
        curve.wf(),
        is_simulable(m, *params, expiry, cfg.n_steps),
        n_chunks > 0,
        forall|i: u64| i < n_chunks
            ==> call_requires(make, (#[trigger] chunk_seed_spec(cfg.seed, i),)),
    ensures
        res == rough_price_spec(
            m,
            make,
            spot,
            expiry,
            rate,
            div_yield,
            *params,
            *curve,
            payoff,
            *cfg,
            n_chunks as int,
        ),
{
    let drift0 = rate - div_yield;
    let setup = match rough_setup(m, params, curve, expiry, cfg.n_steps) {
        Some(s) => s,
        None => unreached(),
    };
    let per_pair: usize = if cfg.antithetic {
        2
    } else {
        1
    };
    let n_pairs: usize = cfg.n_paths / per_pair;
    proof {
        assert(n_pairs * per_pair <= cfg.n_paths) by (nonlinear_arith)
            requires
                n_pairs == cfg.n_paths / per_pair,
                per_pair > 0,
        ;
        assert(chunk_boundary(n_pairs as int, n_chunks as int, 0) == 0) by {
            assert(0 * chunk_size(n_pairs as int, n_chunks as int) == 0);
        }
    }
    let mut total = Tally { sum: whole::<T>(0), sum_sq: whole::<T>(0), count: 0 };
    let mut i: usize = 0;
    while i < n_chunks
        invariant
            lawful::<T, M>(m),
            steady::<T, S>(),
            steady_maker(make),
            setup.factor@.len() == 9,
            setup.gamma@.len() == cfg.n_steps,
            setup.forward@.len() == cfg.n_steps,
            setup.compensator@.len() == cfg.n_steps,
            forall|i: u64|
                i < n_chunks ==> call_requires(make, (#[trigger] chunk_seed_spec(cfg.seed, i),)),
            per_pair == paths_per_pair(cfg.antithetic),
            n_pairs == cfg.n_paths as int / paths_per_pair(cfg.antithetic),
            n_pairs * per_pair <= usize::MAX,
            i <= n_chunks,
            total.count == chunk_boundary(n_pairs as int, n_chunks as int, i as int) * per_pair,
            total == rough_total(
                m,
                make,
                setup@,
                spot,
                drift0,
                payoff,
                rate,
                expiry,
                *cfg,
                n_chunks as int,
                i as int,
            ),
        decreases n_chunks - i,
    {
        let (start, end) = chunk_range(n_pairs, n_chunks, i);
        let src = make(chunk_seed(cfg.seed, i as u64));
        proof {
            lemma_chunk_fits(*cfg, n_chunks as int, i + 1);
        }
        let (t, _) = rough_chunk(
            m,
            src,
            &setup,
            spot,
            drift0,
            &payoff,
            rate,
            expiry,
            end - start,
            cfg.n_steps,
            cfg.antithetic,
        );
        total = merge(total, t);
        i = i + 1;
    }
    summary(m, total)
}

/// Every path is counted: the tally of all chunks has as many payoffs as the configuration
/// asks for, less one where paths come in pairs and the number is odd.
pub proof fn law_every_rough_path_counts<
    T: Number,
    M: Elementary<T>,
    S: RandomSource<T>,
    F: Fn(u64) -> S,
>(
    m: M,
    make: F,
    setup: RoughGrid<T>,
    spot: T,
    drift0: T,
    payoff: Payoff<T>,
    rate: T,
    expiry: T,
    cfg: McConfig,
    n_chunks: usize,
)
    requires
        n_chunks > 0,
    ensures
        rough_total(
            m,
            make,
            setup,
            spot,
            drift0,
            payoff,
            rate,
            expiry,
            cfg,
            n_chunks as int,
            n_chunks as int,
        ).count == cfg.n_paths - (if cfg.antithetic {
            cfg.n_paths as int % 2
        } else {
            0
        }),
{
    let per_pair = paths_per_pair(cfg.antithetic);
    let n_pairs = cfg.n_paths as int / per_pair;
    lemma_rough_total_count(
        m,
        make,
        setup,
        spot,
        drift0,
        payoff,
        rate,
        expiry,
        cfg,
        n_chunks as int,
        n_chunks as int,
    );
    assert(chunk_boundary(n_pairs, n_chunks as int, n_chunks as int) == n_pairs);
}

/// The tally of a chunk has as many payoffs as paths were drawn.
proof fn lemma_rough_chunk_count<T: Number, M: Elementary<T>, S: RandomSource<T>>(
    m: M,
    src: S,
    setup: RoughGrid<T>,
    spot: T,
    drift0: T,
    payoff: Payoff<T>,
    rate: T,
    expiry: T,
    n: int,
    n_steps: int,
    antithetic: bool,
)
    requires
        0 <= n,
        n * paths_per_pair(antithetic) <= usize::MAX,
    ensures
        rough_chunk_spec(
            m,
            src,
            setup,
            spot,
            drift0,
            payoff,
            rate,
            expiry,
            n,
            n_steps,
            antithetic,
        ).0.count == n * paths_per_pair(antithetic),
    decreases n,
{
    if n > 0 {
        let per_pair = paths_per_pair(antithetic);
        assert((n - 1) * per_pair + per_pair == n * per_pair) by (nonlinear_arith);
        lemma_rough_chunk_count(
            m,
            src,
            setup,
            spot,
            drift0,
            payoff,
            rate,
            expiry,
            n - 1,
            n_steps,
            antithetic,
        );
    }
}

/// The tally of the first chunks has as many payoffs as they have paths.
proof fn lemma_rough_total_count<
    T: Number,
    M: Elementary<T>,
    S: RandomSource<T>,
    F: Fn(u64) -> S,
>(
    m: M,
    make: F,
    setup: RoughGrid<T>,
    spot: T,
    drift0: T,
    payoff: Payoff<T>,
    rate: T,
    expiry: T,
    cfg: McConfig,
    n_chunks: int,
    n: int,
)
    requires
        0 <= n <= n_chunks,
        0 < n_chunks,
    ensures
        rough_total(
            m,
            make,
            setup,
            spot,
            drift0,
            payoff,
            rate,
            expiry,
            cfg,
            n_chunks,
            n,
        ).count == chunk_boundary(
            cfg.n_paths as int / paths_per_pair(cfg.antithetic),
            n_chunks,
            n,
        ) * paths_per_pair(cfg.antithetic),
    decreases n,
{
    let per_pair = paths_per_pair(cfg.antithetic);
    let n_pairs = cfg.n_paths as int / per_pair;
    if n > 0 {
        lemma_rough_total_count(
            m,
            make,
            setup,
            spot,
            drift0,
            payoff,
            rate,
            expiry,
            cfg,
            n_chunks,
            n - 1,
        );
        lemma_chunk_fits(cfg, n_chunks, n);
        lemma_rough_chunk_count(
            m,
            made_by(make, chunk_seed_spec(cfg.seed, (n - 1) as u64)),
            setup,
            spot,
            drift0,
            payoff,
            rate,
            expiry,
            chunk_boundary(n_pairs, n_chunks, n) - chunk_boundary(n_pairs, n_chunks, n - 1),
            cfg.n_steps as int,
            cfg.antithetic,
        );
    } else {
        assert(0 * chunk_size(n_pairs, n_chunks) == 0);
    }
}

} // verus!
