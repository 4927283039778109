//! Contracts, model parameters and pricing results.
use crate::exact::{lemma_times_positive, times};
use crate::number::{frac, num, ratio, regular, whole, Number};
use vstd::prelude::*;
use vstd::std_specs::cmp::PartialOrdIs;
use vstd::std_specs::ops::{MulSpec, SubSpec};

verus! {

/// The right that an option gives: to buy or to sell.
#[derive(Debug, Clone, Copy, PartialEq, Eq, Structural)]
pub enum OptionType {
    Call,
    Put,
}

impl OptionType {
    /// Plus one for a call, minus one for a put.
    pub open spec fn sign_spec<T: Number>(self) -> T {
        match self {
            OptionType::Call => num::<T>(1),
            OptionType::Put => num::<T>(-1),
        }
    }

    /// Plus one for a call, minus one for a put.
    pub fn sign<T: Number>(&self) -> (r: T)
        requires
            regular::<T>(),
        ensures
            r == self.sign_spec::<T>(),
    {
        match self {
            OptionType::Call => whole(1),
            OptionType::Put => whole(-1),
        }
    }
}

/// A European option and the market it trades in. The rate and the dividend yield are
/// continuously compounded, the expiry is in years.
#[derive(Debug, Clone, Copy)]
pub struct OptionContract<T> {
    pub spot: T,
    pub strike: T,
    pub expiry: T,
    pub rate: T,
    pub div_yield: T,
    pub vol: T,
    pub opt_type: OptionType,
}

/// A price and its sensitivities.
#[derive(Debug, Clone, Copy, Default)]
pub struct PricingResult<T> {
    pub price: T,
    pub delta: T,
    pub gamma: T,
    pub vega: T,
    pub theta: T,
    pub rho: T,
    pub vanna: T,
    pub volga: T,
}

impl<T: Number> PricingResult<T> {
    /// A result whose fields are all zero: what a model that computes no sensitivities
    /// starts from.
    pub open spec fn zero_spec() -> PricingResult<T> {
        PricingResult {
            price: num::<T>(0),
            delta: num::<T>(0),
            gamma: num::<T>(0),
            vega: num::<T>(0),
            theta: num::<T>(0),
            rho: num::<T>(0),
            vanna: num::<T>(0),
            volga: num::<T>(0),
        }
    }

    /// A result whose fields are all zero.
    pub fn zero() -> (r: PricingResult<T>)
        requires
            regular::<T>(),
        ensures
            r == Self::zero_spec(),
    {
        let z = whole::<T>(0);
        PricingResult {
            price: z,
            delta: z,
            gamma: z,
            vega: z,
            theta: z,
            rho: z,
            vanna: z,
            volga: z,
        }
    }
}

/// An option whose volatility is to be found from its price. The volatility of the contract
/// is not read.
#[derive(Debug, Clone, Copy)]
pub struct IvProblem<T> {
    pub contract: OptionContract<T>,
    pub market_price: T,
}

/// The stochastic-variance model of Heston. `v0` and `theta` are variances.
#[derive(Debug, Clone, Copy)]
pub struct HestonParams<T> {
    pub v0: T,
    pub kappa: T,
    pub theta: T,
    pub sigma: T,
    pub rho: T,
}

impl<T: Number> HestonParams<T> {
    /// Twice the mean reversion times the long-run variance exceeds the square of the
    /// volatility of variance: the condition under which variance stays positive.
    pub open spec fn feller_ok_spec(self) -> bool {
        num::<T>(2).mul_spec(self.kappa).mul_spec(self.theta).is_gt(
            &self.sigma.mul_spec(self.sigma),
        )
    }

    /// Whether the condition of Feller holds.
    pub fn feller_ok(&self) -> (r: bool)
        requires
            regular::<T>(),
        ensures
            r == self.feller_ok_spec(),
    {
        whole::<T>(2) * self.kappa * self.theta > self.sigma * self.sigma
    }
}

/// The Heston model with lognormal jumps: `lambda` jumps a year, of mean `mu_j` and
/// deviation `sigma_j` in the logarithm.
#[derive(Debug, Clone, Copy)]
pub struct BatesParams<T> {
    pub heston: HestonParams<T>,
    pub lambda: T,
    pub mu_j: T,
    pub sigma_j: T,
}

/// The rough Bergomi model: the volatility of variance `eta`, the correlation of variance
/// and price, and the roughness, an exponent between zero and one half.
#[derive(Debug, Clone, Copy)]
pub struct RoughBergomiParams<T> {
    pub eta: T,
    pub rho: T,
    pub hurst: T,
}

impl<T: Number> RoughBergomiParams<T> {
    /// The exponent of the kernel: the roughness less one half.
    pub open spec fn alpha_spec(self) -> T {
        self.hurst.sub_spec(frac::<T>(1, 2))
    }

    /// The exponent of the kernel.
    pub fn alpha(&self) -> (r: T)
        requires
            regular::<T>(),
        ensures
            r == self.alpha_spec(),
    {
        self.hurst - ratio::<T>(1, 2)
    }
}

/// Forward variance as a function of time, constant up to the first expiry and between one
/// expiry and the next; beyond the last it stays as it is there.
#[derive(Debug)]
pub struct ForwardVarianceCurve<T> {
    pub expiries: Vec<T>,
    pub variances: Vec<T>,
}

/// The number of elements at the front of `s` that are less than `t`.
pub open spec fn count_before<T: Number>(s: Seq<T>, t: T) -> int
    decreases s.len(),
{
    if s.len() == 0 || !s[0].is_lt(&t) {
        0
    } else {
        1 + count_before(s.drop_first(), t)
    }
}

impl<T: Number> ForwardVarianceCurve<T> {
    /// There is one variance for each expiry, and at least one.
    pub open spec fn wf(self) -> bool {
        self.expiries@.len() == self.variances@.len() && self.expiries@.len() > 0
    }

    /// The variance at time `t`: that of the first expiry not before `t`.
    pub open spec fn at_spec(self, t: T) -> T {
        let i = count_before(self.expiries@, t);
        if i < self.variances@.len() {
            self.variances@[i]
        } else {
            self.variances@.last()
        }
    }

    /// The curve with the given expiries and variances.
    pub fn new(expiries: Vec<T>, variances: Vec<T>) -> (r: Self)
        requires
            expiries@.len() == variances@.len(),
            expiries@.len() > 0,
        ensures
            r.wf(),
            r.expiries == expiries,
            r.variances == variances,
    {
        ForwardVarianceCurve { expiries, variances }
    }

    /// The variance at time `t`.
    pub fn at(&self, t: T) -> (r: T)
        requires
            regular::<T>(),
            self.wf(),
        ensures
            r == self.at_spec(t),
    {
        let mut i: usize = 0;
        let n: usize = self.expiries.len();
        let ghost s = self.expiries@;
        proof {
            assert(s.skip(0) =~= s);
        }
        while i < n && self.expiries[i] < t
            invariant
                regular::<T>(),
                self.wf(),
                s == self.expiries@,
                n == s.len(),
                i <= n,
                count_before(s, t) == i + count_before(s.skip(i as int), t),
            decreases n - i,
        {
            proof {
                assert(s.skip(i as int)[0] == s[i as int]);
                assert(s.skip(i as int).drop_first() =~= s.skip(i + 1));
            }
            i = i + 1;
        }
        proof {
            if i < n {
                assert(s.skip(i as int)[0] == s[i as int]);
            }
        }
        if i < n {
            self.variances[i]
        } else {
            self.variances[n - 1]
        }
    }
}

/// Local volatilities on a grid of strikes and expiries, in one vector: strike by strike,
/// and within a strike expiry by expiry.
#[derive(Debug)]
pub struct LocalVolSurface<T> {
    pub strikes: Vec<T>,
    pub expiries: Vec<T>,
    pub local_vols: Vec<T>,
}

impl<T: Copy> LocalVolSurface<T> {
    /// There is one volatility for each pair of a strike and an expiry.
    pub open spec fn wf(self) -> bool {
        self.local_vols@.len() == self.strikes@.len() * self.expiries@.len()
    }

    /// The volatility at strike `i_k` and expiry `j_t`.
    pub open spec fn at(self, i_k: int, j_t: int) -> T {
        self.local_vols@[i_k * self.expiries@.len() + j_t]
    }

    /// The surface with the given axes and volatilities.
    pub fn new(strikes: Vec<T>, expiries: Vec<T>, local_vols: Vec<T>) -> (r: Self)
        requires
            local_vols@.len() == strikes@.len() * expiries@.len(),
        ensures
            r.wf(),
            r.strikes == strikes,
            r.expiries == expiries,
            r.local_vols == local_vols,
    {
        LocalVolSurface { strikes, expiries, local_vols }
    }

    /// The volatility at strike `i_k` and expiry `j_t`.
    pub fn get(&self, i_k: usize, j_t: usize) -> (r: T)
        requires
            self.wf(),
            i_k < self.strikes@.len(),
            j_t < self.expiries@.len(),
        ensures
            r == self.at(i_k as int, j_t as int),
    {
        proof {
            lemma_grid_index(
                i_k as int,
                j_t as int,
                self.strikes@.len() as int,
                self.expiries@.len() as int,
            );
            assert(self.local_vols.len() <= usize::MAX);
        }
        self.local_vols[i_k * self.expiries.len() + j_t]
    }
}

/// A cell of a grid with `n_k` rows of `n_t` cells lies within the grid's vector.
pub proof fn lemma_grid_index(i_k: int, j_t: int, n_k: int, n_t: int)
    requires
        0 <= i_k < n_k,
        0 <= j_t < n_t,
    ensures
        0 <= i_k * n_t,
        0 <= i_k * n_t + j_t < n_k * n_t,
{
    assert(0 <= i_k * n_t) by (nonlinear_arith)
        requires
            0 <= i_k,
            0 <= n_t,
    ;
    assert(i_k * n_t + n_t <= n_k * n_t) by (nonlinear_arith)
        requires
            i_k + 1 <= n_k,
            0 <= n_t,
    ;
}

/// Two cells of a grid share a place in the grid's vector only if they are the same cell.
pub proof fn lemma_grid_index_distinct(i1: int, j1: int, i2: int, j2: int, n_t: int)
    requires
        0 <= i1,
        0 <= i2,
        0 <= j1 < n_t,
        0 <= j2 < n_t,
        i1 * n_t + j1 == i2 * n_t + j2,
    ensures
        i1 == i2,
        j1 == j2,
{
    assert(i1 == i2) by (nonlinear_arith)
        requires
            0 <= i1,
            0 <= i2,
            0 <= j1 < n_t,
            0 <= j2 < n_t,
            i1 * n_t + j1 == i2 * n_t + j2,
    ;
}

/// `count_before` counts a prefix of the sequence.
proof fn lemma_count_before<T: Number>(s: Seq<T>, t: T)
    ensures
        0 <= count_before(s, t) <= s.len(),
    decreases s.len(),
{
    if s.len() > 0 && s[0].is_lt(&t) {
        lemma_count_before(s.drop_first(), t);
    }
}

/// Total variance up to the expiry before position `n`: each variance for as long as it lasts.
pub open spec fn total_variance<T>(
    v: spec_fn(T) -> real,
    curve: ForwardVarianceCurve<T>,
    n: int,
) -> real
    decreases n,
{
    if n <= 0 {
        0real
    } else {
        let before = if n == 1 {
            0real
        } else {
            v(curve.expiries@[n - 2])
        };
        total_variance(v, curve, n - 1) + times(
            v(curve.variances@[n - 1]),
            v(curve.expiries@[n - 1]) - before,
        )
    }
}

/// A curve of positive variances at ascending expiries is free of arbitrage: variance is
/// positive at every time, and total variance rises from each expiry to the next.
pub proof fn law_forward_variance_rises<T: Number>(
    v: spec_fn(T) -> real,
    curve: ForwardVarianceCurve<T>,
    t: T,
    n: int,
)
    requires
        curve.wf(),
        forall|i: int| 0 <= i < curve.variances@.len()
            ==> v(#[trigger] curve.variances@[i]) > 0real,
        v(curve.expiries@[0]) > 0real,
        forall|i: int, j: int|
            0 <= i < j < curve.expiries@.len() ==> v(#[trigger] curve.expiries@[i]) < v(
                #[trigger] curve.expiries@[j],
            ),
        0 <= n < curve.expiries@.len(),
    ensures
        v(curve.at_spec(t)) > 0real,
        total_variance(v, curve, n) < total_variance(v, curve, n + 1),
{
    lemma_count_before(curve.expiries@, t);
    let before = if n == 0 {
        0real
    } else {
        v(curve.expiries@[n - 1])
    };
    lemma_times_positive(v(curve.variances@[n]), v(curve.expiries@[n]) - before);
}

} // verus!
