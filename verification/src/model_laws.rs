//! What the models ask of their parameters: which may be used, which ranges are searched and
//! drawn from, and what counts as a typical distance from a prior.
use crate::calibration::prior_distances;
use crate::exact::{
    decimal_exact, exact, lemma_fraction, lemma_literal, lemma_multiple, lemma_times_not_negative,
    power_of_ten, sqrt_exact, times,
};
use crate::model::{
    bates_bounds_ok_spec, heston_bounds_ok_spec, sigma_cap_spec, CalibModel, RandomStart,
};
use crate::number::{decimal_of, frac, magnitude, num, sqrt_of, Elementary, Number};
use crate::random::{within_of, RandomSource};
use crate::types::{BatesParams, HestonParams};
use vstd::prelude::*;
use vstd::std_specs::convert::FromSpec;
use vstd::std_specs::ops::MulSpec;

verus! {

/// The decimals that bound the parameters from below.
proof fn lemma_floors<T: Number, M: Elementary<T>>(m: M, v: spec_fn(T) -> real)
    requires
        decimal_exact(m, v),
    ensures
        100000000real * v(decimal_of::<T, M>(m, 1, -8)) == 1real,
        1000000real * v(decimal_of::<T, M>(m, 1, -6)) == 1real,
{
    let (a, b) = (v(decimal_of::<T, M>(m, 1, -8)), v(decimal_of::<T, M>(m, 1, -6)));
    reveal_with_fuel(power_of_ten, 9);
    assert(power_of_ten(8) == 100000000real);
    assert(power_of_ten(6) == 1000000real);
    assert(times(a, power_of_ten((-(-8int)) as nat)) == 1real);
    assert(times(b, power_of_ten((-(-6int)) as nat)) == 1real);
    lemma_literal(100000000real, a);
    lemma_literal(1000000real, b);
}

/// The parameters of Heston's model as the fits may use them: variances between a hundred
/// millionth and five, a speed between a millionth and fifty, a volatility of variance between a
/// millionth and ten whose square is less than twice the speed times the long mean, and a
/// correlation short of one by more than a ten thousandth.
pub open spec fn is_usable<T>(v: spec_fn(T) -> real, p: HestonParams<T>) -> bool {
    &&& 2real * times(v(p.kappa), v(p.theta)) > times(v(p.sigma), v(p.sigma))
    &&& 100000000real * v(p.v0) > 1real && v(p.v0) < 5real
    &&& 1000000real * v(p.kappa) > 1real && v(p.kappa) < 50real
    &&& 100000000real * v(p.theta) > 1real && v(p.theta) < 5real
    &&& 1000000real * v(p.sigma) > 1real && v(p.sigma) < 10real
    &&& -9999real < 10000real * v(p.rho) < 9999real
}

/// Heston's parameters may be used if and only if they lie in their ranges and variance does not
/// reach zero.
pub proof fn law_heston_bounds<T: Number, M: Elementary<T>>(
    m: M,
    v: spec_fn(T) -> real,
    p: HestonParams<T>,
)
    requires
        exact(v),
        decimal_exact(m, v),
    ensures
        heston_bounds_ok_spec(m, p) == is_usable(v, p),
{
    lemma_floors::<T, M>(m, v);
    lemma_fraction(v, -9999i32, 10000);
    lemma_fraction(v, 9999, 10000);
    lemma_literal(2real, v(p.kappa));
    lemma_multiple(2real, v(p.kappa), v(p.theta));
    assert(frac::<T>(-9999, 10000) == frac::<T>(-9999i32 as int, 10000));
}

/// Bates's parameters may be used if and only if those of Heston may, there are between none and
/// fewer than ten jumps a year, their mean is less than two in magnitude, and their deviation is
/// between a millionth and two.
pub proof fn law_bates_bounds<T: Number, M: Elementary<T>>(
    m: M,
    v: spec_fn(T) -> real,
    p: BatesParams<T>,
)
    requires
        exact(v),
        decimal_exact(m, v),
    ensures
        bates_bounds_ok_spec(m, p) == {
            &&& is_usable(v, p.heston)
            &&& 0real <= v(p.lambda) < 10real
            &&& -2real < v(p.mu_j) < 2real
            &&& 1000000real * v(p.sigma_j) > 1real && v(p.sigma_j) < 2real
        },
{
    law_heston_bounds(m, v, p.heston);
    lemma_floors::<T, M>(m, v);
    assert(v(magnitude(p.mu_j)) == if v(p.mu_j) < 0real {
        -v(p.mu_j)
    } else {
        v(p.mu_j)
    });
}

/// Parameters that may be used lie within the ranges that are searched, whose ends are no other
/// than those of what may be used.
pub proof fn law_usable_lie_in_ranges<T: Number, M: Elementary<T>>(
    m: M,
    v: spec_fn(T) -> real,
    p: BatesParams<T>,
    i: int,
)
    requires
        exact(v),
        decimal_exact(m, v),
        0 <= i < 8,
        bates_bounds_ok_spec(m, p),
    ensures
        ({
            let of_bates = <BatesParams<T> as CalibModel<T, M>>::param_bounds_spec(m);
            let of_heston = <HestonParams<T> as CalibModel<T, M>>::param_bounds_spec(m);
            let x = <BatesParams<T> as CalibModel<T, M>>::to_seq(p)[i];
            &&& of_bates.len() == 8 && of_heston.len() == 5
            &&& v(of_bates[i].0) <= v(x) < v(of_bates[i].1)
            &&& i < 5 ==> of_heston[i] == of_bates[i]
            &&& i < 5 ==> <HestonParams<T> as CalibModel<T, M>>::to_seq(p.heston)[i] == x
        }),
{
    let of_bates = <BatesParams<T> as CalibModel<T, M>>::param_bounds_spec(m);
    let of_heston = <HestonParams<T> as CalibModel<T, M>>::param_bounds_spec(m);
    law_bates_bounds(m, v, p);
    lemma_floors::<T, M>(m, v);
    lemma_fraction(v, -9999i32, 10000);
    lemma_fraction(v, 9999, 10000);
    assert(frac::<T>(-9999, 10000) == frac::<T>(-9999i32 as int, 10000));
    assert(T::from_spec(-2i32) == num::<T>(-2));
    if i < 5 {
        assert(of_bates[i] == of_heston[i]);
    } else {
        assert(of_bates[i] == of_bates.subrange(5, 8)[i - 5]);
    }
}

/// The distances from a prior in typical sizes: for Heston's parameters a twenty-fifth of variance,
/// two of the speed, and three tenths of the volatility of variance and of the correlation.
pub proof fn law_heston_prior_distances<T: Number, M: Elementary<T>>(
    m: M,
    v: spec_fn(T) -> real,
    p: HestonParams<T>,
    prior: HestonParams<T>,
)
    requires
        exact(v),
    ensures
        ({
            let d = prior_distances(m, p, prior);
            &&& d.len() == 5
            &&& v(d[0]) == 25real * (v(p.v0) - v(prior.v0))
            &&& 2real * v(d[1]) == v(p.kappa) - v(prior.kappa)
            &&& v(d[2]) == 25real * (v(p.theta) - v(prior.theta))
            &&& 3real * v(d[3]) == 10real * (v(p.sigma) - v(prior.sigma))
            &&& 3real * v(d[4]) == 10real * (v(p.rho) - v(prior.rho))
        }),
{
    let d = prior_distances(m, p, prior);
    lemma_fraction(v, 4, 100);
    lemma_fraction(v, 3, 10);
    lemma_literal(4real / 100real, v(d[0]));
    lemma_literal(2real, v(d[1]));
    lemma_literal(4real / 100real, v(d[2]));
    lemma_literal(3real / 10real, v(d[3]));
    lemma_literal(3real / 10real, v(d[4]));
}

/// The distances from a prior in typical sizes: for the jumps of Bates's parameters a half of their
/// number a year, a tenth of their mean, and three twentieths of their deviation; for the others
/// those of Heston's.
pub proof fn law_bates_prior_distances<T: Number, M: Elementary<T>>(
    m: M,
    v: spec_fn(T) -> real,
    p: BatesParams<T>,
    prior: BatesParams<T>,
)
    requires
        exact(v),
    ensures
        ({
            let d = prior_distances(m, p, prior);
            let h = prior_distances(m, p.heston, prior.heston);
            &&& d.len() == 8
            &&& d.take(5) == h
            &&& v(d[5]) == 2real * (v(p.lambda) - v(prior.lambda))
            &&& v(d[6]) == 10real * (v(p.mu_j) - v(prior.mu_j))
            &&& 3real * v(d[7]) == 20real * (v(p.sigma_j) - v(prior.sigma_j))
        }),
{
    let d = prior_distances(m, p, prior);
    let h = prior_distances(m, p.heston, prior.heston);
    lemma_fraction(v, 1, 2);
    lemma_fraction(v, 1, 10);
    lemma_fraction(v, 15, 100);
    lemma_literal(1real / 2real, v(d[5]));
    lemma_literal(1real / 10real, v(d[6]));
    lemma_literal(15real / 100real, v(d[7]));
    assert(d.take(5) =~= h);
}

/// The largest volatility of variance that a start draws is at least a twentieth; where it is more,
/// a hundred times its square is a hundred and sixty-two times the speed times the long mean, so
/// that Feller's condition holds with room.
pub proof fn law_sigma_cap<T: Number, M: Elementary<T>>(
    m: M,
    v: spec_fn(T) -> real,
    kappa: T,
    theta: T,
)
    requires
        exact(v),
        sqrt_exact(m, v),
        v(kappa) >= 0real,
        v(theta) >= 0real,
    ensures
        ({
            let c = v(sigma_cap_spec(m, kappa, theta));
            &&& 20real * c >= 1real
            &&& 20real * c > 1real ==> 100real * times(c, c) == 162real * times(v(kappa), v(theta))
        }),
{
    let two = num::<T>(2).mul_spec(kappa).mul_spec(theta);
    lemma_times_not_negative(v(kappa), v(theta));
    lemma_literal(2real, v(kappa));
    lemma_multiple(2real, v(kappa), v(theta));
    let r = v(sqrt_of(m, two));
    lemma_fraction(v, 9, 10);
    lemma_fraction(v, 1, 20);
    let k = 9real / 10real;
    lemma_literal(k, r);
    lemma_multiple(k, r, k * r);
    lemma_multiple(k, r, r);
}

/// A draw from a stream between two numbers, and the rest of the stream.
pub open spec fn is_draw<T: Number, S: RandomSource<T>>(
    v: spec_fn(T) -> real,
    src: S,
    lo: real,
    hi: real,
    x: T,
    rest: S,
) -> bool {
    exists|a: T, b: T|
        v(a) == lo && v(b) == hi && (x, rest) == #[trigger] within_of::<T, S>(src, a, b)
}

/// A random start for Heston's model: variance and its long mean are drawn between a half percent
/// and a half, the speed between three tenths and eight, the volatility of variance between two
/// hundredths and the largest that leaves room for Feller's condition, and the correlation between
/// minus and plus nine tenths, in the order of the parameters.
pub proof fn law_heston_start_is_drawn<T: Number, M: Elementary<T>, S: RandomSource<T>>(
    m: M,
    v: spec_fn(T) -> real,
    src: S,
    s1: S,
    s2: S,
    s3: S,
    s4: S,
)
    requires
        exact(v),
        ({
            let g = <HestonParams<T> as RandomStart<T, M, S>>::random_guess_spec(m, src).0;
            let (a, b) = (frac::<T>(5, 1000), frac::<T>(1, 2));
            &&& s1 == within_of::<T, S>(src, a, b).1
            &&& s2 == within_of::<T, S>(s1, frac::<T>(3, 10), num::<T>(8)).1
            &&& s3 == within_of::<T, S>(s2, a, b).1
            &&& s4 == within_of::<T, S>(
                s3,
                frac::<T>(2, 100),
                sigma_cap_spec(m, g.kappa, g.theta),
            ).1
        }),
    ensures
        ({
            let (g, s5) = <HestonParams<T> as RandomStart<T, M, S>>::random_guess_spec(m, src);
            let cap = v(sigma_cap_spec(m, g.kappa, g.theta));
            &&& is_draw(v, src, 1real / 200real, 1real / 2real, g.v0, s1)
            &&& is_draw(v, s1, 3real / 10real, 8real, g.kappa, s2)
            &&& is_draw(v, s2, 1real / 200real, 1real / 2real, g.theta, s3)
            &&& is_draw(v, s3, 1real / 50real, cap, g.sigma, s4)
            &&& is_draw(v, s4, -9real / 10real, 9real / 10real, g.rho, s5)
        }),
{
    let (g, s5) = <HestonParams<T> as RandomStart<T, M, S>>::random_guess_spec(m, src);
    lemma_fraction(v, 5, 1000);
    lemma_fraction(v, 1, 2);
    lemma_fraction(v, 3, 10);
    lemma_fraction(v, 2, 100);
    lemma_fraction(v, -9i32, 10);
    lemma_fraction(v, 9, 10);
    assert(frac::<T>(-9, 10) == frac::<T>(-9i32 as int, 10));
    let (a, b) = (frac::<T>(5, 1000), frac::<T>(1, 2));
    assert((g.v0, s1) == within_of::<T, S>(src, a, b));
    assert((g.kappa, s2) == within_of::<T, S>(s1, frac::<T>(3, 10), num::<T>(8)));
    assert((g.theta, s3) == within_of::<T, S>(s2, a, b));
    assert((g.sigma, s4) == within_of::<T, S>(
        s3,
        frac::<T>(2, 100),
        sigma_cap_spec(m, g.kappa, g.theta),
    ));
    assert((g.rho, s5) == within_of::<T, S>(s4, frac::<T>(-9, 10), frac::<T>(9, 10)));
}

} // verus!
