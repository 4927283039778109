//! The kernel of the hybrid scheme for rough volatility: the covariance of the increments
//! that are simulated exactly, its Cholesky factor, and the evaluation points of the rest.
use crate::exact::{
    exact, lemma_literal, lemma_times_assoc, lemma_times_cancel, lemma_times_comm,
    lemma_times_positive, lemma_times_unit, sqrt_exact, times, total,
};
use crate::number::{
    abs, count_of, decimal_of, lawful, magnitude, num, powf_of, regular, sqrt_of, whole, Elementary,
    Number,
};
use crate::types::lemma_grid_index;
use core::ops::Neg;
use vstd::prelude::*;
use vstd::std_specs::cmp::PartialOrdIs;
use vstd::std_specs::ops::{AddSpec, DivSpec, MulSpec, NegSpec, SubSpec};

verus! {

/// Terms of the hypergeometric series before it is cut off.
pub const MAX_TERMS: i32 = 501;

/// The term of the hypergeometric series that follows `term`, which has number `n`.
pub open spec fn next_term_spec<T: Number>(term: T, a: T, b: T, c: T, z: T, n: T) -> T {
    term.mul_spec(
        a.add_spec(n).mul_spec(b.add_spec(n)).div_spec(c.add_spec(n)).mul_spec(z).div_spec(
            n.add_spec(num::<T>(1)),
        ),
    )
}

/// The term of the hypergeometric series that follows `term`, which has number `n`.
pub fn next_term<T: Number>(term: T, a: T, b: T, c: T, z: T, n: T) -> (res: T)
    requires
        regular::<T>(),
    ensures
        res == next_term_spec(term, a, b, c, z, n),
{
    term * ((a + n) * (b + n) / (c + n) * z / (n + whole::<T>(1)))
}

/// The hypergeometric series from term `n` on, with the terms so far in `sum`: it ends when
/// a term no longer matters, or after the largest number of terms.
pub open spec fn series_from<T: Number, M: Elementary<T>>(
    m: M,
    a: T,
    b: T,
    c: T,
    z: T,
    term: T,
    sum: T,
    n: int,
) -> T
    decreases MAX_TERMS - n,
{
    let t = next_term_spec(term, a, b, c, z, num::<T>(n));
    let s = sum.add_spec(t);
    if magnitude(t).is_lt(&decimal_of::<T, M>(m, 1, -16).mul_spec(magnitude(s))) || n + 1
        >= MAX_TERMS {
        s
    } else {
        series_from(m, a, b, c, z, t, s, n + 1)
    }
}

/// The hypergeometric function 2F1 of `a`, `b`, `c` at `z`, by its series; `z` is less than
/// one in magnitude.
pub open spec fn hyp2f1_spec<T: Number, M: Elementary<T>>(m: M, a: T, b: T, c: T, z: T) -> T {
    series_from(m, a, b, c, z, num::<T>(1), num::<T>(1), 0)
}

/// The hypergeometric function 2F1 of `a`, `b`, `c` at `z`.
pub fn hyp2f1<T: Number, M: Elementary<T>>(m: M, a: T, b: T, c: T, z: T) -> (res: T)
    requires
        lawful::<T, M>(m),
    ensures
        res == hyp2f1_spec(m, a, b, c, z),
{
    let mut term = whole::<T>(1);
    let mut sum = whole::<T>(1);
    let mut n: i32 = 0;
    while n < MAX_TERMS
        invariant
            lawful::<T, M>(m),
            0 <= n < MAX_TERMS,
            series_from(m, a, b, c, z, term, sum, n as int) == hyp2f1_spec(m, a, b, c, z),
        decreases MAX_TERMS - n,
    {
        term = next_term(term, a, b, c, z, whole::<T>(n));
        sum = sum + term;
        n = n + 1;
        if abs(term) < m.decimal(1, -16) * abs(sum) || n >= MAX_TERMS {
            return sum;
        }
    }
    sum
}

/// The point at which cell `k` of the tail is evaluated: the one that minimises the
/// asymptotic mean square error.
pub open spec fn optimal_eval_point_spec<T: Number, M: Elementary<T>>(
    m: M,
    alpha: T,
    k: usize,
) -> T {
    let kf = count_of::<T, M>(m, k);
    let raw = powf_of(m, kf, alpha.add_spec(num::<T>(1))).sub_spec(
        powf_of(m, kf.sub_spec(num::<T>(1)), alpha.add_spec(num::<T>(1))),
    ).div_spec(alpha.add_spec(num::<T>(1)));
    powf_of(m, raw, num::<T>(1).div_spec(alpha))
}

/// The point at which cell `k` of the tail is evaluated.
pub fn optimal_eval_point<T: Number, M: Elementary<T>>(m: M, alpha: T, k: usize) -> (res: T)
    requires
        lawful::<T, M>(m),
        k >= 1,
    ensures
        res == optimal_eval_point_spec(m, alpha, k),
{
    let kf = m.count(k);
    let raw = (
        m.powf(kf, alpha + whole::<T>(1)) - m.powf(kf - whole::<T>(1), alpha + whole::<T>(1))
    )
        / (alpha + whole::<T>(1));
    m.powf(raw, whole::<T>(1) / alpha)
}

/// The covariance of the increment with the weighted increment of cell `jf`.
pub open spec fn cov_first_spec<T: Number, M: Elementary<T>>(m: M, alpha: T, n: T, jf: T) -> T {
    powf_of(m, jf.sub_spec(num::<T>(1)), alpha.add_spec(num::<T>(1))).sub_spec(
        powf_of(m, jf.sub_spec(num::<T>(2)), alpha.add_spec(num::<T>(1))),
    ).div_spec(alpha.add_spec(num::<T>(1)).mul_spec(powf_of(m, n, alpha.add_spec(num::<T>(1)))))
}

/// The covariance of the increment with the weighted increment of cell `jf`.
pub fn cov_first<T: Number, M: Elementary<T>>(m: M, alpha: T, n: T, jf: T) -> (res: T)
    requires
        lawful::<T, M>(m),
    ensures
        res == cov_first_spec(m, alpha, n, jf),
{
    (
        m.powf(jf - whole::<T>(1), alpha + whole::<T>(1))
            - m.powf(jf - whole::<T>(2), alpha + whole::<T>(1))
    )
        / ((alpha + whole::<T>(1)) * m.powf(n, alpha + whole::<T>(1)))
}

/// The variance of the weighted increment of cell `jf`.
pub open spec fn cov_diagonal_spec<T: Number, M: Elementary<T>>(m: M, alpha: T, n: T, jf: T) -> T {
    powf_of(
        m,
        jf.sub_spec(num::<T>(1)),
        num::<T>(2).mul_spec(alpha).add_spec(num::<T>(1)),
    ).sub_spec(
        powf_of(m, jf.sub_spec(num::<T>(2)), num::<T>(2).mul_spec(alpha).add_spec(num::<T>(1))),
    ).div_spec(
        num::<T>(2).mul_spec(alpha).add_spec(num::<T>(1)).mul_spec(
            powf_of(m, n, num::<T>(2).mul_spec(alpha).add_spec(num::<T>(1))),
        ),
    )
}

/// The variance of the weighted increment of cell `jf`.
pub fn cov_diagonal<T: Number, M: Elementary<T>>(m: M, alpha: T, n: T, jf: T) -> (res: T)
    requires
        lawful::<T, M>(m),
    ensures
        res == cov_diagonal_spec(m, alpha, n, jf),
{
    (
        m.powf(jf - whole::<T>(1), whole::<T>(2) * alpha + whole::<T>(1))
            - m.powf(jf - whole::<T>(2), whole::<T>(2) * alpha + whole::<T>(1))
    )
        / (
            (whole::<T>(2) * alpha + whole::<T>(1))
                * m.powf(n, whole::<T>(2) * alpha + whole::<T>(1))
        )
}

/// The covariance of the weighted increments of cells `jf` and `kf`, the first before the
/// second.
pub open spec fn cov_pair_spec<T: Number, M: Elementary<T>>(
    m: M,
    alpha: T,
    n: T,
    jf: T,
    kf: T,
) -> T {
    let term1 = powf_of(m, jf.sub_spec(num::<T>(1)), alpha.add_spec(num::<T>(1))).mul_spec(
        powf_of(m, kf.sub_spec(num::<T>(1)), alpha),
    ).mul_spec(
        hyp2f1_spec(
            m,
            alpha.neg_spec(),
            num::<T>(1),
            alpha.add_spec(num::<T>(2)),
            jf.sub_spec(num::<T>(1)).div_spec(kf.sub_spec(num::<T>(1))),
        ),
    );
    let term2 = powf_of(m, jf.sub_spec(num::<T>(2)), alpha.add_spec(num::<T>(1))).mul_spec(
        powf_of(m, kf.sub_spec(num::<T>(2)), alpha),
    ).mul_spec(
        hyp2f1_spec(
            m,
            alpha.neg_spec(),
            num::<T>(1),
            alpha.add_spec(num::<T>(2)),
            jf.sub_spec(num::<T>(2)).div_spec(kf.sub_spec(num::<T>(2))),
        ),
    );
    term1.sub_spec(term2).div_spec(
        alpha.add_spec(num::<T>(1)).mul_spec(
            powf_of(m, n, num::<T>(2).mul_spec(alpha).add_spec(num::<T>(1))),
        ),
    )
}

/// The covariance of the weighted increments of cells `jf` and `kf`, the first before the
/// second.
pub fn cov_pair<T: Number, M: Elementary<T>>(m: M, alpha: T, n: T, jf: T, kf: T) -> (res: T)
    requires
        lawful::<T, M>(m),
    ensures
        res == cov_pair_spec(m, alpha, n, jf, kf),
{
    let term1 = m.powf(jf - whole::<T>(1), alpha + whole::<T>(1))
        * m.powf(kf - whole::<T>(1), alpha)
        * hyp2f1(
            m,
            alpha.neg(),
            whole::<T>(1),
            alpha + whole::<T>(2),
            (jf - whole::<T>(1)) / (kf - whole::<T>(1)),
        );
    let term2 = m.powf(jf - whole::<T>(2), alpha + whole::<T>(1))
        * m.powf(kf - whole::<T>(2), alpha)
        * hyp2f1(
            m,
            alpha.neg(),
            whole::<T>(1),
            alpha + whole::<T>(2),
            (jf - whole::<T>(2)) / (kf - whole::<T>(2)),
        );
    (term1 - term2) / ((alpha + whole::<T>(1)) * m.powf(n, whole::<T>(2) * alpha + whole::<T>(1)))
}

/// Entry (`i`, `j`) of the covariance of the increment and the weighted increments of the
/// cells after it.
pub open spec fn cov_entry<T: Number, M: Elementary<T>>(m: M, alpha: T, n: T, i: int, j: int) -> T {
    let fi = count_of::<T, M>(m, (i + 1) as usize);
    let fj = count_of::<T, M>(m, (j + 1) as usize);
    if i == 0 && j == 0 {
        num::<T>(1).div_spec(n)
    } else if i == 0 {
        cov_first_spec(m, alpha, n, fj)
    } else if j == 0 {
        cov_first_spec(m, alpha, n, fi)
    } else if i == j {
        cov_diagonal_spec(m, alpha, n, fi)
    } else if i < j {
        cov_pair_spec(m, alpha, n, fi, fj)
    } else {
        cov_pair_spec(m, alpha, n, fj, fi)
    }
}

/// The covariance matrix of the increment and the weighted increments of the `kappa` cells
/// after it, row by row.
pub fn hybrid_scheme_covariance<T: Number, M: Elementary<T>>(
    m: M,
    alpha: T,
    kappa: usize,
    n: T,
) -> (res: Vec<T>)
    requires
        lawful::<T, M>(m),
        (kappa + 1) * (kappa + 1) <= usize::MAX,
        kappa + 2 <= usize::MAX,
    ensures
        res@.len() == (kappa + 1) * (kappa + 1),
        forall|i: int, j: int|
            0 <= i <= kappa && 0 <= j <= kappa ==> #[trigger] res@[i * (kappa + 1) + j]
                == cov_entry(m, alpha, n, i, j),
{
    let dim: usize = kappa + 1;
    let mut sigma: Vec<T> = Vec::new();
    let mut i: usize = 0;
    while i < dim
        invariant
            lawful::<T, M>(m),
            dim == kappa + 1,
            dim < usize::MAX,
            dim * dim <= usize::MAX,
            i <= dim,
            sigma@.len() == i * dim,
            forall|r: int, c: int|
                0 <= r < i && 0 <= c < dim ==> #[trigger] sigma@[r * dim + c] == cov_entry(
                    m,
                    alpha,
                    n,
                    r,
                    c,
                ),
        decreases dim - i,
    {
        let mut j: usize = 0;
        let ghost done = sigma@;
        while j < dim
            invariant
                lawful::<T, M>(m),
                dim == kappa + 1,
                dim < usize::MAX,
                i < dim,
                j <= dim,
                done.len() == i * dim,
                sigma@.len() == i * dim + j,
                forall|k: int| 0 <= k < done.len() ==> sigma@[k] == done[k],
                forall|c: int|
                    0 <= c < j ==> #[trigger] sigma@[i * dim + c] == cov_entry(
                        m,
                        alpha,
                        n,
                        i as int,
                        c,
                    ),
            decreases dim - j,
        {
            let fi = m.count(i + 1);
            let fj = m.count(j + 1);
            let x = if i == 0 && j == 0 {
                whole::<T>(1) / n
            } else if i == 0 {
                cov_first(m, alpha, n, fj)
            } else if j == 0 {
                cov_first(m, alpha, n, fi)
            } else if i == j {
                cov_diagonal(m, alpha, n, fi)
            } else if i < j {
                cov_pair(m, alpha, n, fi, fj)
            } else {
                cov_pair(m, alpha, n, fj, fi)
            };
            sigma.push(x);
            j = j + 1;
        }
        proof {
            assert((i + 1) * dim == i * dim + dim) by (nonlinear_arith);
            assert forall|r: int, c: int| 0 <= r < i + 1 && 0 <= c < dim implies #[trigger] sigma@[r
                * dim + c] == cov_entry(m, alpha, n, r, c) by {
                if r < i {
                    lemma_grid_index(r, c, i as int, dim as int);
                    assert(sigma@[r * dim + c] == done[r * dim + c]);
                }
            }
        }
        i = i + 1;
    }
    sigma
}

/// The covariance matrix is symmetric, to the last rounding.
pub proof fn law_covariance_symmetric<T: Number, M: Elementary<T>>(
    m: M,
    alpha: T,
    n: T,
    i: int,
    j: int,
)
    ensures
        cov_entry(m, alpha, n, i, j) == cov_entry(m, alpha, n, j, i),
{
}

/// The power of the number of steps by which entry (`i`, `j`) falls.
pub open spec fn cov_exponent<T: Number>(alpha: T, i: int, j: int) -> T {
    if i == 0 || j == 0 {
        alpha.add_spec(num::<T>(1))
    } else {
        num::<T>(2).mul_spec(alpha).add_spec(num::<T>(1))
    }
}

/// The covariance scales with the number of steps in a unit of time: the first variance falls
/// as that number rises, and every other entry as a power of it that the kernel gives.
pub proof fn law_covariance_scales<T: Number, M: Elementary<T>>(
    m: M,
    v: spec_fn(T) -> real,
    alpha: T,
    n1: T,
    n2: T,
    i: int,
    j: int,
)
    requires
        exact(v),
        v(n1) > 0real,
        v(n2) > 0real,
        v(alpha) > -1real / 2real,
        v(powf_of(m, n1, cov_exponent(alpha, i, j))) > 0real,
        v(powf_of(m, n2, cov_exponent(alpha, i, j))) > 0real,
    ensures
        i == 0 && j == 0 ==> times(v(cov_entry(m, alpha, n1, i, j)), v(n1)) == times(
            v(cov_entry(m, alpha, n2, i, j)),
            v(n2),
        ),
        i != 0 || j != 0 ==> times(
            v(cov_entry(m, alpha, n1, i, j)),
            v(powf_of(m, n1, cov_exponent(alpha, i, j))),
        ) == times(
            v(cov_entry(m, alpha, n2, i, j)),
            v(powf_of(m, n2, cov_exponent(alpha, i, j))),
        ),
{
    if i != 0 || j != 0 {
        let e = cov_exponent(alpha, i, j);
        let (p1, p2) = (v(powf_of(m, n1, e)), v(powf_of(m, n2, e)));
        let (c1, c2) = (v(cov_entry(m, alpha, n1, i, j)), v(cov_entry(m, alpha, n2, i, j)));
        let half = alpha.add_spec(num::<T>(1));
        let whole = num::<T>(2).mul_spec(alpha).add_spec(num::<T>(1));
        lemma_literal(2real, v(alpha));
        let k = if i == j {
            v(whole)
        } else {
            v(half)
        };
        assert(k > 0real);
        lemma_times_positive(k, p1);
        lemma_times_positive(k, p2);
        assert(times(c1, times(k, p1)) == times(c2, times(k, p2)));
        lemma_times_assoc(c1, p1, k);
        lemma_times_assoc(c2, p2, k);
        lemma_times_comm(p1, k);
        lemma_times_comm(p2, k);
        lemma_times_cancel(times(c1, p1), times(c2, p2), k);
    }
}

/// Entry (`i`, `j`) of the lower triangular factor of the matrix `a`, which is kept row by
/// row: on the diagonal the root of what the row has left, below it what is left over the
/// diagonal entry of the column.
pub open spec fn factor<T: Number, M: Elementary<T>>(m: M, a: Seq<T>, dim: int, i: int, j: int) -> T
    decreases i, j, j + 1,
{
    if i < 0 || j < 0 || j > i {
        num::<T>(0)
    } else {
        let r = left_over(m, a, dim, i, j, j);
        if i == j {
            sqrt_of(m, r)
        } else {
            r.div_spec(factor(m, a, dim, j, j))
        }
    }
}

/// What entry (`i`, `j`) of the matrix has left when the products of the first `p` columns
/// of the factor have been taken off.
pub open spec fn left_over<T: Number, M: Elementary<T>>(
    m: M,
    a: Seq<T>,
    dim: int,
    i: int,
    j: int,
    p: int,
) -> T
    decreases i, j, p,
{
    if p <= 0 || p > j || j > i {
        a[i * dim + j]
    } else {
        left_over(m, a, dim, i, j, p - 1).sub_spec(
            factor(m, a, dim, i, p - 1).mul_spec(factor(m, a, dim, j, p - 1)),
        )
    }
}

/// The pivot of row `i` is positive.
pub open spec fn pivot_ok<T: Number, M: Elementary<T>>(m: M, a: Seq<T>, dim: int, i: int) -> bool {
    !left_over(m, a, dim, i, i, i).is_le(&num::<T>(0))
}

/// The lower triangular Cholesky factor of a matrix that is kept row by row, with zeros
/// above the diagonal; `None` if and only if a pivot is not positive.
pub fn cholesky_lower<T: Number, M: Elementary<T>>(
    m: M,
    matrix: &Vec<T>,
    dim: usize,
) -> (res: Option<
    Vec<T>,
>)
    requires
        lawful::<T, M>(m),
        matrix@.len() == dim * dim,
    ensures
        res is Some <==> forall|i: int|
            0 <= i < dim ==> #[trigger] pivot_ok(m, matrix@, dim as int, i),
        res matches Some(l) ==> {
            &&& l@.len() == dim * dim
            &&& forall|i: int, j: int|
                0 <= i < dim && 0 <= j < dim ==> #[trigger] l@[i * dim + j] == factor(
                    m,
                    matrix@,
                    dim as int,
                    i,
                    j,
                )
        },
{
    let ghost a = matrix@;
    proof {
        assert(matrix.len() <= usize::MAX);
    }
    let mut l: Vec<T> = Vec::new();
    let mut i: usize = 0;
    while i < dim
        invariant
            lawful::<T, M>(m),
            a == matrix@,
            a.len() == dim * dim,
            a.len() <= usize::MAX,
            i <= dim,
            l@.len() == i * dim,
            forall|r: int, c: int|
                0 <= r < i && 0 <= c < dim ==> #[trigger] l@[r * dim + c] == factor(
                    m,
                    a,
                    dim as int,
                    r,
                    c,
                ),
            forall|r: int| 0 <= r < i ==> #[trigger] pivot_ok(m, a, dim as int, r),
        decreases dim - i,
    {
        let ghost done = l@;
        let mut j: usize = 0;
        while j <= i
            invariant
                lawful::<T, M>(m),
                a == matrix@,
                a.len() == dim * dim,
                a.len() <= usize::MAX,
                i < dim,
                j <= i + 1,
                done.len() == i * dim,
                l@.len() == i * dim + j,
                forall|k: int| 0 <= k < done.len() ==> l@[k] == done[k],
                forall|r: int, c: int|
                    0 <= r < i && 0 <= c < dim ==> #[trigger] done[r * dim + c] == factor(
                        m,
                        a,
                        dim as int,
                        r,
                        c,
                    ),
                forall|c: int|
                    0 <= c < j ==> #[trigger] l@[i * dim + c] == factor(
                        m,
                        a,
                        dim as int,
                        i as int,
                        c,
                    ),
                j > i ==> pivot_ok(m, a, dim as int, i as int),
            decreases i + 1 - j,
        {
            proof {
                lemma_grid_index(i as int, j as int, dim as int, dim as int);
            }
            let mut rest = matrix[i * dim + j];
            let mut p: usize = 0;
            while p < j
                invariant
                    lawful::<T, M>(m),
                    a == matrix@,
                    a.len() == dim * dim,
                    a.len() <= usize::MAX,
                    j <= i < dim,
                    p <= j,
                    done.len() == i * dim,
                    l@.len() == i * dim + j,
                    forall|k: int| 0 <= k < done.len() ==> l@[k] == done[k],
                    forall|r: int, c: int|
                        0 <= r < i && 0 <= c < dim ==> #[trigger] done[r * dim + c] == factor(
                            m,
                            a,
                            dim as int,
                            r,
                            c,
                        ),
                    forall|c: int|
                        0 <= c < j ==> #[trigger] l@[i * dim + c] == factor(
                            m,
                            a,
                            dim as int,
                            i as int,
                            c,
                        ),
                    rest == left_over(m, a, dim as int, i as int, j as int, p as int),
                decreases j - p,
            {
                proof {
                    lemma_grid_index(i as int, p as int, dim as int, dim as int);
                    lemma_grid_index(j as int, p as int, dim as int, dim as int);
                    if j < i {
                        lemma_grid_index(j as int, p as int, i as int, dim as int);
                        assert(l@[j * dim + p] == done[j * dim + p]);
                    }
                }
                rest = rest - l[i * dim + p] * l[j * dim + p];
                p = p + 1;
            }
            if i == j {
                if rest <= whole::<T>(0) {
                    proof {
                        assert(!pivot_ok(m, a, dim as int, i as int));
                    }
                    return None;
                }
                l.push(m.sqrt(rest));
            } else {
                proof {
                    lemma_grid_index(j as int, j as int, i as int, dim as int);
                    lemma_grid_index(j as int, j as int, dim as int, dim as int);
                    assert(l@[j * dim + j] == done[j * dim + j]);
                }
                let x = rest / l[j * dim + j];
                l.push(x);
            }
            j = j + 1;
        }
        while j < dim
            invariant
                lawful::<T, M>(m),
                i < dim,
                i < j <= dim,
                done.len() == i * dim,
                l@.len() == i * dim + j,
                forall|k: int| 0 <= k < done.len() ==> l@[k] == done[k],
                forall|c: int|
                    0 <= c < j ==> #[trigger] l@[i * dim + c] == factor(
                        m,
                        a,
                        dim as int,
                        i as int,
                        c,
                    ),
            decreases dim - j,
        {
            l.push(whole::<T>(0));
            j = j + 1;
        }
        proof {
            assert((i + 1) * dim == i * dim + dim) by (nonlinear_arith);
            assert forall|r: int, c: int| 0 <= r < i + 1 && 0 <= c < dim implies #[trigger] l@[r
                * dim + c] == factor(m, a, dim as int, r, c) by {
                if r < i {
                    lemma_grid_index(r, c, i as int, dim as int);
                    assert(l@[r * dim + c] == done[r * dim + c]);
                }
            }
        }
        i = i + 1;
    }
    Some(l)
}

/// The products of the entries of rows `i` and `j` of the factor, column by column.
pub open spec fn row_products<T: Number, M: Elementary<T>>(
    m: M,
    v: spec_fn(T) -> real,
    a: Seq<T>,
    dim: int,
    i: int,
    j: int,
) -> spec_fn(int) -> real {
    |k: int| times(v(factor(m, a, dim, i, k)), v(factor(m, a, dim, j, k)))
}

/// What an entry has left is the entry less the products of the columns before.
proof fn lemma_left_over<T: Number, M: Elementary<T>>(
    m: M,
    v: spec_fn(T) -> real,
    a: Seq<T>,
    dim: int,
    i: int,
    j: int,
    p: int,
)
    requires
        exact(v),
        0 <= p <= j <= i,
    ensures
        v(left_over(m, a, dim, i, j, p)) == v(a[i * dim + j]) - total(
            row_products(m, v, a, dim, i, j),
            p,
        ),
    decreases p,
{
    if p > 0 {
        lemma_left_over(m, v, a, dim, i, j, p - 1);
    }
}

/// The factor reconstructs the matrix: without rounding, where the pivots are positive, the
/// factor times its transpose has the entries of the matrix on and below the diagonal.
pub proof fn law_cholesky_reconstructs<T: Number, M: Elementary<T>>(
    m: M,
    v: spec_fn(T) -> real,
    a: Seq<T>,
    dim: int,
    i: int,
    j: int,
)
    requires
        exact(v),
        sqrt_exact(m, v),
        0 <= j <= i < dim,
        pivot_ok(m, a, dim, i),
        pivot_ok(m, a, dim, j),
    ensures
        total(row_products(m, v, a, dim, i, j), dim) == v(a[i * dim + j]),
{
    let f = row_products(m, v, a, dim, i, j);
    lemma_left_over(m, v, a, dim, i, j, j);
    let r = left_over(m, a, dim, j, j, j);
    let root = v(factor(m, a, dim, j, j));
    assert(v(r) > 0real);
    assert(factor(m, a, dim, j, j) == sqrt_of(m, r));
    assert(times(root, root) == v(r));
    assert(root != 0real) by {
        lemma_times_unit(root);
    }
    assert(total(f, j + 1) == v(a[i * dim + j]));
    lemma_products_end(m, v, a, dim, i, j, dim);
}

/// Beyond the diagonal the factor adds nothing.
proof fn lemma_products_end<T: Number, M: Elementary<T>>(
    m: M,
    v: spec_fn(T) -> real,
    a: Seq<T>,
    dim: int,
    i: int,
    j: int,
    n: int,
)
    requires
        exact(v),
        0 <= j <= i,
        j + 1 <= n,
    ensures
        total(row_products(m, v, a, dim, i, j), n) == total(
            row_products(m, v, a, dim, i, j),
            j + 1,
        ),
    decreases n,
{
    if n > j + 1 {
        lemma_products_end(m, v, a, dim, i, j, n - 1);
        assert(factor(m, a, dim, j, n - 1) == num::<T>(0));
        lemma_times_unit(v(factor(m, a, dim, i, n - 1)));
    }
}

} // verus!
