//! The linear algebra of the calibration: normal equations, a damped solve by Gaussian
//! elimination with partial pivoting, and the eigenvalues of a symmetric matrix by Jacobi's
//! rotations.
use crate::number::{
    abs, decimal_of, lawful, magnitude, num, regular, sqrt_of, sum, whole, Elementary, Number,
};
use core::ops::Neg;
use vstd::prelude::*;
use vstd::std_specs::cmp::PartialOrdIs;
use vstd::std_specs::ops::{AddSpec, DivSpec, MulSpec, NegSpec, SubSpec};

verus! {

/// The entries of a matrix that is kept as a vector of rows.
pub open spec fn entries<T>(a: Seq<Vec<T>>) -> Seq<Seq<T>> {
    Seq::new(a.len(), |i: int| a[i]@)
}

/// `a` has `rows` rows of `cols` entries.
pub open spec fn has_shape<T>(a: Seq<Seq<T>>, rows: int, cols: int) -> bool {
    &&& a.len() == rows
    &&& forall|i: int| 0 <= i < rows ==> (#[trigger] a[i]).len() == cols
}

/// A copy of a vector.
pub fn copy_vec<T: Copy>(v: &Vec<T>) -> (res: Vec<T>)
    ensures
        res@ == v@,
{
    let mut r: Vec<T> = Vec::new();
    while r.len() < v.len()
        invariant
            r@.len() <= v@.len(),
            r@ =~= v@.take(r@.len() as int),
        decreases v@.len() - r@.len(),
    {
        r.push(v[r.len()]);
    }
    r
}

/// A copy of a matrix.
pub fn copy_matrix<T: Copy>(a: &Vec<Vec<T>>) -> (res: Vec<Vec<T>>)
    ensures
        entries(res@) == entries(a@),
{
    let mut r: Vec<Vec<T>> = Vec::new();
    while r.len() < a.len()
        invariant
            r@.len() <= a@.len(),
            forall|i: int| 0 <= i < r@.len() ==> (#[trigger] r@[i])@ == a@[i]@,
        decreases a@.len() - r@.len(),
    {
        let row = copy_vec(&a[r.len()]);
        r.push(row);
    }
    proof {
        assert(entries(r@) =~= entries(a@));
    }
    r
}

/// A vector of `n` equal elements.
pub fn constant_vec<T: Copy>(x: T, n: usize) -> (res: Vec<T>)
    ensures
        res@ == Seq::new(n as nat, |i: int| x),
{
    let mut r: Vec<T> = Vec::new();
    while r.len() < n
        invariant
            r@.len() <= n,
            r@ =~= Seq::new(r@.len(), |i: int| x),
        decreases n - r@.len(),
    {
        r.push(x);
    }
    r
}

/// A matrix of equal entries.
pub fn constant_matrix<T: Copy>(x: T, rows: usize, cols: usize) -> (res: Vec<Vec<T>>)
    ensures
        entries(res@) == Seq::new(rows as nat, |i: int| Seq::new(cols as nat, |j: int| x)),
{
    let mut r: Vec<Vec<T>> = Vec::new();
    while r.len() < rows
        invariant
            r@.len() <= rows,
            forall|i: int|
                0 <= i < r@.len() ==> (#[trigger] r@[i])@ == Seq::new(cols as nat, |j: int| x),
        decreases rows - r@.len(),
    {
        let row = constant_vec(x, cols);
        r.push(row);
    }
    proof {
        assert(entries(r@) =~= Seq::new(rows as nat, |i: int| Seq::new(cols as nat, |j: int| x)));
    }
    r
}

/// The weighted residual of row `i`, squared.
pub open spec fn weighted_square<T: Number>(res: Seq<T>, weights: Seq<T>) -> spec_fn(int) -> T {
    |i: int| weights[i].mul_spec(res[i]).mul_spec(weights[i].mul_spec(res[i]))
}

/// The shorter of two lengths.
pub open spec fn common_len(a: int, b: int) -> int {
    if a < b {
        a
    } else {
        b
    }
}

/// The sum of the squares of the weighted residuals.
pub open spec fn weighted_sse_spec<T: Number>(res: Seq<T>, weights: Seq<T>) -> T {
    sum(weighted_square(res, weights), common_len(res.len() as int, weights.len() as int))
}

/// The sum of the squares of the weighted residuals.
pub fn weighted_sse<T: Number>(res: &Vec<T>, weights: &Vec<T>) -> (r: T)
    requires
        regular::<T>(),
    ensures
        r == weighted_sse_spec(res@, weights@),
{
    let n: usize = if res.len() < weights.len() {
        res.len()
    } else {
        weights.len()
    };
    let mut acc = whole::<T>(0);
    let mut i: usize = 0;
    while i < n
        invariant
            regular::<T>(),
            n == common_len(res@.len() as int, weights@.len() as int),
            i <= n,
            acc == sum(weighted_square(res@, weights@), i as int),
        decreases n - i,
    {
        let x = weights[i] * res[i];
        acc = acc + x * x;
        i = i + 1;
    }
    acc
}

/// The sum of the squares of the elements of `v`.
pub open spec fn sum_squares_spec<T: Number>(v: Seq<T>) -> T {
    sum(|i: int| v[i].mul_spec(v[i]), v.len() as int)
}

/// The sum of the squares of the elements of `v`.
pub fn sum_squares<T: Number>(v: &Vec<T>) -> (r: T)
    requires
        regular::<T>(),
    ensures
        r == sum_squares_spec(v@),
{
    let ghost f = |i: int| v@[i].mul_spec(v@[i]);
    let mut acc = whole::<T>(0);
    let mut i: usize = 0;
    while i < v.len()
        invariant
            regular::<T>(),
            f == (|i: int| v@[i].mul_spec(v@[i])),
            i <= v@.len(),
            acc == sum(f, i as int),
        decreases v@.len() - i,
    {
        let x = v[i];
        acc = acc + x * x;
        i = i + 1;
    }
    acc
}

/// What row `row` of the Jacobian adds to entry (`c1`, `c2`) of its product with itself.
pub open spec fn jtj_term<T: Number>(j: Seq<Seq<T>>, weights: Seq<T>, c1: int, c2: int) -> spec_fn(
    int,
) -> T {
    |row: int|
        weights[row].mul_spec(weights[row]).mul_spec(j[row][c1]).mul_spec(j[row][c2])
}

/// What row `row` of the Jacobian adds to entry `c` of the gradient.
pub open spec fn grad_term<T: Number>(
    j: Seq<Seq<T>>,
    res: Seq<T>,
    weights: Seq<T>,
    c: int,
) -> spec_fn(int) -> T {
    |row: int| weights[row].mul_spec(weights[row]).mul_spec(j[row][c]).mul_spec(res[row])
}

/// The weighted product of the Jacobian with itself over its first `rows` rows.
pub open spec fn jtj_spec<T: Number>(j: Seq<Seq<T>>, weights: Seq<T>, rows: int, n: int) -> Seq<
    Seq<T>,
> {
    Seq::new(
        n as nat,
        |c1: int| Seq::new(n as nat, |c2: int| sum(jtj_term(j, weights, c1, c2), rows)),
    )
}

/// The weighted product of the Jacobian with the residuals over its first `rows` rows.
pub open spec fn grad_spec<T: Number>(
    j: Seq<Seq<T>>,
    res: Seq<T>,
    weights: Seq<T>,
    rows: int,
    n: int,
) -> Seq<T> {
    Seq::new(n as nat, |c: int| sum(grad_term(j, res, weights, c), rows))
}

/// The normal equations: the weighted products of the Jacobian with itself and with the
/// residuals.
pub fn jtj_and_grad<T: Number>(j: &Vec<Vec<T>>, res: &Vec<T>, weights: &Vec<T>, n: usize) -> (r: (
    Vec<Vec<T>>,
    Vec<T>,
))
    requires
        regular::<T>(),
        res@.len() == weights@.len(),
        has_shape(entries(j@), res@.len() as int, n as int),
    ensures
        entries(r.0@) == jtj_spec(entries(j@), weights@, res@.len() as int, n as int),
        r.1@ == grad_spec(entries(j@), res@, weights@, res@.len() as int, n as int),
{
    let ghost js = entries(j@);
    let mut jtj: Vec<Vec<T>> = Vec::new();
    let mut grad: Vec<T> = Vec::new();
    let mut c1: usize = 0;
    while c1 < n
        invariant
            regular::<T>(),
            js == entries(j@),
            res@.len() == weights@.len(),
            has_shape(js, res@.len() as int, n as int),
            c1 <= n,
            jtj@.len() == c1,
            grad@.len() == c1,
            forall|i: int|
                0 <= i < c1 ==> (#[trigger] jtj@[i])@ == Seq::new(
                    n as nat,
                    |c2: int| sum(jtj_term(js, weights@, i, c2), res@.len() as int),
                ),
            forall|i: int|
                0 <= i < c1 ==> (#[trigger] grad@[i]) == sum(
                    grad_term(js, res@, weights@, i),
                    res@.len() as int,
                ),
        decreases n - c1,
    {
        let mut row_out: Vec<T> = Vec::new();
        let mut c2: usize = 0;
        while c2 < n
            invariant
                regular::<T>(),
                js == entries(j@),
                res@.len() == weights@.len(),
                has_shape(js, res@.len() as int, n as int),
                c1 < n,
                c2 <= n,
                row_out@.len() == c2,
                forall|k: int|
                    0 <= k < c2 ==> (#[trigger] row_out@[k]) == sum(
                        jtj_term(js, weights@, c1 as int, k),
                        res@.len() as int,
                    ),
            decreases n - c2,
        {
            let mut acc = whole::<T>(0);
            let mut row: usize = 0;
            while row < res.len()
                invariant
                    regular::<T>(),
                    js == entries(j@),
                    res@.len() == weights@.len(),
                    has_shape(js, res@.len() as int, n as int),
                    c1 < n,
                    c2 < n,
                    row <= res@.len(),
                    acc == sum(jtj_term(js, weights@, c1 as int, c2 as int), row as int),
                decreases res@.len() - row,
            {
                proof {
                    assert(js[row as int].len() == n);
                }
                let w = weights[row];
                acc = acc + w * w * j[row][c1] * j[row][c2];
                row = row + 1;
            }
            row_out.push(acc);
            c2 = c2 + 1;
        }
        let mut acc = whole::<T>(0);
        let mut row: usize = 0;
        while row < res.len()
            invariant
                regular::<T>(),
                js == entries(j@),
                res@.len() == weights@.len(),
                has_shape(js, res@.len() as int, n as int),
                c1 < n,
                row <= res@.len(),
                acc == sum(grad_term(js, res@, weights@, c1 as int), row as int),
            decreases res@.len() - row,
        {
            proof {
                assert(js[row as int].len() == n);
            }
            let w = weights[row];
            acc = acc + w * w * j[row][c1] * res[row];
            row = row + 1;
        }
        proof {
            assert(row_out@ =~= Seq::new(
                n as nat,
                |c2: int| sum(jtj_term(js, weights@, c1 as int, c2), res@.len() as int),
            ));
        }
        jtj.push(row_out);
        grad.push(acc);
        c1 = c1 + 1;
    }
    proof {
        assert(entries(jtj@) =~= jtj_spec(js, weights@, res@.len() as int, n as int));
        assert(grad@ =~= grad_spec(js, res@, weights@, res@.len() as int, n as int));
    }
    (jtj, grad)
}

/// The matrix with each diagonal entry grown by the damping.
pub open spec fn damped<T: Number>(a: Seq<Seq<T>>, lam: T) -> Seq<Seq<T>> {
    Seq::new(a.len(), |i: int| a[i].update(i, a[i][i].mul_spec(num::<T>(1).add_spec(lam))))
}

/// The negatives of the elements of `v`.
pub open spec fn negated<T: Number>(v: Seq<T>) -> Seq<T> {
    Seq::new(v.len(), |i: int| v[i].neg_spec())
}

/// The row from `col` up to and excluding `upto` in which the entry of column `col` is the
/// largest in magnitude, the last of them if there are several.
pub open spec fn pivot_row<T: Number>(a: Seq<Seq<T>>, col: int, upto: int) -> int
    decreases upto - col,
{
    if upto <= col + 1 {
        col
    } else {
        let p = pivot_row(a, col, upto - 1);
        if magnitude(a[p][col]).is_gt(&magnitude(a[upto - 1][col])) {
            p
        } else {
            upto - 1
        }
    }
}

/// The sequence with two elements exchanged.
pub open spec fn swapped<A>(s: Seq<A>, i: int, j: int) -> Seq<A> {
    s.update(i, s[j]).update(j, s[i])
}

/// What is left of row `r` when column `col` has been cleared from it by row `col`.
pub open spec fn cleared_row<T: Number>(a: Seq<Seq<T>>, col: int, r: int, inv: T) -> Seq<T> {
    let f = a[r][col].mul_spec(inv);
    Seq::new(
        a[r].len(),
        |k: int|
            if k >= col {
                a[r][k].sub_spec(f.mul_spec(a[col][k]))
            } else {
                a[r][k]
            },
    )
}

/// One column of the elimination: the pivot is brought to the diagonal, and the column is
/// cleared below it, unless the pivot is as good as zero.
pub open spec fn eliminate_column<T: Number, M: Elementary<T>>(
    m: M,
    a: Seq<Seq<T>>,
    b: Seq<T>,
    col: int,
) -> (Seq<Seq<T>>, Seq<T>) {
    let p = pivot_row(a, col, a.len() as int);
    let a1 = swapped(a, col, p);
    let b1 = swapped(b, col, p);
    let pivot = a1[col][col];
    if magnitude(pivot).is_lt(&decimal_of::<T, M>(m, 1, -15)) {
        (a1, b1)
    } else {
        let inv = num::<T>(1).div_spec(pivot);
        (
            Seq::new(
                a1.len(),
                |r: int|
                    if r > col {
                        cleared_row(a1, col, r, inv)
                    } else {
                        a1[r]
                    },
            ),
            Seq::new(
                b1.len(),
                |r: int|
                    if r > col {
                        b1[r].sub_spec(a1[r][col].mul_spec(inv).mul_spec(b1[col]))
                    } else {
                        b1[r]
                    },
            ),
        )
    }
}

/// The first `n` columns eliminated, one after the other.
pub open spec fn eliminated<T: Number, M: Elementary<T>>(
    m: M,
    a: Seq<Seq<T>>,
    b: Seq<T>,
    n: int,
) -> (Seq<Seq<T>>, Seq<T>)
    decreases n,
{
    if n <= 0 {
        (a, b)
    } else {
        let (a1, b1) = eliminated(m, a, b, n - 1);
        eliminate_column(m, a1, b1, n - 1)
    }
}

/// What is left of the right-hand side of row `i` when the unknowns from `i + 1` up to and
/// excluding `k`, whose values start `tail`, have been taken off.
pub open spec fn remainder<T: Number>(
    a: Seq<Seq<T>>,
    b: Seq<T>,
    tail: Seq<T>,
    i: int,
    k: int,
) -> T
    decreases k - i,
{
    if k <= i + 1 {
        b[i]
    } else {
        remainder(a, b, tail, i, k - 1).sub_spec(a[i][k - 1].mul_spec(tail[k - 2 - i]))
    }
}

/// The unknowns from `i` on, by substitution from the last row up; an unknown whose diagonal
/// entry is as good as zero is zero.
pub open spec fn back_substituted<T: Number, M: Elementary<T>>(
    m: M,
    a: Seq<Seq<T>>,
    b: Seq<T>,
    i: int,
) -> Seq<T>
    decreases a.len() - i,
{
    if i >= a.len() {
        Seq::empty()
    } else {
        let tail = back_substituted(m, a, b, i + 1);
        let s = remainder(a, b, tail, i, a.len() as int);
        let aii = a[i][i];
        let x = if magnitude(aii).is_gt(&decimal_of::<T, M>(m, 1, -15)) {
            s.div_spec(aii)
        } else {
            num::<T>(0)
        };
        seq![x] + tail
    }
}

/// The damped step: the solution of the damped system with the negative gradient on the
/// right.
pub open spec fn lm_step_spec<T: Number, M: Elementary<T>>(
    m: M,
    jtj: Seq<Seq<T>>,
    grad: Seq<T>,
    lam: T,
) -> Seq<T> {
    let (a, b) = eliminated(m, damped(jtj, lam), negated(grad), jtj.len() as int);
    back_substituted(m, a, b, 0)
}

/// The row of the pivot of column `col`.
fn find_pivot<T: Number>(a: &Vec<Vec<T>>, col: usize, n: usize) -> (res: usize)
    requires
        regular::<T>(),
        has_shape(entries(a@), n as int, n as int),
        col < n,
    ensures
        res == pivot_row(entries(a@), col as int, n as int),
        col <= res < n,
{
    let mut p: usize = col;
    let mut k: usize = col + 1;
    while k < n
        invariant
            regular::<T>(),
            has_shape(entries(a@), n as int, n as int),
            col < k <= n,
            col <= p < k,
            p == pivot_row(entries(a@), col as int, k as int),
        decreases n - k,
    {
        proof {
            assert(entries(a@)[p as int].len() == n);
            assert(entries(a@)[k as int].len() == n);
        }
        if !(abs(a[p][col]) > abs(a[k][col])) {
            p = k;
        }
        k = k + 1;
    }
    p
}

/// One column of the elimination.
fn eliminate<T: Number, M: Elementary<T>>(m: M, a: &mut Vec<Vec<T>>, b: &mut Vec<T>, col: usize)
    requires
        lawful::<T, M>(m),
        has_shape(entries(old(a)@), old(b)@.len() as int, old(b)@.len() as int),
        col < old(b)@.len(),
    ensures
        final(b)@.len() == old(b)@.len(),
        has_shape(entries(final(a)@), final(b)@.len() as int, final(b)@.len() as int),
        (entries(final(a)@), final(b)@) == eliminate_column(
            m,
            entries(old(a)@),
            old(b)@,
            col as int,
        ),
{
    let n: usize = b.len();
    let ghost a0 = entries(a@);
    let ghost b0 = b@;
    let p: usize = find_pivot(a, col, n);
    let row_c = copy_vec(&a[col]);
    let row_p = copy_vec(&a[p]);
    a.set(col, row_p);
    a.set(p, row_c);
    let bc = b[col];
    let bp = b[p];
    b.set(col, bp);
    b.set(p, bc);
    let ghost a1 = entries(a@);
    let ghost b1 = b@;
    proof {
        assert(a1 =~= swapped(a0, col as int, p as int));
        assert(b1 =~= swapped(b0, col as int, p as int));
        assert forall|i: int| 0 <= i < n implies (#[trigger] a1[i]).len() == n by {
            assert(a0[i].len() == n);
            assert(a0[col as int].len() == n);
            assert(a0[p as int].len() == n);
        }
        assert(a1[col as int].len() == n);
    }
    let pivot = a[col][col];
    if abs(pivot) < m.decimal(1, -15) {
        return ;
    }
    let inv = whole::<T>(1) / pivot;
    let mut row: usize = col + 1;
    while row < n
        invariant
            lawful::<T, M>(m),
            n == b1.len(),
            col < row <= n,
            inv == num::<T>(1).div_spec(pivot),
            has_shape(a1, n as int, n as int),
            a@.len() == n,
            b@.len() == n,
            forall|r: int|
                0 <= r < n ==> (#[trigger] a@[r])@ == (if col < r < row {
                    cleared_row(a1, col as int, r, inv)
                } else {
                    a1[r]
                }),
            forall|r: int|
                0 <= r < n ==> (#[trigger] b@[r]) == (if col < r < row {
                    b1[r].sub_spec(a1[r][col as int].mul_spec(inv).mul_spec(b1[col as int]))
                } else {
                    b1[r]
                }),
        decreases n - row,
    {
        proof {
            assert(a1[row as int].len() == n);
            assert(a1[col as int].len() == n);
        }
        let f = a[row][col] * inv;
        let mut out: Vec<T> = Vec::new();
        let mut q: usize = 0;
        while q < n
            invariant
                lawful::<T, M>(m),
                n == b1.len(),
                col < row < n,
                q <= n,
                has_shape(a1, n as int, n as int),
                a@.len() == n,
                a@[row as int]@ == a1[row as int],
                a@[col as int]@ == a1[col as int],
                a1[row as int].len() == n,
                a1[col as int].len() == n,
                f == a1[row as int][col as int].mul_spec(inv),
                out@.len() == q,
                forall|c: int|
                    0 <= c < q ==> (#[trigger] out@[c]) == cleared_row(
                        a1,
                        col as int,
                        row as int,
                        inv,
                    )[c],
            decreases n - q,
        {
            let x = a[row][q];
            if q >= col {
                out.push(x - f * a[col][q]);
            } else {
                out.push(x);
            }
            q = q + 1;
        }
        proof {
            assert(out@ =~= cleared_row(a1, col as int, row as int, inv));
        }
        a.set(row, out);
        let br = b[row] - f * b[col];
        b.set(row, br);
        row = row + 1;
    }
    proof {
        let (ae, be) = eliminate_column(m, a0, b0, col as int);
        assert(entries(a@) =~= ae);
        assert(b@ =~= be);
    }
}

/// The damped step.
pub fn lm_step<T: Number, M: Elementary<T>>(
    m: M,
    jtj: &Vec<Vec<T>>,
    grad: &Vec<T>,
    lam: T,
    n: usize,
) -> (res: Vec<T>)
    requires
        lawful::<T, M>(m),
        has_shape(entries(jtj@), n as int, n as int),
        grad@.len() == n,
    ensures
        res@ == lm_step_spec(m, entries(jtj@), grad@, lam),
        res@.len() == n,
{
    let ghost j0 = entries(jtj@);
    let mut a: Vec<Vec<T>> = Vec::new();
    let mut b: Vec<T> = Vec::new();
    let mut i: usize = 0;
    while i < n
        invariant
            lawful::<T, M>(m),
            j0 == entries(jtj@),
            has_shape(j0, n as int, n as int),
            grad@.len() == n,
            i <= n,
            a@.len() == i,
            b@.len() == i,
            forall|k: int| 0 <= k < i ==> (#[trigger] a@[k])@ == damped(j0, lam)[k],
            forall|k: int| 0 <= k < i ==> (#[trigger] b@[k]) == negated(grad@)[k],
        decreases n - i,
    {
        proof {
            assert(j0[i as int].len() == n);
        }
        let mut row = copy_vec(&jtj[i]);
        let aii = row[i];
        row.set(i, aii * (whole::<T>(1) + lam));
        a.push(row);
        b.push(grad[i].neg());
        i = i + 1;
    }
    let ghost a0 = damped(j0, lam);
    let ghost b0 = negated(grad@);
    proof {
        assert(entries(a@) =~= a0);
        assert(b@ =~= b0);
        assert forall|i: int| 0 <= i < n implies (#[trigger] entries(a@)[i]).len() == n by {
            assert(j0[i].len() == n);
        }
    }
    let mut col: usize = 0;
    while col < n
        invariant
            lawful::<T, M>(m),
            col <= n,
            b@.len() == n,
            has_shape(entries(a@), n as int, n as int),
            (entries(a@), b@) == eliminated(m, a0, b0, col as int),
        decreases n - col,
    {
        eliminate(m, &mut a, &mut b, col);
        col = col + 1;
    }
    let ghost ae = entries(a@);
    let ghost be = b@;
    let mut dp = constant_vec(whole::<T>(0), n);
    let mut left: usize = n;
    while left > 0
        invariant
            lawful::<T, M>(m),
            ae == entries(a@),
            be == b@,
            b@.len() == n,
            has_shape(ae, n as int, n as int),
            left <= n,
            dp@.len() == n,
            dp@.skip(left as int) =~= back_substituted(m, ae, be, left as int),
        decreases left,
    {
        let i: usize = left - 1;
        let ghost tail = back_substituted(m, ae, be, i + 1);
        proof {
            assert(ae[i as int].len() == n);
        }
        let mut s = b[i];
        let mut k: usize = i + 1;
        while k < n
            invariant
                lawful::<T, M>(m),
                ae == entries(a@),
                be == b@,
                ae.len() == n,
                i < n,
                ae[i as int].len() == n,
                i < k <= n,
                dp@.len() == n,
                dp@.skip(i + 1) =~= tail,
                s == remainder(ae, be, tail, i as int, k as int),
            decreases n - k,
        {
            proof {
                assert(tail[k - 1 - i] == dp@.skip(i + 1)[k - 1 - i]);
            }
            s = s - a[i][k] * dp[k];
            k = k + 1;
        }
        let aii = a[i][i];
        let x = if abs(aii) > m.decimal(1, -15) {
            s / aii
        } else {
            whole::<T>(0)
        };
        let ghost before = dp@;
        dp.set(i, x);
        proof {
            assert(dp@.skip(i as int) =~= seq![x] + before.skip(i + 1));
        }
        left = i;
    }
    proof {
        assert(dp@.skip(0) =~= dp@);
    }
    dp
}

/// Sweeps of rotations before the eigenvalue iteration settles for what it has.
pub const MAX_SWEEPS: u32 = 100;

/// The tangent, the cosine and the sine of the rotation that clears the entry `apq` between
/// the diagonal entries `app` and `aqq`: of the two angles the smaller.
pub open spec fn rotation_spec<T: Number, M: Elementary<T>>(
    m: M,
    app: T,
    aqq: T,
    apq: T,
) -> (T, T, T) {
    let theta = aqq.sub_spec(app).div_spec(num::<T>(2).mul_spec(apq));
    let root = sqrt_of(m, theta.mul_spec(theta).add_spec(num::<T>(1)));
    let t = if theta.is_ge(&num::<T>(0)) {
        num::<T>(1).div_spec(theta.add_spec(root))
    } else {
        num::<T>(-1).div_spec(theta.neg_spec().add_spec(root))
    };
    let c = num::<T>(1).div_spec(sqrt_of(m, t.mul_spec(t).add_spec(num::<T>(1))));
    (t, c, t.mul_spec(c))
}

/// The tangent, the cosine and the sine of the rotation that clears the entry `apq` between
/// the diagonal entries `app` and `aqq`: of the two angles the smaller.
pub fn rotation<T: Number, M: Elementary<T>>(m: M, app: T, aqq: T, apq: T) -> (res: (T, T, T))
    requires
        lawful::<T, M>(m),
    ensures
        res == rotation_spec(m, app, aqq, apq),
{
    let theta = (aqq - app) / (whole::<T>(2) * apq);
    let root = m.sqrt(theta * theta + whole::<T>(1));
    let t = if theta >= whole::<T>(0) {
        whole::<T>(1) / (theta + root)
    } else {
        whole::<T>(-1) / (theta.neg() + root)
    };
    let c = whole::<T>(1) / m.sqrt(t * t + whole::<T>(1));
    (t, c, t * c)
}

/// Entry (`i`, `j`) of a symmetric matrix after a rotation of rows and columns `p` and `q`.
pub open spec fn rotated_entry<T: Number>(
    a: Seq<Seq<T>>,
    p: int,
    q: int,
    t: T,
    c: T,
    s: T,
    i: int,
    j: int,
) -> T {
    let apq = a[p][q];
    if i == p && j == p {
        a[p][p].sub_spec(t.mul_spec(apq))
    } else if i == q && j == q {
        a[q][q].add_spec(t.mul_spec(apq))
    } else if (i == p && j == q) || (i == q && j == p) {
        num::<T>(0)
    } else if i == p || j == p {
        let k = if i == p {
            j
        } else {
            i
        };
        c.mul_spec(a[k][p]).sub_spec(s.mul_spec(a[k][q]))
    } else if i == q || j == q {
        let k = if i == q {
            j
        } else {
            i
        };
        s.mul_spec(a[k][p]).add_spec(c.mul_spec(a[k][q]))
    } else {
        a[i][j]
    }
}

/// A row of the accumulated rotations after one more of columns `p` and `q`.
pub open spec fn rotated_row<T: Number>(r: Seq<T>, p: int, q: int, c: T, s: T) -> Seq<T> {
    Seq::new(
        r.len(),
        |k: int|
            if k == p {
                c.mul_spec(r[p]).sub_spec(s.mul_spec(r[q]))
            } else if k == q {
                s.mul_spec(r[p]).add_spec(c.mul_spec(r[q]))
            } else {
                r[k]
            },
    )
}

/// The matrix and the accumulated rotations after the rotation that clears entry (`p`, `q`);
/// none where the entry is as good as zero.
pub open spec fn rotate_spec<T: Number, M: Elementary<T>>(
    m: M,
    a: Seq<Seq<T>>,
    v: Seq<Seq<T>>,
    p: int,
    q: int,
) -> (Seq<Seq<T>>, Seq<Seq<T>>) {
    let apq = a[p][q];
    if magnitude(apq).is_lt(&decimal_of::<T, M>(m, 1, -300)) {
        (a, v)
    } else {
        let (t, c, s) = rotation_spec(m, a[p][p], a[q][q], apq);
        let n = a.len();
        (
            Seq::new(
                n,
                |i: int| Seq::new(n, |j: int| rotated_entry(a, p, q, t, c, s, i, j)),
            ),
            Seq::new(v.len(), |i: int| rotated_row(v[i], p, q, c, s)),
        )
    }
}

/// The rotations of row `p` with the columns after it, up to and excluding `upto`.
pub open spec fn rotate_row<T: Number, M: Elementary<T>>(
    m: M,
    s: (Seq<Seq<T>>, Seq<Seq<T>>),
    p: int,
    upto: int,
) -> (Seq<Seq<T>>, Seq<Seq<T>>)
    decreases upto,
{
    if upto <= p + 1 || upto <= 0 {
        s
    } else {
        let (a, v) = rotate_row(m, s, p, upto - 1);
        rotate_spec(m, a, v, p, upto - 1)
    }
}

/// A sweep: the rotations of the first `n` rows, one after the other.
pub open spec fn sweep<T: Number, M: Elementary<T>>(
    m: M,
    s: (Seq<Seq<T>>, Seq<Seq<T>>),
    n: int,
) -> (Seq<Seq<T>>, Seq<Seq<T>>)
    decreases n,
{
    if n <= 0 {
        s
    } else {
        let r = sweep(m, s, n - 1);
        rotate_row(m, r, n - 1, s.0.len() as int)
    }
}

/// The squares of the entries of row `i` beyond the diagonal, from the first on.
pub open spec fn beyond_diagonal<T: Number>(a: Seq<Seq<T>>, i: int) -> spec_fn(int) -> T {
    |k: int| a[i][i + 1 + k].mul_spec(a[i][i + 1 + k])
}

/// The sum of the squares of the entries beyond the diagonal.
pub open spec fn off_diagonal_spec<T: Number>(a: Seq<Seq<T>>) -> T {
    sum(|i: int| sum(beyond_diagonal(a, i), a.len() - i - 1), a.len() as int)
}

/// Sweeps, at most `left` of them, until what is beyond the diagonal is as good as zero.
pub open spec fn diagonalized<T: Number, M: Elementary<T>>(
    m: M,
    s: (Seq<Seq<T>>, Seq<Seq<T>>),
    left: nat,
) -> (Seq<Seq<T>>, Seq<Seq<T>>)
    decreases left,
{
    let off = off_diagonal_spec(s.0);
    if left == 0 || sqrt_of(m, off).is_lt(&decimal_of::<T, M>(m, 1, -14)) {
        s
    } else {
        diagonalized(m, sweep(m, s, s.0.len() as int), (left - 1) as nat)
    }
}

/// The identity matrix.
pub open spec fn identity_spec<T: Number>(n: int) -> Seq<Seq<T>> {
    Seq::new(
        n as nat,
        |i: int|
            Seq::new(
                n as nat,
                |j: int|
                    if i == j {
                        num::<T>(1)
                    } else {
                        num::<T>(0)
                    },
            ),
    )
}

/// The diagonal of a matrix.
pub open spec fn diagonal<T>(a: Seq<Seq<T>>) -> Seq<T> {
    Seq::new(a.len(), |i: int| a[i][i])
}

/// The columns of a matrix as rows.
pub open spec fn transposed<T>(a: Seq<Seq<T>>) -> Seq<Seq<T>> {
    Seq::new(a.len(), |i: int| Seq::new(a.len(), |k: int| a[k][i]))
}

/// The rotation that clears entry (`p`, `q`).
fn rotate<T: Number, M: Elementary<T>>(
    m: M,
    a: &mut Vec<Vec<T>>,
    v: &mut Vec<Vec<T>>,
    n: usize,
    p: usize,
    q: usize,
)
    requires
        lawful::<T, M>(m),
        has_shape(entries(old(a)@), n as int, n as int),
        has_shape(entries(old(v)@), n as int, n as int),
        p < q < n,
    ensures
        has_shape(entries(final(a)@), n as int, n as int),
        has_shape(entries(final(v)@), n as int, n as int),
        (entries(final(a)@), entries(final(v)@)) == rotate_spec(
            m,
            entries(old(a)@),
            entries(old(v)@),
            p as int,
            q as int,
        ),
{
    let ghost a0 = entries(a@);
    let ghost v0 = entries(v@);
    proof {
        assert(a0[p as int].len() == n);
        assert(a0[q as int].len() == n);
    }
    let apq = a[p][q];
    if abs(apq) < m.decimal(1, -300) {
        return ;
    }
    let (t, c, s) = rotation(m, a[p][p], a[q][q], apq);
    let mut out: Vec<Vec<T>> = Vec::new();
    let mut i: usize = 0;
    while i < n
        invariant
            lawful::<T, M>(m),
            a0 == entries(a@),
            has_shape(a0, n as int, n as int),
            p < q < n,
            apq == a0[p as int][q as int],
            i <= n,
            out@.len() == i,
            forall|k: int|
                0 <= k < i ==> (#[trigger] out@[k])@ == Seq::new(
                    n as nat,
                    |j: int| rotated_entry(a0, p as int, q as int, t, c, s, k, j),
                ),
        decreases n - i,
    {
        let mut row: Vec<T> = Vec::new();
        let mut j: usize = 0;
        while j < n
            invariant
                lawful::<T, M>(m),
                a0 == entries(a@),
                has_shape(a0, n as int, n as int),
                p < q < n,
                apq == a0[p as int][q as int],
                i < n,
                j <= n,
                row@.len() == j,
                forall|k: int|
                    0 <= k < j ==> (#[trigger] row@[k]) == rotated_entry(
                        a0,
                        p as int,
                        q as int,
                        t,
                        c,
                        s,
                        i as int,
                        k,
                    ),
            decreases n - j,
        {
            proof {
                assert(a0[p as int].len() == n);
                assert(a0[q as int].len() == n);
                assert(a0[i as int].len() == n);
                assert(a0[j as int].len() == n);
            }
            let x = if i == p && j == p {
                a[p][p] - t * apq
            } else if i == q && j == q {
                a[q][q] + t * apq
            } else if (i == p && j == q) || (i == q && j == p) {
                whole::<T>(0)
            } else if i == p || j == p {
                let k: usize = if i == p {
                    j
                } else {
                    i
                };
                c * a[k][p] - s * a[k][q]
            } else if i == q || j == q {
                let k: usize = if i == q {
                    j
                } else {
                    i
                };
                s * a[k][p] + c * a[k][q]
            } else {
                a[i][j]
            };
            row.push(x);
            j = j + 1;
        }
        proof {
            assert(row@ =~= Seq::new(
                n as nat,
                |j: int| rotated_entry(a0, p as int, q as int, t, c, s, i as int, j),
            ));
        }
        out.push(row);
        i = i + 1;
    }
    let mut r: usize = 0;
    while r < n
        invariant
            lawful::<T, M>(m),
            has_shape(v0, n as int, n as int),
            p < q < n,
            r <= n,
            v@.len() == n,
            forall|k: int|
                0 <= k < n ==> (#[trigger] v@[k])@ == (if k < r {
                    rotated_row(v0[k], p as int, q as int, c, s)
                } else {
                    v0[k]
                }),
        decreases n - r,
    {
        proof {
            assert(v0[r as int].len() == n);
        }
        let mut row = copy_vec(&v[r]);
        let vip = row[p];
        let viq = row[q];
        row.set(p, c * vip - s * viq);
        row.set(q, s * vip + c * viq);
        proof {
            assert(row@ =~= rotated_row(v0[r as int], p as int, q as int, c, s));
        }
        v.set(r, row);
        r = r + 1;
    }
    *a = out;
    proof {
        let (ae, ve) = rotate_spec(m, a0, v0, p as int, q as int);
        assert(entries(a@) =~= ae);
        assert(entries(v@) =~= ve);
        assert forall|k: int| 0 <= k < n implies (#[trigger] entries(v@)[k]).len() == n by {
            assert(v0[k].len() == n);
        }
    }
}

/// The sum of the squares of the entries beyond the diagonal.
fn off_diagonal<T: Number>(a: &Vec<Vec<T>>, n: usize) -> (res: T)
    requires
        regular::<T>(),
        has_shape(entries(a@), n as int, n as int),
    ensures
        res == off_diagonal_spec(entries(a@)),
{
    let ghost a0 = entries(a@);
    let ghost f = |i: int| sum(beyond_diagonal(a0, i), a0.len() - i - 1);
    let mut total = whole::<T>(0);
    let mut i: usize = 0;
    while i < n
        invariant
            regular::<T>(),
            a0 == entries(a@),
            has_shape(a0, n as int, n as int),
            f == (|i: int| sum(beyond_diagonal(a0, i), a0.len() - i - 1)),
            i <= n,
            total == sum(f, i as int),
        decreases n - i,
    {
        let mut acc = whole::<T>(0);
        let mut j: usize = i + 1;
        while j < n
            invariant
                regular::<T>(),
                a0 == entries(a@),
                has_shape(a0, n as int, n as int),
                i < j <= n,
                acc == sum(beyond_diagonal(a0, i as int), j - i - 1),
            decreases n - j,
        {
            proof {
                assert(a0[i as int].len() == n);
            }
            let x = a[i][j];
            acc = acc + x * x;
            j = j + 1;
        }
        total = total + acc;
        i = i + 1;
    }
    total
}

/// The eigenvalues and the eigenvectors of a symmetric matrix: what Jacobi's rotations leave
/// on the diagonal, and the rotations accumulated.
pub open spec fn jacobi_eigen_spec<T: Number, M: Elementary<T>>(m: M, a: Seq<Seq<T>>) -> (
    Seq<T>,
    Seq<Seq<T>>,
) {
    let (d, v) = diagonalized(m, (a, identity_spec(a.len() as int)), MAX_SWEEPS as nat);
    (diagonal(d), transposed(v))
}

/// The eigenvalues and the eigenvectors of a symmetric matrix.
pub fn jacobi_eigen<T: Number, M: Elementary<T>>(m: M, a_in: &Vec<Vec<T>>, n: usize) -> (res: (
    Vec<T>,
    Vec<Vec<T>>,
))
    requires
        lawful::<T, M>(m),
        has_shape(entries(a_in@), n as int, n as int),
    ensures
        (res.0@, entries(res.1@)) == jacobi_eigen_spec(m, entries(a_in@)),
        res.0@.len() == n,
        has_shape(entries(res.1@), n as int, n as int),
{
    let mut a = copy_matrix(a_in);
    let mut v = constant_matrix(whole::<T>(0), n, n);
    proof {
        assert(entries(v@).len() == n);
        assert forall|k: int| 0 <= k < n implies (#[trigger] v@[k])@ == Seq::new(
            n as nat,
            |j: int| num::<T>(0),
        ) by {
            assert(entries(v@)[k] == v@[k]@);
            assert(v@[k]@ =~= Seq::new(n as nat, |j: int| num::<T>(0)));
        }
    }
    let mut i: usize = 0;
    while i < n
        invariant
            lawful::<T, M>(m),
            i <= n,
            v@.len() == n,
            forall|k: int|
                0 <= k < n ==> (#[trigger] v@[k])@ == (if k < i {
                    identity_spec::<T>(n as int)[k]
                } else {
                    Seq::new(n as nat, |j: int| num::<T>(0))
                }),
        decreases n - i,
    {
        let mut row = copy_vec(&v[i]);
        row.set(i, whole::<T>(1));
        proof {
            assert(row@ =~= identity_spec::<T>(n as int)[i as int]);
        }
        v.set(i, row);
        i = i + 1;
    }
    let ghost start = (entries(a_in@), identity_spec::<T>(n as int));
    proof {
        assert(entries(v@) =~= identity_spec::<T>(n as int));
        assert(has_shape(entries(v@), n as int, n as int));
    }
    let mut left: u32 = MAX_SWEEPS;
    while left > 0
        invariant
            lawful::<T, M>(m),
            has_shape(entries(a@), n as int, n as int),
            has_shape(entries(v@), n as int, n as int),
            diagonalized(m, (entries(a@), entries(v@)), left as nat) == diagonalized(
                m,
                start,
                MAX_SWEEPS as nat,
            ),
        ensures
            has_shape(entries(a@), n as int, n as int),
            has_shape(entries(v@), n as int, n as int),
            (entries(a@), entries(v@)) == diagonalized(m, start, MAX_SWEEPS as nat),
        decreases left,
    {
        let off = off_diagonal(&a, n);
        if m.sqrt(off) < m.decimal(1, -14) {
            break;
        }
        let ghost s0 = (entries(a@), entries(v@));
        let mut p: usize = 0;
        while p < n
            invariant
                lawful::<T, M>(m),
                has_shape(entries(a@), n as int, n as int),
                has_shape(entries(v@), n as int, n as int),
                s0.0.len() == n,
                p <= n,
                (entries(a@), entries(v@)) == sweep(m, s0, p as int),
            decreases n - p,
        {
            let ghost s1 = sweep(m, s0, p as int);
            let mut q: usize = p + 1;
            while q < n
                invariant
                    lawful::<T, M>(m),
                    has_shape(entries(a@), n as int, n as int),
                    has_shape(entries(v@), n as int, n as int),
                    p < q <= n,
                    (entries(a@), entries(v@)) == rotate_row(m, s1, p as int, q as int),
                decreases n - q,
            {
                rotate(m, &mut a, &mut v, n, p, q);
                q = q + 1;
            }
            p = p + 1;
        }
        left = left - 1;
    }
    let mut values: Vec<T> = Vec::new();
    let mut vectors: Vec<Vec<T>> = Vec::new();
    let mut k: usize = 0;
    while k < n
        invariant
            has_shape(entries(a@), n as int, n as int),
            has_shape(entries(v@), n as int, n as int),
            k <= n,
            values@.len() == k,
            vectors@.len() == k,
            forall|i: int| 0 <= i < k ==> (#[trigger] values@[i]) == diagonal(entries(a@))[i],
            forall|i: int|
                0 <= i < k ==> (#[trigger] vectors@[i])@ == transposed(entries(v@))[i],
        decreases n - k,
    {
        proof {
            assert(entries(a@)[k as int].len() == n);
        }
        values.push(a[k][k]);
        let mut vec_k: Vec<T> = Vec::new();
        let mut r: usize = 0;
        while r < n
            invariant
                has_shape(entries(v@), n as int, n as int),
                k < n,
                r <= n,
                vec_k@.len() == r,
                forall|i: int| 0 <= i < r ==> (#[trigger] vec_k@[i]) == entries(v@)[i][k as int],
            decreases n - r,
        {
            proof {
                assert(entries(v@)[r as int].len() == n);
            }
            vec_k.push(v[r][k]);
            r = r + 1;
        }
        proof {
            assert(vec_k@ =~= transposed(entries(v@))[k as int]);
        }
        vectors.push(vec_k);
        k = k + 1;
    }
    proof {
        assert(values@ =~= diagonal(entries(a@)));
        assert(entries(vectors@) =~= transposed(entries(v@)));
    }
    (values, vectors)
}

/// The matrix equals its transpose.
pub open spec fn is_symmetric<T>(a: Seq<Seq<T>>) -> bool {
    forall|i: int, j: int| 0 <= i < a.len() && 0 <= j < a.len() ==> #[trigger] a[i][j] == a[j][i]
}

/// A rotation keeps a symmetric matrix symmetric, to the last rounding.
pub proof fn law_rotation_keeps_symmetry<T: Number, M: Elementary<T>>(
    m: M,
    a: Seq<Seq<T>>,
    v: Seq<Seq<T>>,
    p: int,
    q: int,
)
    requires
        is_symmetric(a),
        0 <= p < q < a.len(),
    ensures
        is_symmetric(rotate_spec(m, a, v, p, q).0),
{
    let r = rotate_spec(m, a, v, p, q).0;
    if r != a {
        assert forall|i: int, j: int| 0 <= i < r.len()
            && 0 <= j < r.len() implies #[trigger] r[i][j]
            == r[j][i] by {
            assert(a[i][j] == a[j][i]);
        }
    }
}

/// The normal equations are symmetric wherever multiplication does not depend on the order
/// of its factors.
pub proof fn law_normal_equations_symmetric<T: Number>(
    j: Seq<Seq<T>>,
    weights: Seq<T>,
    rows: int,
    n: int,
)
    requires
        0 <= n,
        forall|a: T, b: T, c: T|
            (#[trigger] a.mul_spec(b)).mul_spec(c) == (#[trigger] a.mul_spec(c)).mul_spec(b),
    ensures
        is_symmetric(jtj_spec(j, weights, rows, n)),
{
    let a = jtj_spec(j, weights, rows, n);
    assert forall|c1: int, c2: int| 0 <= c1 < n && 0 <= c2 < n implies #[trigger] a[c1][c2]
        == a[c2][c1] by {
        lemma_sum_equal(jtj_term(j, weights, c1, c2), jtj_term(j, weights, c2, c1), rows);
    }
}

/// Sums of equal terms are equal.
pub proof fn lemma_sum_equal<T: Number>(f: spec_fn(int) -> T, g: spec_fn(int) -> T, n: int)
    requires
        forall|i: int| 0 <= i < n ==> #[trigger] f(i) == g(i),
    ensures
        sum(f, n) == sum(g, n),
    decreases n,
{
    if n > 0 {
        lemma_sum_equal(f, g, n - 1);
        assert(f(n - 1) == g(n - 1));
    }
}

} // verus!
