//! Static arbitrage in a surface of volatilities: detection, and repair with the smallest
//! adjustment of the offending node.
use crate::exact::{
    exact, lemma_half, lemma_literal, lemma_sign_of_factor, lemma_square, lemma_times_comm,
    lemma_times_not_negative, sqrt_exact, times,
};
use crate::number::{
    decimal_of, fmax, frac, larger, lawful, num, ratio, regular, sqrt_of, whole, Elementary, Number,
};
use crate::types::{lemma_grid_index, lemma_grid_index_distinct, LocalVolSurface};
use core::ops::Neg;
use vstd::prelude::*;
use vstd::std_specs::cmp::PartialOrdIs;
use vstd::std_specs::ops::{AddSpec, DivSpec, MulSpec, NegSpec, SubSpec};

verus! {

/// The kinds of static arbitrage.
#[derive(Debug, Clone, Copy, PartialEq, Eq, Structural)]
pub enum ViolationKind {
    /// Total variance falls from one expiry to the next at a strike.
    CalendarSpread,
    /// Total variance is not convex in the strike at an expiry.
    Butterfly,
}

/// A node at which the surface admits arbitrage, and by how much.
#[derive(Debug, Clone, Copy)]
pub struct SurfaceViolation<T> {
    pub kind: ViolationKind,
    pub i_k: usize,
    pub j_t: usize,
    pub delta: T,
}

/// The violations that were found, in the order in which they were, and the number of nodes
/// that were adjusted.
#[derive(Debug)]
pub struct SurfaceAudit<T> {
    pub violations: Vec<SurfaceViolation<T>>,
    pub repaired: usize,
}

/// Passes over the surface before the repair gives up.
pub const MAX_PASSES: usize = 50;

/// A repair under way: the volatilities, the violations found, the number of adjustments.
pub struct Repair<T> {
    pub vols: Seq<T>,
    pub violations: Seq<SurfaceViolation<T>>,
    pub repaired: int,
}

/// Total variance at a cell of a grid with expiries `ts`.
pub open spec fn cell_var<T: Number>(vols: Seq<T>, ts: Seq<T>, i: int, j: int) -> T {
    let iv = vols[i * ts.len() + j];
    let t = ts[j];
    iv.mul_spec(iv).mul_spec(t)
}

/// The cell at strike `i` and expiry `j` checked against the expiry before it. Where total
/// variance has fallen, the volatility is raised to where it has grown by a hair.
pub open spec fn calendar_cell<T: Number, M: Elementary<T>>(
    m: M,
    ts: Seq<T>,
    s: Repair<T>,
    i: int,
    j: int,
) -> Repair<T> {
    let w_prev = cell_var(s.vols, ts, i, j - 1);
    let w_cur = cell_var(s.vols, ts, i, j);
    let t = ts[j];
    if w_cur.is_lt(&w_prev) {
        Repair {
            vols: s.vols.update(
                i * ts.len() + j,
                sqrt_of(
                    m,
                    larger(w_prev.add_spec(decimal_of::<T, M>(m, 1, -8)).div_spec(t), num::<T>(0)),
                ),
            ),
            violations: s.violations.push(
                SurfaceViolation {
                    kind: ViolationKind::CalendarSpread,
                    i_k: i as usize,
                    j_t: j as usize,
                    delta: w_prev.sub_spec(w_cur),
                },
            ),
            repaired: s.repaired + 1,
        }
    } else {
        s
    }
}

/// The cell at strike `i` and expiry `j` checked against its neighbours in strike. Where
/// total variance is concave, it is lowered to a hair below their average, if that is
/// positive.
pub open spec fn butterfly_cell<T: Number, M: Elementary<T>>(
    m: M,
    ts: Seq<T>,
    s: Repair<T>,
    i: int,
    j: int,
) -> Repair<T> {
    let wm = cell_var(s.vols, ts, i - 1, j);
    let w0 = cell_var(s.vols, ts, i, j);
    let wp = cell_var(s.vols, ts, i + 1, j);
    let t = ts[j];
    let convexity = wm.sub_spec(num::<T>(2).mul_spec(w0)).add_spec(wp);
    let w0_new = frac::<T>(1, 2).mul_spec(wm.add_spec(wp)).sub_spec(decimal_of::<T, M>(m, 1, -8));
    if convexity.is_lt(&num::<T>(0)) {
        let fixed = w0_new.is_gt(&num::<T>(0));
        Repair {
            vols: if fixed {
                s.vols.update(i * ts.len() + j, sqrt_of(m, w0_new.div_spec(t)))
            } else {
                s.vols
            },
            violations: s.violations.push(
                SurfaceViolation {
                    kind: ViolationKind::Butterfly,
                    i_k: i as usize,
                    j_t: j as usize,
                    delta: convexity.neg_spec(),
                },
            ),
            repaired: if fixed {
                s.repaired + 1
            } else {
                s.repaired
            },
        }
    } else {
        s
    }
}

/// The first `n` cells of strike `i` that have an expiry before them, one after the other.
pub open spec fn calendar_row<T: Number, M: Elementary<T>>(
    m: M,
    ts: Seq<T>,
    s: Repair<T>,
    i: int,
    n: int,
) -> Repair<T>
    decreases n,
{
    if n <= 0 {
        s
    } else {
        calendar_cell(m, ts, calendar_row(m, ts, s, i, n - 1), i, n)
    }
}

/// The first `n` strikes, one after the other.
pub open spec fn calendar_sweep<T: Number, M: Elementary<T>>(
    m: M,
    ts: Seq<T>,
    s: Repair<T>,
    n: int,
) -> Repair<T>
    decreases n,
{
    if n <= 0 {
        s
    } else {
        calendar_row(m, ts, calendar_sweep(m, ts, s, n - 1), n - 1, ts.len() - 1)
    }
}

/// The first `n` cells of expiry `j` that have a strike on either side, one after the other.
pub open spec fn butterfly_column<T: Number, M: Elementary<T>>(
    m: M,
    ts: Seq<T>,
    s: Repair<T>,
    j: int,
    n: int,
) -> Repair<T>
    decreases n,
{
    if n <= 0 {
        s
    } else {
        butterfly_cell(m, ts, butterfly_column(m, ts, s, j, n - 1), n, j)
    }
}

/// The first `n` expiries, one after the other.
pub open spec fn butterfly_sweep<T: Number, M: Elementary<T>>(
    m: M,
    ts: Seq<T>,
    s: Repair<T>,
    nk: int,
    n: int,
) -> Repair<T>
    decreases n,
{
    if n <= 0 {
        s
    } else {
        butterfly_column(m, ts, butterfly_sweep(m, ts, s, nk, n - 1), n - 1, nk - 2)
    }
}

/// One pass: all cells against the expiry before them, then all against their neighbours.
pub open spec fn repair_pass_spec<T: Number, M: Elementary<T>>(
    m: M,
    ts: Seq<T>,
    nk: int,
    s: Repair<T>,
) -> Repair<T> {
    butterfly_sweep(m, ts, calendar_sweep(m, ts, s, nk), nk, ts.len() as int)
}

/// Passes over the surface, at most `n`, until one finds nothing.
pub open spec fn repair_passes<T: Number, M: Elementary<T>>(
    m: M,
    ts: Seq<T>,
    nk: int,
    s: Repair<T>,
    n: nat,
) -> Repair<T>
    decreases n,
{
    if n == 0 {
        s
    } else {
        let next = repair_pass_spec(m, ts, nk, s);
        if next.violations.len() == s.violations.len() {
            next
        } else {
            repair_passes(m, ts, nk, next, (n - 1) as nat)
        }
    }
}

/// What a pass keeps: the number of volatilities, the violations found before it, and that
/// there are no more adjustments than violations.
pub open spec fn extends<T>(a: Repair<T>, b: Repair<T>) -> bool {
    &&& b.vols.len() == a.vols.len()
    &&& a.violations.len() <= b.violations.len()
    &&& b.violations.take(a.violations.len() as int) =~= a.violations
    &&& a.repaired <= b.repaired
    &&& b.repaired - a.repaired <= b.violations.len() - a.violations.len()
}

/// A repair in the hands of a running pass.
#[verifier::inline]
pub open spec fn state<T>(
    vols: Seq<T>,
    violations: Seq<SurfaceViolation<T>>,
    repaired: int,
) -> Repair<
    T,
> {
    Repair { vols, violations, repaired }
}

/// Total variance at a cell.
fn total_var_raw<T: Number>(vols: &Vec<T>, ts: &Vec<T>, nk: usize, i: usize, j: usize) -> (res: T)
    requires
        regular::<T>(),
        vols@.len() == nk * ts@.len(),
        i < nk,
        j < ts@.len(),
    ensures
        res == cell_var(vols@, ts@, i as int, j as int),
        i * ts@.len() + j < vols@.len(),
{
    proof {
        lemma_grid_index(i as int, j as int, nk as int, ts@.len() as int);
        assert(vols.len() <= usize::MAX);
    }
    let iv = vols[i * ts.len() + j];
    iv * iv * ts[j]
}

/// One cell against the expiry before it.
fn check_calendar<T: Number, M: Elementary<T>>(
    m: M,
    surf: &mut LocalVolSurface<T>,
    violations: &mut Vec<SurfaceViolation<T>>,
    repaired: &mut usize,
    i: usize,
    j: usize,
)
    requires
        lawful::<T, M>(m),
        old(surf).wf(),
        i < old(surf).strikes@.len(),
        1 <= j < old(surf).expiries@.len(),
        *old(repaired) <= old(violations)@.len(),
    ensures
        final(surf).wf(),
        final(surf).strikes == old(surf).strikes,
        final(surf).expiries == old(surf).expiries,
        *final(repaired) <= final(violations)@.len(),
        state(final(surf).local_vols@, final(violations)@, *final(repaired) as int)
            == calendar_cell(
            m,
            old(surf).expiries@,
            state(old(surf).local_vols@, old(violations)@, *old(repaired) as int),
            i as int,
            j as int,
        ),
{
    let nk: usize = surf.strikes.len();
    let nt: usize = surf.expiries.len();
    let w_prev = total_var_raw(&surf.local_vols, &surf.expiries, nk, i, j - 1);
    let w_cur = total_var_raw(&surf.local_vols, &surf.expiries, nk, i, j);
    if w_cur < w_prev {
        let delta = w_prev - w_cur;
        violations.push(
            SurfaceViolation { kind: ViolationKind::CalendarSpread, i_k: i, j_t: j, delta },
        );
        let t = surf.expiries[j];
        let iv = m.sqrt(fmax((w_prev + m.decimal(1, -8)) / t, whole::<T>(0)));
        proof {
            lemma_grid_index(i as int, j as int, nk as int, nt as int);
            assert(surf.local_vols.len() <= usize::MAX);
            assert(violations.len() <= usize::MAX);
        }
        surf.local_vols.set(i * nt + j, iv);
        *repaired = *repaired + 1;
    }
}

/// One cell against its neighbours in strike.
fn check_butterfly<T: Number, M: Elementary<T>>(
    m: M,
    surf: &mut LocalVolSurface<T>,
    violations: &mut Vec<SurfaceViolation<T>>,
    repaired: &mut usize,
    i: usize,
    j: usize,
)
    requires
        lawful::<T, M>(m),
        old(surf).wf(),
        1 <= i < old(surf).strikes@.len() - 1,
        j < old(surf).expiries@.len(),
        *old(repaired) <= old(violations)@.len(),
    ensures
        final(surf).wf(),
        final(surf).strikes == old(surf).strikes,
        final(surf).expiries == old(surf).expiries,
        *final(repaired) <= final(violations)@.len(),
        state(final(surf).local_vols@, final(violations)@, *final(repaired) as int)
            == butterfly_cell(
            m,
            old(surf).expiries@,
            state(old(surf).local_vols@, old(violations)@, *old(repaired) as int),
            i as int,
            j as int,
        ),
{
    let nk: usize = surf.strikes.len();
    let nt: usize = surf.expiries.len();
    let wm = total_var_raw(&surf.local_vols, &surf.expiries, nk, i - 1, j);
    let w0 = total_var_raw(&surf.local_vols, &surf.expiries, nk, i, j);
    let wp = total_var_raw(&surf.local_vols, &surf.expiries, nk, i + 1, j);
    let convexity = wm - whole::<T>(2) * w0 + wp;
    if convexity < whole::<T>(0) {
        violations.push(
            SurfaceViolation {
                kind: ViolationKind::Butterfly,
                i_k: i,
                j_t: j,
                delta: convexity.neg(),
            },
        );
        let w0_new = ratio::<T>(1, 2) * (wm + wp) - m.decimal(1, -8);
        if w0_new > whole::<T>(0) {
            let t = surf.expiries[j];
            let iv = m.sqrt(w0_new / t);
            proof {
                lemma_grid_index(i as int, j as int, nk as int, nt as int);
                assert(surf.local_vols.len() <= usize::MAX);
                assert(violations.len() <= usize::MAX);
            }
            surf.local_vols.set(i * nt + j, iv);
            *repaired = *repaired + 1;
        }
    }
}

/// One pass over the surface.
pub fn repair_pass<T: Number, M: Elementary<T>>(
    m: M,
    surf: &mut LocalVolSurface<T>,
    violations: &mut Vec<SurfaceViolation<T>>,
    repaired: &mut usize,
)
    requires
        lawful::<T, M>(m),
        old(surf).wf(),
        *old(repaired) <= old(violations)@.len(),
    ensures
        final(surf).wf(),
        final(surf).strikes == old(surf).strikes,
        final(surf).expiries == old(surf).expiries,
        *final(repaired) <= final(violations)@.len(),
        state(final(surf).local_vols@, final(violations)@, *final(repaired) as int)
            == repair_pass_spec(
            m,
            old(surf).expiries@,
            old(surf).strikes@.len() as int,
            state(old(surf).local_vols@, old(violations)@, *old(repaired) as int),
        ),
{
    let nk: usize = surf.strikes.len();
    let nt: usize = surf.expiries.len();
    let ghost strikes = surf.strikes;
    let ghost expiries = surf.expiries;
    let ghost ts = surf.expiries@;
    let ghost s0 = state(surf.local_vols@, violations@, *repaired as int);
    let mut i: usize = 0;
    while i < nk
        invariant
            lawful::<T, M>(m),
            surf.wf(),
            surf.strikes == strikes,
            surf.expiries == expiries,
            ts == expiries@,
            nk == strikes@.len(),
            nt == ts.len(),
            *repaired <= violations@.len(),
            i <= nk,
            state(surf.local_vols@, violations@, *repaired as int) == calendar_sweep(
                m,
                ts,
                s0,
                i as int,
            ),
        decreases nk - i,
    {
        let mut j: usize = 1;
        while j < nt
            invariant
                lawful::<T, M>(m),
                surf.wf(),
                surf.strikes == strikes,
                surf.expiries == expiries,
                ts == expiries@,
                nk == strikes@.len(),
                nt == ts.len(),
                *repaired <= violations@.len(),
                i < nk,
                1 <= j,
                j <= nt || nt == 0 && j == 1,
                state(surf.local_vols@, violations@, *repaired as int) == calendar_row(
                    m,
                    ts,
                    calendar_sweep(m, ts, s0, i as int),
                    i as int,
                    j - 1,
                ),
            decreases nt - j,
        {
            check_calendar(m, surf, violations, repaired, i, j);
            j = j + 1;
        }
        i = i + 1;
    }
    let ghost s1 = calendar_sweep(m, ts, s0, nk as int);
    let mut j: usize = 0;
    while j < nt
        invariant
            lawful::<T, M>(m),
            surf.wf(),
            surf.strikes == strikes,
            surf.expiries == expiries,
            ts == expiries@,
            nk == strikes@.len(),
            nt == ts.len(),
            *repaired <= violations@.len(),
            j <= nt,
            state(surf.local_vols@, violations@, *repaired as int) == butterfly_sweep(
                m,
                ts,
                s1,
                nk as int,
                j as int,
            ),
        decreases nt - j,
    {
        let mut i: usize = 1;
        while i + 1 < nk
            invariant
                lawful::<T, M>(m),
                surf.wf(),
                surf.strikes == strikes,
                surf.expiries == expiries,
                ts == expiries@,
                nk == strikes@.len(),
                nt == ts.len(),
                *repaired <= violations@.len(),
                j < nt,
                1 <= i,
                i + 1 <= nk || nk < 2 && i == 1,
                state(surf.local_vols@, violations@, *repaired as int) == butterfly_column(
                    m,
                    ts,
                    butterfly_sweep(m, ts, s1, nk as int, j as int),
                    j as int,
                    i - 1,
                ),
            decreases nk - i,
        {
            check_butterfly(m, surf, violations, repaired, i, j);
            i = i + 1;
        }
        j = j + 1;
    }
}

/// The surface checked and repaired in place: passes until one finds no violation, or until
/// their number is exhausted. The axes stay as they are.
pub fn check_and_repair_surface<T: Number, M: Elementary<T>>(
    m: M,
    surf: &mut LocalVolSurface<T>,
) -> (res: SurfaceAudit<T>)
    requires
        lawful::<T, M>(m),
        old(surf).wf(),
    ensures
        final(surf).wf(),
        final(surf).strikes == old(surf).strikes,
        final(surf).expiries == old(surf).expiries,
        state(final(surf).local_vols@, res.violations@, res.repaired as int) == repair_passes(
            m,
            old(surf).expiries@,
            old(surf).strikes@.len() as int,
            state(old(surf).local_vols@, Seq::empty(), 0),
            MAX_PASSES as nat,
        ),
{
    let mut violations: Vec<SurfaceViolation<T>> = Vec::new();
    let mut repaired: usize = 0;
    let mut left: usize = MAX_PASSES;
    let ghost strikes = surf.strikes;
    let ghost expiries = surf.expiries;
    let ghost ts = surf.expiries@;
    let ghost nk = surf.strikes@.len() as int;
    let ghost whole_run = repair_passes(
        m,
        ts,
        nk,
        state(surf.local_vols@, Seq::empty(), 0),
        MAX_PASSES as nat,
    );
    proof {
        assert(violations@ =~= Seq::empty());
    }
    while left > 0
        invariant
            lawful::<T, M>(m),
            surf.wf(),
            surf.strikes == strikes,
            surf.expiries == expiries,
            strikes == old(surf).strikes,
            expiries == old(surf).expiries,
            ts == expiries@,
            nk == strikes@.len(),
            repaired <= violations@.len(),
            whole_run == repair_passes(
                m,
                ts,
                nk,
                state(old(surf).local_vols@, Seq::empty(), 0),
                MAX_PASSES as nat,
            ),
            repair_passes(
                m,
                ts,
                nk,
                state(surf.local_vols@, violations@, repaired as int),
                left as nat,
            ) == whole_run,
        decreases left,
    {
        let found: usize = violations.len();
        repair_pass(m, surf, &mut violations, &mut repaired);
        if violations.len() == found {
            return SurfaceAudit { violations, repaired };
        }
        left = left - 1;
    }
    SurfaceAudit { violations, repaired }
}

/// Total variance has not fallen since the expiry before.
pub open spec fn calendar_ok<T: Number>(vols: Seq<T>, ts: Seq<T>, i: int, j: int) -> bool {
    !cell_var(vols, ts, i, j).is_lt(&cell_var(vols, ts, i, j - 1))
}

/// Total variance is convex in the strike.
pub open spec fn butterfly_ok<T: Number>(vols: Seq<T>, ts: Seq<T>, i: int, j: int) -> bool {
    let wm = cell_var(vols, ts, i - 1, j);
    let w0 = cell_var(vols, ts, i, j);
    let wp = cell_var(vols, ts, i + 1, j);
    !wm.sub_spec(num::<T>(2).mul_spec(w0)).add_spec(wp).is_lt(&num::<T>(0))
}

/// The surface admits neither kind of arbitrage.
pub open spec fn is_clean<T: Number>(vols: Seq<T>, ts: Seq<T>, nk: int) -> bool {
    &&& forall|i: int, j: int|
        0 <= i < nk && 1 <= j < ts.len() ==> #[trigger] calendar_ok(vols, ts, i, j)
    &&& forall|i: int, j: int|
        1 <= i < nk - 1 && 0 <= j < ts.len() ==> #[trigger] butterfly_ok(vols, ts, i, j)
}

/// Every volatility that differs belongs to a violation found in between.
pub open spec fn accounted<T>(a: Repair<T>, b: Repair<T>, nt: int) -> bool {
    forall|c: int|
        0 <= c < a.vols.len() && #[trigger] a.vols[c] != b.vols[c] ==> exists|k: int|
            a.violations.len() <= k < b.violations.len()
                && c == (#[trigger] b.violations[k]).i_k * nt
                + b.violations[k].j_t
}

/// Steps in a row.
proof fn lemma_extends_chain<T>(a: Repair<T>, b: Repair<T>, c: Repair<T>, nt: int)
    requires
        extends(a, b),
        extends(b, c),
        accounted(a, b, nt),
        accounted(b, c, nt),
    ensures
        extends(a, c),
        accounted(a, c, nt),
{
    assert(c.violations.take(a.violations.len() as int) =~= a.violations) by {
        assert forall|k: int| 0 <= k < a.violations.len() implies c.violations[k]
            == a.violations[k] by {
            assert(c.violations.take(b.violations.len() as int)[k] == b.violations[k]);
            assert(b.violations.take(a.violations.len() as int)[k] == a.violations[k]);
        }
    }
    assert forall|i: int| 0 <= i < a.vols.len() && #[trigger] a.vols[i] != c.vols[i] implies exists|
        k: int,
    |
        a.violations.len() <= k < c.violations.len() && i == (#[trigger] c.violations[k]).i_k * nt
            + c.violations[k].j_t by {
        if a.vols[i] != b.vols[i] {
            let k = choose|k: int|
                a.violations.len() <= k < b.violations.len() && i == (
                #[trigger] b.violations[k]).i_k * nt + b.violations[k].j_t;
            assert(c.violations.take(b.violations.len() as int)[k] == b.violations[k]);
            assert(c.violations[k] == b.violations[k]);
        } else {
            assert(b.vols[i] != c.vols[i]);
        }
    }
}

proof fn lemma_calendar_row<T: Number, M: Elementary<T>>(
    m: M,
    ts: Seq<T>,
    nk: int,
    s: Repair<T>,
    i: int,
    n: int,
)
    requires
        s.vols.len() == nk * ts.len(),
        0 <= i < nk <= usize::MAX,
        n < ts.len() <= usize::MAX,
    ensures
        extends(s, calendar_row(m, ts, s, i, n)),
        accounted(s, calendar_row(m, ts, s, i, n), ts.len() as int),
        calendar_row(m, ts, s, i, n).violations.len() == s.violations.len() ==> {
            &&& calendar_row(m, ts, s, i, n) == s
            &&& forall|j: int| 1 <= j <= n ==> #[trigger] calendar_ok(s.vols, ts, i, j)
        },
    decreases n,
{
    if n <= 0 {
        assert(s.violations.take(s.violations.len() as int) =~= s.violations);
    } else {
        let a = calendar_row(m, ts, s, i, n - 1);
        let b = calendar_cell(m, ts, a, i, n);
        lemma_calendar_row(m, ts, nk, s, i, n - 1);
        lemma_grid_index(i, n, nk, ts.len() as int);
        assert(extends(a, b)) by {
            assert(b.violations.take(a.violations.len() as int) =~= a.violations);
        }
        assert(accounted(a, b, ts.len() as int)) by {
            if b.violations.len() > a.violations.len() {
                let k = a.violations.len() as int;
                assert(b.violations[k].i_k * ts.len() + b.violations[k].j_t == i * ts.len() + n);
            }
        }
        lemma_extends_chain(s, a, b, ts.len() as int);
    }
}

proof fn lemma_calendar_sweep<T: Number, M: Elementary<T>>(
    m: M,
    ts: Seq<T>,
    nk: int,
    s: Repair<T>,
    n: int,
)
    requires
        s.vols.len() == nk * ts.len(),
        n <= nk <= usize::MAX,
        0 < ts.len() <= usize::MAX,
    ensures
        extends(s, calendar_sweep(m, ts, s, n)),
        accounted(s, calendar_sweep(m, ts, s, n), ts.len() as int),
        calendar_sweep(m, ts, s, n).violations.len() == s.violations.len() ==> {
            &&& calendar_sweep(m, ts, s, n) == s
            &&& forall|i: int, j: int|
                0 <= i < n && 1 <= j < ts.len() ==> #[trigger] calendar_ok(s.vols, ts, i, j)
        },
    decreases n,
{
    if n <= 0 {
        assert(s.violations.take(s.violations.len() as int) =~= s.violations);
    } else {
        let a = calendar_sweep(m, ts, s, n - 1);
        lemma_calendar_sweep(m, ts, nk, s, n - 1);
        lemma_calendar_row(m, ts, nk, a, n - 1, ts.len() - 1);
        lemma_extends_chain(
            s,
            a,
            calendar_row(m, ts, a, n - 1, ts.len() - 1),
            ts.len() as int,
        );
    }
}

proof fn lemma_butterfly_column<T: Number, M: Elementary<T>>(
    m: M,
    ts: Seq<T>,
    nk: int,
    s: Repair<T>,
    j: int,
    n: int,
)
    requires
        s.vols.len() == nk * ts.len(),
        n < nk <= usize::MAX,
        0 <= j < ts.len() <= usize::MAX,
    ensures
        extends(s, butterfly_column(m, ts, s, j, n)),
        accounted(s, butterfly_column(m, ts, s, j, n), ts.len() as int),
        butterfly_column(m, ts, s, j, n).violations.len() == s.violations.len() ==> {
            &&& butterfly_column(m, ts, s, j, n) == s
            &&& forall|i: int| 1 <= i <= n ==> #[trigger] butterfly_ok(s.vols, ts, i, j)
        },
    decreases n,
{
    if n <= 0 {
        assert(s.violations.take(s.violations.len() as int) =~= s.violations);
    } else {
        let a = butterfly_column(m, ts, s, j, n - 1);
        let b = butterfly_cell(m, ts, a, n, j);
        lemma_butterfly_column(m, ts, nk, s, j, n - 1);
        lemma_grid_index(n, j, nk, ts.len() as int);
        assert(extends(a, b)) by {
            assert(b.violations.take(a.violations.len() as int) =~= a.violations);
        }
        assert(accounted(a, b, ts.len() as int)) by {
            if b.violations.len() > a.violations.len() {
                let k = a.violations.len() as int;
                assert(b.violations[k].i_k * ts.len() + b.violations[k].j_t == n * ts.len() + j);
            }
        }
        lemma_extends_chain(s, a, b, ts.len() as int);
    }
}

proof fn lemma_butterfly_sweep<T: Number, M: Elementary<T>>(
    m: M,
    ts: Seq<T>,
    s: Repair<T>,
    nk: int,
    n: int,
)
    requires
        s.vols.len() == nk * ts.len(),
        0 <= nk <= usize::MAX,
        n <= ts.len() <= usize::MAX,
    ensures
        extends(s, butterfly_sweep(m, ts, s, nk, n)),
        accounted(s, butterfly_sweep(m, ts, s, nk, n), ts.len() as int),
        butterfly_sweep(m, ts, s, nk, n).violations.len() == s.violations.len() ==> {
            &&& butterfly_sweep(m, ts, s, nk, n) == s
            &&& forall|i: int, j: int|
                1 <= i < nk - 1 && 0 <= j < n ==> #[trigger] butterfly_ok(s.vols, ts, i, j)
        },
    decreases n,
{
    if n <= 0 {
        assert(s.violations.take(s.violations.len() as int) =~= s.violations);
    } else {
        let a = butterfly_sweep(m, ts, s, nk, n - 1);
        lemma_butterfly_sweep(m, ts, s, nk, n - 1);
        lemma_butterfly_column(m, ts, nk, a, n - 1, nk - 2);
        lemma_extends_chain(s, a, butterfly_column(m, ts, a, n - 1, nk - 2), ts.len() as int);
    }
}

/// A pass adds to the violations and never takes any back, adjusts no more nodes than it
/// finds violations, and touches no node without reporting it. A pass that finds nothing
/// leaves the surface as it is, and then the surface is clean.
pub proof fn law_repair_pass<T: Number, M: Elementary<T>>(m: M, ts: Seq<T>, nk: int, s: Repair<T>)
    requires
        s.vols.len() == nk * ts.len(),
        0 <= nk <= usize::MAX,
        ts.len() <= usize::MAX,
    ensures
        extends(s, repair_pass_spec(m, ts, nk, s)),
        accounted(s, repair_pass_spec(m, ts, nk, s), ts.len() as int),
        repair_pass_spec(m, ts, nk, s).violations.len() == s.violations.len() ==> repair_pass_spec(
            m,
            ts,
            nk,
            s,
        ) == s && is_clean(s.vols, ts, nk),
{
    let a = calendar_sweep(m, ts, s, nk);
    if ts.len() > 0 {
        lemma_calendar_sweep(m, ts, nk, s, nk);
    } else {
        lemma_no_expiries(m, ts, s, nk);
        assert(s.violations.take(s.violations.len() as int) =~= s.violations);
    }
    lemma_butterfly_sweep(m, ts, a, nk, ts.len() as int);
    lemma_extends_chain(s, a, repair_pass_spec(m, ts, nk, s), ts.len() as int);
}

/// Without expiries there is nothing to sweep.
proof fn lemma_no_expiries<T: Number, M: Elementary<T>>(m: M, ts: Seq<T>, s: Repair<T>, n: int)
    requires
        ts.len() == 0,
    ensures
        calendar_sweep(m, ts, s, n) == s,
    decreases n,
{
    if n > 0 {
        lemma_no_expiries(m, ts, s, n - 1);
    }
}

/// The pass applied `n` times.
pub open spec fn passes_in_full<T: Number, M: Elementary<T>>(
    m: M,
    ts: Seq<T>,
    nk: int,
    s: Repair<T>,
    n: nat,
) -> Repair<T>
    decreases n,
{
    if n == 0 {
        s
    } else {
        passes_in_full(m, ts, nk, repair_pass_spec(m, ts, nk, s), (n - 1) as nat)
    }
}

/// A repair ends with a clean surface, or after all the passes that it may take. A surface
/// that is clean to begin with comes out as it went in, with no violations.
pub proof fn law_repair_ends<T: Number, M: Elementary<T>>(
    m: M,
    ts: Seq<T>,
    nk: int,
    s: Repair<T>,
    n: nat,
)
    requires
        s.vols.len() == nk * ts.len(),
        0 <= nk <= usize::MAX,
        ts.len() <= usize::MAX,
    ensures
        is_clean(repair_passes(m, ts, nk, s, n).vols, ts, nk) || repair_passes(m, ts, nk, s, n)
            == passes_in_full(m, ts, nk, s, n),
        extends(s, repair_passes(m, ts, nk, s, n)),
        accounted(s, repair_passes(m, ts, nk, s, n), ts.len() as int),
        is_clean(s.vols, ts, nk) ==> repair_passes(m, ts, nk, s, n) == s,
    decreases n,
{
    if is_clean(s.vols, ts, nk) {
        lemma_clean_pass(m, ts, nk, s);
    }
    if n == 0 {
        assert(s.violations.take(s.violations.len() as int) =~= s.violations);
    } else {
        let next = repair_pass_spec(m, ts, nk, s);
        law_repair_pass(m, ts, nk, s);
        if next.violations.len() != s.violations.len() {
            law_repair_ends(m, ts, nk, next, (n - 1) as nat);
            lemma_extends_chain(
                s,
                next,
                repair_passes(m, ts, nk, next, (n - 1) as nat),
                ts.len() as int,
            );
        }
    }
}

/// A clean surface goes through a pass as it is.
proof fn lemma_clean_pass<T: Number, M: Elementary<T>>(m: M, ts: Seq<T>, nk: int, s: Repair<T>)
    requires
        is_clean(s.vols, ts, nk),
    ensures
        repair_pass_spec(m, ts, nk, s) == s,
{
    lemma_clean_calendar(m, ts, nk, s, nk);
    lemma_clean_butterfly(m, ts, nk, s, ts.len() as int);
}

proof fn lemma_clean_calendar<T: Number, M: Elementary<T>>(
    m: M,
    ts: Seq<T>,
    nk: int,
    s: Repair<T>,
    n: int,
)
    requires
        is_clean(s.vols, ts, nk),
        n <= nk,
    ensures
        calendar_sweep(m, ts, s, n) == s,
    decreases n,
{
    if n > 0 {
        lemma_clean_calendar(m, ts, nk, s, n - 1);
        lemma_clean_row(m, ts, nk, s, n - 1, ts.len() - 1);
    }
}

proof fn lemma_clean_row<T: Number, M: Elementary<T>>(
    m: M,
    ts: Seq<T>,
    nk: int,
    s: Repair<T>,
    i: int,
    n: int,
)
    requires
        is_clean(s.vols, ts, nk),
        0 <= i < nk,
        n < ts.len(),
    ensures
        calendar_row(m, ts, s, i, n) == s,
    decreases n,
{
    if n > 0 {
        lemma_clean_row(m, ts, nk, s, i, n - 1);
        assert(calendar_ok(s.vols, ts, i, n));
    }
}

proof fn lemma_clean_butterfly<T: Number, M: Elementary<T>>(
    m: M,
    ts: Seq<T>,
    nk: int,
    s: Repair<T>,
    n: int,
)
    requires
        is_clean(s.vols, ts, nk),
        n <= ts.len(),
    ensures
        butterfly_sweep(m, ts, s, nk, n) == s,
    decreases n,
{
    if n > 0 {
        lemma_clean_butterfly(m, ts, nk, s, n - 1);
        lemma_clean_column(m, ts, nk, s, n - 1, nk - 2);
    }
}

proof fn lemma_clean_column<T: Number, M: Elementary<T>>(
    m: M,
    ts: Seq<T>,
    nk: int,
    s: Repair<T>,
    j: int,
    n: int,
)
    requires
        is_clean(s.vols, ts, nk),
        0 <= j < ts.len(),
        n < nk - 1,
    ensures
        butterfly_column(m, ts, s, j, n) == s,
    decreases n,
{
    if n > 0 {
        lemma_clean_column(m, ts, nk, s, j, n - 1);
        assert(butterfly_ok(s.vols, ts, n, j));
    }
}

/// A check against the expiry before repairs its cell: without rounding, total variance has
/// not fallen there any more, and no other cell has changed.
pub proof fn law_calendar_cell_repairs<T: Number, M: Elementary<T>>(
    m: M,
    v: spec_fn(T) -> real,
    ts: Seq<T>,
    nk: int,
    s: Repair<T>,
    i: int,
    j: int,
)
    requires
        exact(v),
        sqrt_exact(m, v),
        v(decimal_of::<T, M>(m, 1, -8)) >= 0real,
        s.vols.len() == nk * ts.len(),
        0 <= i < nk,
        1 <= j < ts.len(),
        v(ts[j]) > 0real,
        v(ts[j - 1]) >= 0real,
    ensures
        calendar_ok(calendar_cell(m, ts, s, i, j).vols, ts, i, j),
        forall|a: int, b: int|
            0 <= a < nk && 0 <= b < ts.len() && (a != i || b != j) ==> #[trigger] cell_var(
                calendar_cell(m, ts, s, i, j).vols,
                ts,
                a,
                b,
            ) == cell_var(s.vols, ts, a, b),
{
    let nt = ts.len() as int;
    let r = calendar_cell(m, ts, s, i, j);
    lemma_grid_index(i, j, nk, nt);
    assert forall|a: int, b: int|
        0 <= a < nk && 0 <= b < nt && (a != i || b != j) implies #[trigger] cell_var(
        r.vols,
        ts,
        a,
        b,
    ) == cell_var(s.vols, ts, a, b) by {
        lemma_grid_index(a, b, nk, nt);
        if a * nt + b == i * nt + j {
            lemma_grid_index_distinct(a, b, i, j, nt);
        }
    }
    let w_prev = cell_var(s.vols, ts, i, j - 1);
    assert(cell_var(r.vols, ts, i, j - 1) == w_prev);
    if cell_var(s.vols, ts, i, j).is_lt(&w_prev) {
        let q = w_prev.add_spec(decimal_of::<T, M>(m, 1, -8)).div_spec(ts[j]);
        let old = s.vols[i * nt + (j - 1)];
        lemma_square(v(old));
        lemma_times_not_negative(times(v(old), v(old)), v(ts[j - 1]));
        lemma_times_comm(v(q), v(ts[j]));
        lemma_sign_of_factor(v(ts[j]), v(q));
        assert(v(larger(q, num::<T>(0))) == v(q));
    }
}

/// A check against the neighbours repairs its cell, where it changes it: without rounding,
/// total variance is convex there.
pub proof fn law_butterfly_cell_repairs<T: Number, M: Elementary<T>>(
    m: M,
    v: spec_fn(T) -> real,
    ts: Seq<T>,
    nk: int,
    s: Repair<T>,
    i: int,
    j: int,
)
    requires
        exact(v),
        sqrt_exact(m, v),
        v(decimal_of::<T, M>(m, 1, -8)) >= 0real,
        s.vols.len() == nk * ts.len(),
        1 <= i < nk - 1,
        0 <= j < ts.len(),
        v(ts[j]) > 0real,
    ensures
        ({
            let r = butterfly_cell(m, ts, s, i, j);
            r.repaired > s.repaired || r == s ==> butterfly_ok(r.vols, ts, i, j)
        }),
{
    let nt = ts.len() as int;
    let r = butterfly_cell(m, ts, s, i, j);
    lemma_grid_index(i, j, nk, nt);
    lemma_grid_index(i - 1, j, nk, nt);
    lemma_grid_index(i + 1, j, nk, nt);
    if (i - 1) * nt + j == i * nt + j {
        lemma_grid_index_distinct(i - 1, j, i, j, nt);
    }
    if (i + 1) * nt + j == i * nt + j {
        lemma_grid_index_distinct(i + 1, j, i, j, nt);
    }
    let wm = cell_var(s.vols, ts, i - 1, j);
    let wp = cell_var(s.vols, ts, i + 1, j);
    if r.repaired > s.repaired {
        assert(cell_var(r.vols, ts, i - 1, j) == wm);
        assert(cell_var(r.vols, ts, i + 1, j) == wp);
        let w_new = frac::<T>(1, 2).mul_spec(wm.add_spec(wp)).sub_spec(
            decimal_of::<T, M>(m, 1, -8),
        );
        let q = w_new.div_spec(ts[j]);
        lemma_half::<T>(v);
        lemma_literal(1real / 2real, v(wm) + v(wp));
        lemma_times_comm(v(q), v(ts[j]));
        lemma_sign_of_factor(v(ts[j]), v(q));
        let w0 = cell_var(r.vols, ts, i, j);
        assert(v(w0) == v(w_new));
        lemma_literal(2real, v(w0));
    } else if r == s {
        let w0 = cell_var(s.vols, ts, i, j);
        let convexity = wm.sub_spec(num::<T>(2).mul_spec(w0)).add_spec(wp);
        if convexity.is_lt(&num::<T>(0)) {
            assert(r.violations.len() == s.violations.len() + 1);
        }
    }
}

/// The first `n` cells of a row are repaired after them, and the other rows are as they were.
proof fn lemma_row_repaired<T: Number, M: Elementary<T>>(
    m: M,
    v: spec_fn(T) -> real,
    ts: Seq<T>,
    nk: int,
    s: Repair<T>,
    i: int,
    n: int,
)
    requires
        exact(v),
        sqrt_exact(m, v),
        v(decimal_of::<T, M>(m, 1, -8)) >= 0real,
        s.vols.len() == nk * ts.len(),
        0 <= i < nk,
        n < ts.len(),
        forall|j: int| 0 <= j < ts.len() ==> v(#[trigger] ts[j]) > 0real,
    ensures
        calendar_row(m, ts, s, i, n).vols.len() == s.vols.len(),
        forall|j: int|
            1 <= j <= n ==> #[trigger] calendar_ok(calendar_row(m, ts, s, i, n).vols, ts, i, j),
        forall|a: int, b: int|
            0 <= a < nk && 0 <= b < ts.len() && a != i ==> #[trigger] cell_var(
                calendar_row(m, ts, s, i, n).vols,
                ts,
                a,
                b,
            ) == cell_var(s.vols, ts, a, b),
    decreases n,
{
    if n > 0 {
        lemma_row_repaired(m, v, ts, nk, s, i, n - 1);
        let before = calendar_row(m, ts, s, i, n - 1);
        let after = calendar_row(m, ts, s, i, n);
        lemma_grid_index(i, n, nk, ts.len() as int);
        law_calendar_cell_repairs(m, v, ts, nk, before, i, n);
        assert forall|j: int| 1 <= j <= n implies #[trigger] calendar_ok(
            after.vols,
            ts,
            i,
            j,
        ) by {
            if j < n {
                assert(calendar_ok(before.vols, ts, i, j));
                assert(cell_var(after.vols, ts, i, j) == cell_var(before.vols, ts, i, j));
                assert(cell_var(after.vols, ts, i, j - 1) == cell_var(before.vols, ts, i, j - 1));
            }
        }
        assert forall|a: int, b: int| 0 <= a < nk && 0 <= b < ts.len() && a != i implies #[trigger]
            cell_var(after.vols, ts, a, b) == cell_var(s.vols, ts, a, b) by {
            assert(cell_var(after.vols, ts, a, b) == cell_var(before.vols, ts, a, b));
        }
    }
}

/// The sweep against the expiries before leaves no calendar arbitrage: without rounding, after
/// it total variance falls at no strike from one expiry to the next.
pub proof fn law_calendar_sweep_clears<T: Number, M: Elementary<T>>(
    m: M,
    v: spec_fn(T) -> real,
    ts: Seq<T>,
    nk: int,
    s: Repair<T>,
    n: int,
)
    requires
        exact(v),
        sqrt_exact(m, v),
        v(decimal_of::<T, M>(m, 1, -8)) >= 0real,
        s.vols.len() == nk * ts.len(),
        0 <= n <= nk,
        ts.len() > 0,
        forall|j: int| 0 <= j < ts.len() ==> v(#[trigger] ts[j]) > 0real,
    ensures
        calendar_sweep(m, ts, s, n).vols.len() == s.vols.len(),
        forall|i: int, j: int|
            0 <= i < n && 1 <= j < ts.len() ==> #[trigger] calendar_ok(
                calendar_sweep(m, ts, s, n).vols,
                ts,
                i,
                j,
            ),
    decreases n,
{
    if n > 0 {
        law_calendar_sweep_clears(m, v, ts, nk, s, n - 1);
        let before = calendar_sweep(m, ts, s, n - 1);
        let after = calendar_sweep(m, ts, s, n);
        lemma_row_repaired(m, v, ts, nk, before, n - 1, ts.len() - 1);
        assert forall|i: int, j: int| 0 <= i < n && 1 <= j < ts.len() implies #[trigger]
            calendar_ok(after.vols, ts, i, j) by {
            if i < n - 1 {
                assert(calendar_ok(before.vols, ts, i, j));
                assert(cell_var(after.vols, ts, i, j) == cell_var(before.vols, ts, i, j));
                assert(cell_var(after.vols, ts, i, j - 1) == cell_var(before.vols, ts, i, j - 1));
            }
        }
    }
}

/// All entries satisfy `ok`.
pub open spec fn all_entries<T>(
    violations: Seq<SurfaceViolation<T>>,
    ok: spec_fn(SurfaceViolation<T>) -> bool,
) -> bool {
    forall|k: int| 0 <= k < violations.len() ==> ok(#[trigger] violations[k])
}

/// The check of a cell adds no entry that does not satisfy `ok`.
pub open spec fn cells_report<T: Number, M: Elementary<T>>(
    m: M,
    ts: Seq<T>,
    nk: int,
    ok: spec_fn(SurfaceViolation<T>) -> bool,
) -> bool {
    &&& forall|s: Repair<T>, i: int, j: int|
        0 <= i < nk && 1 <= j < ts.len() && all_entries(s.violations, ok) ==> all_entries(
            #[trigger] calendar_cell(m, ts, s, i, j).violations,
            ok,
        )
    &&& forall|s: Repair<T>, i: int, j: int|
        1 <= i < nk - 1 && 0 <= j < ts.len() && all_entries(s.violations, ok) ==> all_entries(
            #[trigger] butterfly_cell(m, ts, s, i, j).violations,
            ok,
        )
}

/// The first cells of a strike add none either.
proof fn lemma_row_reports<T: Number, M: Elementary<T>>(
    m: M,
    ts: Seq<T>,
    nk: int,
    s: Repair<T>,
    ok: spec_fn(SurfaceViolation<T>) -> bool,
    i: int,
    n: int,
)
    requires
        cells_report(m, ts, nk, ok),
        all_entries(s.violations, ok),
        0 <= i < nk,
        n < ts.len(),
    ensures
        all_entries(calendar_row(m, ts, s, i, n).violations, ok),
    decreases n,
{
    if n > 0 {
        lemma_row_reports(m, ts, nk, s, ok, i, n - 1);
    }
}

/// The sweep against the expiries before adds none either.
proof fn lemma_calendar_reports<T: Number, M: Elementary<T>>(
    m: M,
    ts: Seq<T>,
    nk: int,
    s: Repair<T>,
    ok: spec_fn(SurfaceViolation<T>) -> bool,
    n: int,
)
    requires
        cells_report(m, ts, nk, ok),
        all_entries(s.violations, ok),
        n <= nk,
    ensures
        all_entries(calendar_sweep(m, ts, s, n).violations, ok),
    decreases n,
{
    if n > 0 {
        lemma_calendar_reports(m, ts, nk, s, ok, n - 1);
        let before = calendar_sweep(m, ts, s, n - 1);
        lemma_row_reports(m, ts, nk, before, ok, n - 1, ts.len() - 1);
    }
}

/// The first cells of an expiry add none either.
proof fn lemma_column_reports<T: Number, M: Elementary<T>>(
    m: M,
    ts: Seq<T>,
    nk: int,
    s: Repair<T>,
    ok: spec_fn(SurfaceViolation<T>) -> bool,
    j: int,
    n: int,
)
    requires
        cells_report(m, ts, nk, ok),
        all_entries(s.violations, ok),
        0 <= j < ts.len(),
        n < nk - 1,
    ensures
        all_entries(butterfly_column(m, ts, s, j, n).violations, ok),
    decreases n,
{
    if n > 0 {
        lemma_column_reports(m, ts, nk, s, ok, j, n - 1);
    }
}

/// The sweep against the neighbours adds none either.
proof fn lemma_butterfly_reports<T: Number, M: Elementary<T>>(
    m: M,
    ts: Seq<T>,
    nk: int,
    s: Repair<T>,
    ok: spec_fn(SurfaceViolation<T>) -> bool,
    n: int,
)
    requires
        cells_report(m, ts, nk, ok),
        all_entries(s.violations, ok),
        n <= ts.len(),
    ensures
        all_entries(butterfly_sweep(m, ts, s, nk, n).violations, ok),
    decreases n,
{
    if n > 0 {
        lemma_butterfly_reports(m, ts, nk, s, ok, n - 1);
        let before = butterfly_sweep(m, ts, s, nk, n - 1);
        lemma_column_reports(m, ts, nk, before, ok, n - 1, nk - 2);
    }
}

/// Passes add none either.
proof fn lemma_passes_report<T: Number, M: Elementary<T>>(
    m: M,
    ts: Seq<T>,
    nk: int,
    s: Repair<T>,
    ok: spec_fn(SurfaceViolation<T>) -> bool,
    n: nat,
)
    requires
        cells_report(m, ts, nk, ok),
        all_entries(s.violations, ok),
    ensures
        all_entries(repair_passes(m, ts, nk, s, n).violations, ok),
    decreases n,
{
    if n > 0 {
        let a = calendar_sweep(m, ts, s, nk);
        let next = repair_pass_spec(m, ts, nk, s);
        lemma_calendar_reports(m, ts, nk, s, ok, nk);
        lemma_butterfly_reports(m, ts, nk, a, ok, ts.len() as int);
        lemma_passes_report(m, ts, nk, next, ok, (n - 1) as nat);
    }
}

/// An entry names a node that can be at fault: for a calendar spread one with an expiry before
/// it, for a butterfly one with a strike on either side.
pub open spec fn is_placed<T>(e: SurfaceViolation<T>, nk: int, nt: int) -> bool {
    match e.kind {
        ViolationKind::CalendarSpread => 0 <= e.i_k < nk && 1 <= e.j_t < nt,
        ViolationKind::Butterfly => 1 <= e.i_k < nk - 1 && 0 <= e.j_t < nt,
    }
}

/// Every entry of a repair names a node that can be at fault.
pub proof fn law_entries_placed<T: Number, M: Elementary<T>>(
    m: M,
    ts: Seq<T>,
    nk: int,
    s: Repair<T>,
    n: nat,
)
    requires
        nk <= usize::MAX,
        ts.len() <= usize::MAX,
        forall|k: int|
            0 <= k < s.violations.len() ==> is_placed(
                #[trigger] s.violations[k],
                nk,
                ts.len() as int,
            ),
    ensures
        forall|k: int|
            0 <= k < repair_passes(m, ts, nk, s, n).violations.len() ==> is_placed(
                #[trigger] repair_passes(m, ts, nk, s, n).violations[k],
                nk,
                ts.len() as int,
            ),
{
    let ok = |e: SurfaceViolation<T>| is_placed(e, nk, ts.len() as int);
    assert(all_entries(s.violations, ok));
    lemma_passes_report(m, ts, nk, s, ok, n);
    let all = repair_passes(m, ts, nk, s, n).violations;
    assert forall|k: int| 0 <= k < all.len() implies is_placed(
        #[trigger] all[k],
        nk,
        ts.len() as int,
    ) by {
        assert(ok(all[k]));
    }
}

/// Every entry of a repair has a positive size, without rounding.
pub proof fn law_entries_positive<T: Number, M: Elementary<T>>(
    m: M,
    v: spec_fn(T) -> real,
    ts: Seq<T>,
    nk: int,
    s: Repair<T>,
    n: nat,
)
    requires
        exact(v),
        forall|k: int|
            0 <= k < s.violations.len() ==> v((#[trigger] s.violations[k]).delta) > 0real,
    ensures
        forall|k: int|
            0 <= k < repair_passes(m, ts, nk, s, n).violations.len() ==> v(
                (#[trigger] repair_passes(m, ts, nk, s, n).violations[k]).delta,
            ) > 0real,
{
    let ok = |e: SurfaceViolation<T>| v(e.delta) > 0real;
    assert(all_entries(s.violations, ok));
    lemma_passes_report(m, ts, nk, s, ok, n);
    let all = repair_passes(m, ts, nk, s, n).violations;
    assert forall|k: int| 0 <= k < all.len() implies v((#[trigger] all[k]).delta) > 0real by {
        assert(ok(all[k]));
    }
}

} // verus!
