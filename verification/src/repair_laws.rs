//! A repair moves a surface no further than it has to: where total variance has fallen it is
//! raised to just above the expiry before, where it is not convex it is lowered to just below the
//! middle of its neighbours; and what is reported is by how much the surface was at fault.
use crate::exact::{
    exact, lemma_half, lemma_literal, lemma_quotient_positive, lemma_sign_of_factor, lemma_square,
    lemma_times_comm, lemma_times_not_negative, sqrt_exact, times,
};
use crate::number::{decimal_of, frac, larger, num, sqrt_of, Elementary, Number};
use crate::repair::{
    butterfly_cell, calendar_cell, cell_var, is_clean, law_repair_ends, passes_in_full,
    repair_passes, Repair, MAX_PASSES,
};
use crate::types::lemma_grid_index;
use vstd::prelude::*;
use vstd::std_specs::cmp::PartialOrdIs;
use vstd::std_specs::ops::{AddSpec, DivSpec, MulSpec, SubSpec};

verus! {

/// Where total variance at a node has fallen from the expiry before, a repair raises it to just
/// above that, by no more than the least it may grow, and reports by how much it had fallen; else
/// nothing is done.
pub proof fn law_calendar_repair_is_least<T: Number, M: Elementary<T>>(
    m: M,
    v: spec_fn(T) -> real,
    ts: Seq<T>,
    nk: int,
    s: Repair<T>,
    i: int,
    j: int,
)
    requires
        exact(v),
        sqrt_exact(m, v),
        v(decimal_of::<T, M>(m, 1, -8)) >= 0real,
        s.vols.len() == nk * ts.len(),
        0 <= i < nk <= usize::MAX,
        1 <= j < ts.len() <= usize::MAX,
        v(ts[j]) > 0real,
        v(ts[j - 1]) >= 0real,
    ensures
        ({
            let r = calendar_cell(m, ts, s, i, j);
            let (before, here) = (
                v(cell_var(s.vols, ts, i, j - 1)),
                v(cell_var(s.vols, ts, i, j)),
            );
            let n = s.violations.len() as int;
            &&& here >= before ==> r == s
            &&& here < before ==> {
                &&& v(cell_var(r.vols, ts, i, j)) == before + v(decimal_of::<T, M>(m, 1, -8))
                &&& r.vols == s.vols.update(i * ts.len() + j, r.vols[i * ts.len() + j])
                &&& r.violations.len() == n + 1 && r.violations.take(n) == s.violations
                &&& r.violations[n].kind is CalendarSpread
                &&& r.violations[n].i_k == i && r.violations[n].j_t == j
                &&& v(r.violations[n].delta) == before - here
                &&& r.repaired == s.repaired + 1
            }
        }),
{
    let nt = ts.len() as int;
    lemma_grid_index(i, j, nk, nt);
    let r = calendar_cell(m, ts, s, i, j);
    let (w_prev, w_cur) = (cell_var(s.vols, ts, i, j - 1), cell_var(s.vols, ts, i, j));
    assert(w_cur.is_lt(&w_prev) == (v(w_cur) < v(w_prev)));
    if v(w_cur) < v(w_prev) {
        let iv = v(s.vols[i * nt + (j - 1)]);
        lemma_square(iv);
        lemma_times_not_negative(times(iv, iv), v(ts[j - 1]));
        let raised = w_prev.add_spec(decimal_of::<T, M>(m, 1, -8));
        let q = raised.div_spec(ts[j]);
        lemma_times_comm(v(q), v(ts[j]));
        lemma_sign_of_factor(v(ts[j]), v(q));
        assert(v(larger(q, num::<T>(0))) == v(q));
        assert(r.vols[i * nt + j] == sqrt_of(m, larger(q, num::<T>(0))));
        assert(r.violations.take(s.violations.len() as int) =~= s.violations);
    }
}

/// Where total variance at a node lies above the middle of its neighbours in strike, a repair
/// lowers it to just below that, by no more than the least distance, unless nothing would be left
/// of it, and reports the concavity; else nothing is done.
pub proof fn law_butterfly_repair_is_least<T: Number, M: Elementary<T>>(
    m: M,
    v: spec_fn(T) -> real,
    ts: Seq<T>,
    nk: int,
    s: Repair<T>,
    i: int,
    j: int,
)
    requires
        exact(v),
        sqrt_exact(m, v),
        s.vols.len() == nk * ts.len(),
        1 <= i < nk - 1,
        nk <= usize::MAX,
        0 <= j < ts.len() <= usize::MAX,
        v(ts[j]) > 0real,
    ensures
        ({
            let r = butterfly_cell(m, ts, s, i, j);
            let (left, here, right) = (
                v(cell_var(s.vols, ts, i - 1, j)),
                v(cell_var(s.vols, ts, i, j)),
                v(cell_var(s.vols, ts, i + 1, j)),
            );
            let lowered = (left + right) / 2real - v(decimal_of::<T, M>(m, 1, -8));
            let n = s.violations.len() as int;
            &&& 2real * here <= left + right ==> r == s
            &&& 2real * here > left + right ==> {
                &&& r.violations.len() == n + 1 && r.violations.take(n) == s.violations
                &&& r.violations[n].kind is Butterfly
                &&& r.violations[n].i_k == i && r.violations[n].j_t == j
                &&& v(r.violations[n].delta) == 2real * here - left - right
            }
            &&& 2real * here > left + right && lowered > 0real ==> {
                &&& v(cell_var(r.vols, ts, i, j)) == lowered
                &&& r.vols == s.vols.update(i * ts.len() + j, r.vols[i * ts.len() + j])
                &&& r.repaired == s.repaired + 1
            }
            &&& 2real * here > left + right && lowered <= 0real ==> r.vols == s.vols && r.repaired
                == s.repaired
        }),
{
    let nt = ts.len() as int;
    lemma_grid_index(i, j, nk, nt);
    let r = butterfly_cell(m, ts, s, i, j);
    let (wm, w0, wp) = (
        cell_var(s.vols, ts, i - 1, j),
        cell_var(s.vols, ts, i, j),
        cell_var(s.vols, ts, i + 1, j),
    );
    let convexity = wm.sub_spec(num::<T>(2).mul_spec(w0)).add_spec(wp);
    let w_new = frac::<T>(1, 2).mul_spec(wm.add_spec(wp)).sub_spec(decimal_of::<T, M>(m, 1, -8));
    lemma_literal(2real, v(w0));
    lemma_half::<T>(v);
    lemma_literal(1real / 2real, v(wm) + v(wp));
    assert(convexity.is_lt(&num::<T>(0)) == (v(convexity) < 0real));
    assert(w_new.is_gt(&num::<T>(0)) == (v(w_new) > 0real));
    if v(convexity) < 0real {
        assert(r.violations.take(s.violations.len() as int) =~= s.violations);
        if v(w_new) > 0real {
            let q = w_new.div_spec(ts[j]);
            lemma_quotient_positive(v, w_new, ts[j]);
            assert(r.vols[i * nt + j] == sqrt_of(m, q));
        }
    }
}

/// A repair ends with a surface that admits no arbitrage, or after fifty passes over it.
pub proof fn law_repair_ends_by_limit<T: Number, M: Elementary<T>>(
    m: M,
    ts: Seq<T>,
    nk: int,
    s: Repair<T>,
)
    requires
        s.vols.len() == nk * ts.len(),
        0 <= nk <= usize::MAX,
        ts.len() <= usize::MAX,
    ensures
        ({
            let r = repair_passes(m, ts, nk, s, MAX_PASSES as nat);
            is_clean(r.vols, ts, nk) || r == passes_in_full(m, ts, nk, s, 50)
        }),
{
    law_repair_ends(m, ts, nk, s, MAX_PASSES as nat);
}

} // verus!
