//! Choosing a position by rank, with ties settled by position.
use vstd::prelude::*;

verus! {

/// The position of the last of the largest elements of `s`.
pub open spec fn last_max(s: Seq<i64>) -> int
    decreases s.len(),
{
    if s.len() <= 1 {
        0
    } else {
        let p = last_max(s.drop_last());
        if s[p] > s.last() {
            p
        } else {
            s.len() - 1
        }
    }
}

/// The position of the first of the smallest elements of `s`.
pub open spec fn first_min(s: Seq<i64>) -> int
    decreases s.len(),
{
    if s.len() <= 1 {
        0
    } else {
        let p = first_min(s.drop_last());
        if s[p] <= s.last() {
            p
        } else {
            s.len() - 1
        }
    }
}

/// `last_max` is a position of `s`, no element exceeds the one there, and the later ones
/// are below it.
pub proof fn law_last_max(s: Seq<i64>)
    requires
        s.len() > 0,
    ensures
        0 <= last_max(s) < s.len(),
        forall|j: int| 0 <= j < s.len() ==> #[trigger] s[j] <= s[last_max(s)],
        forall|j: int| last_max(s) < j < s.len() ==> #[trigger] s[j] < s[last_max(s)],
    decreases s.len(),
{
    if s.len() > 1 {
        let t = s.drop_last();
        law_last_max(t);
        assert forall|j: int| 0 <= j < s.len() implies #[trigger] s[j] <= s[last_max(s)] by {
            if j < t.len() {
                assert(s[j] == t[j]);
            }
        }
        assert forall|j: int| last_max(s) < j < s.len() implies #[trigger] s[j]
            < s[last_max(s)] by {
            if j < t.len() {
                assert(s[j] == t[j]);
            }
        }
    }
}

/// `first_min` is a position of `s`, no element is below the one there, and the earlier
/// ones exceed it.
pub proof fn law_first_min(s: Seq<i64>)
    requires
        s.len() > 0,
    ensures
        0 <= first_min(s) < s.len(),
        forall|j: int| 0 <= j < s.len() ==> s[first_min(s)] <= #[trigger] s[j],
        forall|j: int| 0 <= j < first_min(s) ==> s[first_min(s)] < #[trigger] s[j],
    decreases s.len(),
{
    if s.len() > 1 {
        let t = s.drop_last();
        law_first_min(t);
        assert forall|j: int| 0 <= j < s.len() implies s[first_min(s)] <= #[trigger] s[j] by {
            if j < t.len() {
                assert(s[j] == t[j]);
            }
        }
        assert forall|j: int| 0 <= j < first_min(s) implies s[first_min(s)] < #[trigger] s[j] by {
            if j < t.len() {
                assert(s[j] == t[j]);
            }
        }
    }
}

/// The position of the last of the largest elements.
pub fn find_last_max(v: &Vec<i64>) -> (res: usize)
    requires
        v@.len() > 0,
    ensures
        res == last_max(v@),
        res < v@.len(),
{
    let mut best: usize = 0;
    let mut i: usize = 1;
    while i < v.len()
        invariant
            1 <= i <= v@.len(),
            best < i,
            best == last_max(v@.take(i as int)),
        decreases v@.len() - i,
    {
        proof {
            assert(v@.take(i + 1).drop_last() =~= v@.take(i as int));
        }
        if !(v[best] > v[i]) {
            best = i;
        }
        i = i + 1;
    }
    proof {
        assert(v@.take(v@.len() as int) =~= v@);
    }
    best
}

/// The position of the first of the smallest elements.
pub fn find_first_min(v: &Vec<i64>) -> (res: usize)
    requires
        v@.len() > 0,
    ensures
        res == first_min(v@),
        res < v@.len(),
{
    let mut best: usize = 0;
    let mut i: usize = 1;
    while i < v.len()
        invariant
            1 <= i <= v@.len(),
            best < i,
            best == first_min(v@.take(i as int)),
        decreases v@.len() - i,
    {
        proof {
            assert(v@.take(i + 1).drop_last() =~= v@.take(i as int));
        }
        if v[best] > v[i] {
            best = i;
        }
        i = i + 1;
    }
    proof {
        assert(v@.take(v@.len() as int) =~= v@);
    }
    best
}

} // verus!
