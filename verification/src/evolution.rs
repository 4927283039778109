//! Differential evolution: a population of parameter vectors in which each is challenged by
//! a combination of three others, and the fit that starts from the winner.
use crate::calibration::{
    calibrate_inner, calibrate_spec, quote_weights, weights_of, CalibResult, Regularization,
};
use crate::linalg::{copy_vec, entries, has_shape, weighted_sse, weighted_sse_spec};
use crate::model::{residuals, residuals_spec, CalibInput, CalibModel};
use crate::number::{
    clamp, clamped, frac, infinity_of, is_finite_of, lawful, rank_of, ranks_follow_order, ratio,
    regular, Elementary, Number,
};
use crate::random::{
    index_of, law_splitmix64_injective, law_splitmix64_undone, made_by, splitmix64, splitmix64_spec,
    steady, steady_maker, unit_of, unmixed, within_of, RandomSource,
};
use crate::select::{find_first_min, first_min, law_first_min};
use crate::types::{BatesParams, HestonParams};
use vstd::prelude::*;
use vstd::std_specs::cmp::PartialOrdIs;
use vstd::std_specs::ops::{AddSpec, MulSpec, SubSpec};

verus! {

/// Draws of a first member before the last is taken as it comes.
pub const FIRST_DRAWS: u32 = 20;

/// The fit from the winner of an evolution, the sum of squares of the winner, and the number
/// of generations.
#[derive(Debug)]
pub struct GlobalCalibResult<T, P> {
    pub best: CalibResult<T, P>,
    pub de_best_sse: T,
    pub de_generations: usize,
}

/// How well a vector of parameters fits the quotes: its sum of squares, infinite where the
/// parameters may not be used.
pub open spec fn fitness_spec<T: Number, M: Elementary<T>, P: CalibModel<T, M>>(
    m: M,
    quotes: Seq<CalibInput<T>>,
    v: Seq<T>,
) -> T {
    let p = P::from_seq(v);
    if p.bounds_ok_spec(m) {
        weighted_sse_spec(residuals_spec(m, quotes, p), quote_weights(quotes))
    } else {
        infinity_of::<T, M>(m)
    }
}

/// How well a vector of parameters fits the quotes.
pub fn fitness<T: Number, M: Elementary<T>, P: CalibModel<T, M>>(
    m: M,
    quotes: &Vec<CalibInput<T>>,
    weights: &Vec<T>,
    v: &Vec<T>,
) -> (res: T)
    requires
        lawful::<T, M>(m),
        weights@ == quote_weights(quotes@),
        v@.len() == P::dim_spec(),
    ensures
        res == fitness_spec::<T, M, P>(m, quotes@, v@),
{
    let p = P::from_vec(v);
    if p.bounds_ok(m) {
        weighted_sse(&residuals(m, quotes, &p), weights)
    } else {
        m.infinity()
    }
}

/// Element `d` of a challenger: that of the first donor moved by six tenths of the distance
/// between the other two, and kept within its range.
pub open spec fn mutated<T: Number>(a: T, b: T, c: T, lo: T, hi: T) -> T {
    clamped(a.add_spec(frac::<T>(6, 10).mul_spec(b.sub_spec(c))), lo, hi)
}

/// The challenger of member `i`: in the marked elements the combination of the donors, in
/// the others the member itself.
pub open spec fn challenger<T: Number>(
    bounds: Seq<(T, T)>,
    pop: Seq<Seq<T>>,
    i: int,
    a: int,
    b: int,
    c: int,
    mask: Seq<bool>,
) -> Seq<T> {
    Seq::new(
        pop[i].len(),
        |d: int|
            if mask[d] {
                mutated(pop[a][d], pop[b][d], pop[c][d], bounds[d].0, bounds[d].1)
            } else {
                pop[i][d]
            },
    )
}

/// Four different members of a population of `n`.
pub open spec fn are_distinct(n: int, i: int, a: int, b: int, c: int) -> bool {
    &&& 0 <= i < n
    &&& 0 <= a < n
    &&& 0 <= b < n
    &&& 0 <= c < n
    &&& a != i
    &&& b != i
    &&& c != i
    &&& a != b
    &&& a != c
    &&& b != c
}

/// The better of a member and its challenger: the challenger if its fitness is less.
pub open spec fn selected<T: Number, M: Elementary<T>, P: CalibModel<T, M>>(
    m: M,
    quotes: Seq<CalibInput<T>>,
    member: Seq<T>,
    trial: Seq<T>,
) -> Seq<T> {
    if fitness_spec::<T, M, P>(m, quotes, trial).is_lt(
        &fitness_spec::<T, M, P>(m, quotes, member),
    ) {
        trial
    } else {
        member
    }
}

/// `next` comes after member `i`: it is the better of the member and a challenger from three
/// other members, in which at least one element is marked.
pub open spec fn is_successor<T: Number, M: Elementary<T>, P: CalibModel<T, M>>(
    m: M,
    quotes: Seq<CalibInput<T>>,
    pop: Seq<Seq<T>>,
    i: int,
    next: Seq<T>,
) -> bool {
    exists|a: int, b: int, c: int, mask: Seq<bool>|
        are_distinct(pop.len() as int, i, a, b, c) && mask.len() == P::dim_spec() && mask.contains(
            true,
        ) && next == selected::<T, M, P>(
            m,
            quotes,
            pop[i],
            #[trigger] challenger(P::param_bounds_spec(m), pop, i, a, b, c, mask),
        )
}

/// `next` comes after the population `pop`, member by member.
pub open spec fn is_generation<T: Number, M: Elementary<T>, P: CalibModel<T, M>>(
    m: M,
    quotes: Seq<CalibInput<T>>,
    pop: Seq<Seq<T>>,
    next: Seq<Seq<T>>,
) -> bool {
    &&& next.len() == pop.len()
    &&& forall|i: int|
        0 <= i < pop.len() ==> is_successor::<T, M, P>(m, quotes, pop, i, #[trigger] next[i])
}

/// A population of `n_pop` members and `n_gen` generations after it.
pub open spec fn is_evolution<T: Number, M: Elementary<T>, P: CalibModel<T, M>>(
    m: M,
    quotes: Seq<CalibInput<T>>,
    gens: Seq<Seq<Seq<T>>>,
    n_pop: int,
    n_gen: int,
) -> bool {
    &&& gens.len() == n_gen + 1
    &&& has_shape(gens[0], n_pop, P::dim_spec())
    &&& forall|g: int|
        0 <= g < n_gen ==> is_generation::<T, M, P>(m, quotes, #[trigger] gens[g], gens[g + 1])
}

/// The ranks of the fitness of the members.
pub open spec fn fitness_ranks<T: Number, M: Elementary<T>, P: CalibModel<T, M>>(
    m: M,
    quotes: Seq<CalibInput<T>>,
    pop: Seq<Seq<T>>,
) -> Seq<i64> {
    Seq::new(pop.len(), |i: int| rank_of(m, fitness_spec::<T, M, P>(m, quotes, pop[i])))
}

/// The fittest member, the first of them if there are several.
pub open spec fn winner<T: Number, M: Elementary<T>, P: CalibModel<T, M>>(
    m: M,
    quotes: Seq<CalibInput<T>>,
    pop: Seq<Seq<T>>,
) -> Seq<T> {
    pop[first_min(fitness_ranks::<T, M, P>(m, quotes, pop))]
}

/// The number of members of a population: what is asked for, but at least four for each
/// parameter.
pub open spec fn population_size<T: Number, M: Elementary<T>, P: CalibModel<T, M>>(
    n_pop: usize,
) -> int {
    if n_pop < 4 * P::dim_spec() {
        4 * P::dim_spec()
    } else {
        n_pop as int
    }
}

/// What an evolution amounts to: the winner of its last generation, and the fit from it.
pub open spec fn is_global_fit<T: Number, M: Elementary<T>, P: CalibModel<T, M>>(
    m: M,
    quotes: Seq<CalibInput<T>>,
    gens: Seq<Seq<Seq<T>>>,
    reg: Option<Regularization<T, P>>,
    res: GlobalCalibResult<T, P>,
) -> bool {
    let w = winner::<T, M, P>(m, quotes, gens.last());
    &&& res.de_generations == gens.len() - 1
    &&& res.de_best_sse == fitness_spec::<T, M, P>(m, quotes, w)
    &&& res.best.outcome() == calibrate_spec(m, quotes, P::from_seq(w), None, reg)
}

/// The seed of member `i` in generation `gen`.
pub open spec fn member_seed_spec(seed: u64, gen: u64, i: u64) -> u64 {
    splitmix64_spec(seed ^ (gen << 32) ^ i)
}

/// The seed of member `i` in generation `gen`.
pub fn member_seed(seed: u64, gen: u64, i: u64) -> (res: u64)
    ensures
        res == member_seed_spec(seed, gen, i),
{
    splitmix64(seed ^ (gen << 32) ^ i)
}

/// The seed of a member is the seed of the evolution, its generation and its number, mixed.
pub proof fn law_member_seed_undone(seed: u64, gen: u64, i: u64)
    ensures
        unmixed(member_seed_spec(seed, gen, i)) == seed ^ (gen << 32) ^ i,
{
    law_splitmix64_undone(seed ^ (gen << 32) ^ i);
}

/// No two members of an evolution share a seed, whichever their generations are.
pub proof fn law_member_seeds_differ(seed: u64, g1: u64, i1: u64, g2: u64, i2: u64)
    requires
        g1 < 0x1_0000_0000,
        g2 < 0x1_0000_0000,
        i1 < 0x1_0000_0000,
        i2 < 0x1_0000_0000,
        g1 != g2 || i1 != i2,
    ensures
        member_seed_spec(seed, g1, i1) != member_seed_spec(seed, g2, i2),
{
    if member_seed_spec(seed, g1, i1) == member_seed_spec(seed, g2, i2) {
        law_splitmix64_injective(seed ^ (g1 << 32) ^ i1, seed ^ (g2 << 32) ^ i2);
        assert(g1 == g2 && i1 == i2) by (bit_vector)
            requires
                g1 < 0x1_0000_0000u64,
                g2 < 0x1_0000_0000u64,
                i1 < 0x1_0000_0000u64,
                i2 < 0x1_0000_0000u64,
                seed ^ (g1 << 32u64) ^ i1 == seed ^ (g2 << 32u64) ^ i2,
        ;
    }
}

/// Whether `x` is an index below `n` other than the taken ones.
pub open spec fn is_free(n: int, taken: Seq<usize>, x: int) -> bool {
    0 <= x < n && forall|k: int| 0 <= k < taken.len() ==> (#[trigger] taken[k]) != x
}

/// Whether `x` is an index below `n` other than the taken ones.
fn is_admissible(n: usize, taken: &Vec<usize>, x: usize) -> (res: bool)
    ensures
        res == is_free(n as int, taken@, x as int),
{
    if x >= n {
        return false;
    }
    let mut k: usize = 0;
    while k < taken.len()
        invariant
            k <= taken@.len(),
            forall|j: int| 0 <= j < k ==> (#[trigger] taken@[j]) != x,
        decreases taken@.len() - k,
    {
        if taken[k] == x {
            return false;
        }
        k = k + 1;
    }
    true
}

/// What is left of a stream after `k` draws of an index below `n`.
pub open spec fn after_indices<T, S: RandomSource<T>>(src: S, n: usize, k: int) -> S
    decreases k,
{
    if k <= 0 {
        src
    } else {
        index_of::<T, S>(after_indices::<T, S>(src, n, k - 1), n).1
    }
}

/// Draw `k` of an index below `n`, counted from zero.
pub open spec fn drawn_index<T, S: RandomSource<T>>(src: S, n: usize, k: int) -> usize {
    index_of::<T, S>(after_indices::<T, S>(src, n, k), n).0
}

/// Draw `k` is the first that gives a free index.
pub open spec fn is_first_free<T, S: RandomSource<T>>(
    src: S,
    n: usize,
    taken: Seq<usize>,
    k: u64,
) -> bool {
    &&& is_free(n as int, taken, drawn_index::<T, S>(src, n, k as int) as int)
    &&& forall|j: int|
        0 <= j < k ==> !is_free(n as int, taken, (#[trigger] drawn_index::<T, S>(src, n, j)) as int)
}

/// The first draw that gives a free index, if there is one.
pub open spec fn first_free<T, S: RandomSource<T>>(src: S, n: usize, taken: Seq<usize>) -> u64 {
    choose|k: u64| k < u64::MAX && #[trigger] is_first_free::<T, S>(src, n, taken, k)
}

/// No index below `x` is free, and `x` is.
pub open spec fn is_least_free(n: int, taken: Seq<usize>, x: usize) -> bool {
    &&& is_free(n, taken, x as int)
    &&& forall|y: int| 0 <= y < x ==> !#[trigger] is_free(n, taken, y)
}

/// The least index that is free.
pub open spec fn least_free(n: int, taken: Seq<usize>) -> usize {
    choose|x: usize| is_least_free(n, taken, x)
}

/// An index below `n` other than the taken ones, and the rest of the stream: the first such
/// that is drawn. A stream without one is given up after as many draws as a counter can hold,
/// and the least such index is taken.
pub open spec fn draw_free_spec<T, S: RandomSource<T>>(
    src: S,
    n: usize,
    taken: Seq<usize>,
) -> (usize, S) {
    if exists|k: u64| k < u64::MAX && #[trigger] is_first_free::<T, S>(src, n, taken, k) {
        let k = first_free::<T, S>(src, n, taken);
        (drawn_index::<T, S>(src, n, k as int), after_indices::<T, S>(src, n, k + 1))
    } else {
        (least_free(n as int, taken), after_indices::<T, S>(src, n, u64::MAX as int))
    }
}

/// An index below `n` other than the taken ones, and the rest of the stream.
pub fn draw_free<T, S: RandomSource<T>>(src: S, n: usize, taken: &Vec<usize>) -> (res: (usize, S))
    requires
        steady::<T, S>(),
        taken@.len() < n,
    ensures
        is_free(n as int, taken@, res.0 as int),
        res == draw_free_spec::<T, S>(src, n, taken@),
{
    let mut rest = src;
    let mut k: u64 = 0;
    while k < u64::MAX
        invariant
            steady::<T, S>(),
            rest == after_indices::<T, S>(src, n, k as int),
            forall|j: int|
                0 <= j < k ==> !is_free(
                    n as int,
                    taken@,
                    (#[trigger] drawn_index::<T, S>(src, n, j)) as int,
                ),
        decreases u64::MAX - k,
    {
        let (cand, left) = rest.index(n);
        rest = left;
        proof {
            assert(cand == drawn_index::<T, S>(src, n, k as int));
        }
        if is_admissible(n, taken, cand) {
            proof {
                assert(is_first_free::<T, S>(src, n, taken@, k));
                let c = first_free::<T, S>(src, n, taken@);
                assert(c == k) by {
                    assert(is_free(
                        n as int,
                        taken@,
                        drawn_index::<T, S>(src, n, c as int) as int,
                    ));
                }
            }
            return (cand, rest);
        }
        k = k + 1;
    }
    proof {
        assert forall|c: u64| c < u64::MAX implies !#[trigger] is_first_free::<T, S>(
            src,
            n,
            taken@,
            c,
        ) by {
            assert(!is_free(n as int, taken@, drawn_index::<T, S>(src, n, c as int) as int));
        }
    }
    let mut x: usize = 0;
    while !is_admissible(n, taken, x)
        invariant
            taken@.len() < n,
            x < n,
            forall|y: usize| y < x ==> taken@.contains(y),
        decreases n - x,
    {
        proof {
            assert(taken@.contains(x)) by {
                let k = choose|k: int| 0 <= k < taken@.len() && (#[trigger] taken@[k]) == x;
                assert(taken@[k] == x);
            }
            if x + 1 >= n {
                lemma_pigeonhole(taken@, n as int);
            }
        }
        x = x + 1;
    }
    proof {
        assert forall|y: int| 0 <= y < x implies !#[trigger] is_free(n as int, taken@, y) by {
            let u = y as usize;
            assert(taken@.contains(u));
        }
        assert(is_least_free(n as int, taken@, x));
        let z = least_free(n as int, taken@);
        assert(z == x) by {
            assert(is_free(n as int, taken@, x as int));
            assert(is_free(n as int, taken@, z as int));
        }
    }
    (x, rest)
}

/// Fewer than `n` elements leave an index below `n` out.
proof fn lemma_pigeonhole(s: Seq<usize>, n: int)
    requires
        s.len() < n <= usize::MAX + 1,
    ensures
        exists|y: usize| y < n && !s.contains(y),
{
    let all = vstd::set_lib::set_int_range(0, n);
    vstd::set_lib::lemma_int_range(0, n);
    if forall|y: usize| y < n ==> s.contains(y) {
        let image = s.to_set().map(|v: usize| v as int);
        vstd::seq_lib::seq_to_set_is_finite(s);
        s.lemma_cardinality_of_set();
        vstd::set_lib::lemma_map_size_bound(s.to_set(), image, |v: usize| v as int);
        assert(all.subset_of(image)) by {
            assert forall|x: int| all.contains(x) implies image.contains(x) by {
                let u = x as usize;
                assert(s.contains(u));
                assert(s.to_set().contains(u));
            }
        }
        vstd::set_lib::lemma_len_subset(all, image);
    }
}

/// Draws from the ranges of the first `n` parameters, and the rest of the stream.
pub open spec fn draw_member_spec<T: Number, S: RandomSource<T>>(
    src: S,
    bounds: Seq<(T, T)>,
    n: int,
) -> (Seq<T>, S)
    decreases n,
{
    if n <= 0 {
        (Seq::empty(), src)
    } else {
        let (v, s1) = draw_member_spec(src, bounds, n - 1);
        let (x, s2) = within_of(s1, bounds[n - 1].0, bounds[n - 1].1);
        (v.push(x), s2)
    }
}

/// A vector of draws from the ranges of the parameters, and the rest of the stream.
fn draw_member<T: Number, S: RandomSource<T>>(src: S, bounds: &Vec<(T, T)>) -> (res: (Vec<T>, S))
    requires
        steady::<T, S>(),
    ensures
        res.0@.len() == bounds@.len(),
        (res.0@, res.1) == draw_member_spec(src, bounds@, bounds@.len() as int),
{
    let mut rest = src;
    let mut v: Vec<T> = Vec::new();
    while v.len() < bounds.len()
        invariant
            steady::<T, S>(),
            v@.len() <= bounds@.len(),
            (v@, rest) == draw_member_spec(src, bounds@, v@.len() as int),
        decreases bounds@.len() - v@.len(),
    {
        let (lo, hi) = bounds[v.len()];
        let (x, left) = rest.within(lo, hi);
        rest = left;
        v.push(x);
    }
    (v, rest)
}

/// A first member, and the rest of the stream: the first of `tries` draws with a finite
/// fitness, else one more draw.
pub open spec fn draw_first_spec<
    T: Number,
    M: Elementary<T>,
    P: CalibModel<T, M>,
    S: RandomSource<T>,
>(m: M, src: S, quotes: Seq<CalibInput<T>>, tries: nat) -> (Seq<T>, S)
    decreases tries,
{
    let bounds = P::param_bounds_spec(m);
    let (v, s1) = draw_member_spec(src, bounds, bounds.len() as int);
    if tries == 0 || is_finite_of(m, fitness_spec::<T, M, P>(m, quotes, v)) {
        (v, s1)
    } else {
        draw_first_spec::<T, M, P, S>(m, s1, quotes, (tries - 1) as nat)
    }
}

/// A first member, its fitness, and the rest of the stream.
fn draw_first<T: Number, M: Elementary<T>, P: CalibModel<T, M>, S: RandomSource<T>>(
    m: M,
    src: S,
    quotes: &Vec<CalibInput<T>>,
    weights: &Vec<T>,
    bounds: &Vec<(T, T)>,
) -> (res: (Vec<T>, T, S))
    requires
        lawful::<T, M>(m),
        steady::<T, S>(),
        weights@ == quote_weights(quotes@),
        bounds@ == P::param_bounds_spec(m),
        bounds@.len() == P::dim_spec(),
    ensures
        res.0@.len() == P::dim_spec(),
        res.1 == fitness_spec::<T, M, P>(m, quotes@, res.0@),
        (res.0@, res.2) == draw_first_spec::<T, M, P, S>(m, src, quotes@, FIRST_DRAWS as nat),
{
    let mut rest = src;
    let mut left: u32 = FIRST_DRAWS;
    while left > 0
        invariant
            lawful::<T, M>(m),
            steady::<T, S>(),
            weights@ == quote_weights(quotes@),
            bounds@ == P::param_bounds_spec(m),
            bounds@.len() == P::dim_spec(),
            draw_first_spec::<T, M, P, S>(m, src, quotes@, FIRST_DRAWS as nat)
                == draw_first_spec::<T, M, P, S>(m, rest, quotes@, left as nat),
        decreases left,
    {
        let (v, tail) = draw_member(rest, bounds);
        rest = tail;
        let f = fitness::<T, M, P>(m, quotes, weights, &v);
        if m.is_finite(f) {
            return (v, f, rest);
        }
        left = left - 1;
    }
    let (v, tail) = draw_member(rest, bounds);
    let f = fitness::<T, M, P>(m, quotes, weights, &v);
    (v, f, tail)
}

/// The first `n` marks of a challenger, and the rest of the stream: the forced one, and nine
/// in ten of the others.
pub open spec fn marks<T: Number, S: RandomSource<T>>(src: S, forced: int, n: int) -> (
    Seq<bool>,
    S,
)
    decreases n,
{
    if n <= 0 {
        (Seq::empty(), src)
    } else {
        let (mask, s1) = marks::<T, S>(src, forced, n - 1);
        if n - 1 == forced {
            (mask.push(true), s1)
        } else {
            let (u, s2) = unit_of::<T, S>(s1);
            (mask.push(u.is_lt(&frac::<T>(9, 10))), s2)
        }
    }
}

/// The marks of a challenger, and the rest of the stream: the forced one is drawn first.
pub open spec fn draw_mask_spec<T: Number, S: RandomSource<T>>(src: S, n: usize) -> (
    Seq<bool>,
    S,
) {
    let (drawn, s1) = index_of::<T, S>(src, n);
    let forced = if drawn < n {
        drawn as int
    } else {
        n - 1
    };
    marks::<T, S>(s1, forced, n as int)
}

/// The marks of a challenger, and the rest of the stream.
fn draw_mask<T: Number, S: RandomSource<T>>(src: S, n: usize) -> (res: (Vec<bool>, S))
    requires
        regular::<T>(),
        steady::<T, S>(),
        n > 0,
    ensures
        res.0@.len() == n,
        res.0@.contains(true),
        (res.0@, res.1) == draw_mask_spec::<T, S>(src, n),
{
    let (drawn, rest) = src.index(n);
    let forced: usize = if drawn < n {
        drawn
    } else {
        n - 1
    };
    let ghost start = rest;
    let mut src = rest;
    let mut mask: Vec<bool> = Vec::new();
    while mask.len() < n
        invariant
            regular::<T>(),
            steady::<T, S>(),
            forced < n,
            mask@.len() <= n,
            mask@.len() > forced ==> mask@[forced as int],
            (mask@, src) == marks::<T, S>(start, forced as int, mask@.len() as int),
        decreases n - mask@.len(),
    {
        if mask.len() == forced {
            mask.push(true);
        } else {
            let (u, rest) = src.unit();
            src = rest;
            mask.push(u < ratio::<T>(9, 10));
        }
    }
    proof {
        assert(mask@[forced as int]);
    }
    (mask, src)
}

/// The challenger of a member.
pub fn make_challenger<T: Number>(
    bounds: &Vec<(T, T)>,
    pop: &Vec<Vec<T>>,
    i: usize,
    a: usize,
    b: usize,
    c: usize,
    mask: &Vec<bool>,
) -> (res: Vec<T>)
    requires
        regular::<T>(),
        has_shape(entries(pop@), pop@.len() as int, bounds@.len() as int),
        mask@.len() == bounds@.len(),
        i < pop@.len(),
        a < pop@.len(),
        b < pop@.len(),
        c < pop@.len(),
    ensures
        res@ == challenger(
            bounds@,
            entries(pop@),
            i as int,
            a as int,
            b as int,
            c as int,
            mask@,
        ),
{
    let ghost ps = entries(pop@);
    proof {
        assert(ps[i as int].len() == bounds@.len());
        assert(ps[a as int].len() == bounds@.len());
        assert(ps[b as int].len() == bounds@.len());
        assert(ps[c as int].len() == bounds@.len());
    }
    let ghost all = challenger(bounds@, ps, i as int, a as int, b as int, c as int, mask@);
    let mut v: Vec<T> = Vec::new();
    while v.len() < bounds.len()
        invariant
            regular::<T>(),
            ps == entries(pop@),
            i < pop@.len(),
            a < pop@.len(),
            b < pop@.len(),
            c < pop@.len(),
            mask@.len() == bounds@.len(),
            ps[i as int].len() == bounds@.len(),
            ps[a as int].len() == bounds@.len(),
            ps[b as int].len() == bounds@.len(),
            ps[c as int].len() == bounds@.len(),
            all == challenger(bounds@, ps, i as int, a as int, b as int, c as int, mask@),
            v@.len() <= bounds@.len(),
            v@ =~= all.take(v@.len() as int),
        decreases bounds@.len() - v@.len(),
    {
        let d: usize = v.len();
        if mask[d] {
            let (lo, hi) = bounds[d];
            let (xa, xb, xc) = (pop[a][d], pop[b][d], pop[c][d]);
            let x = xa + ratio::<T>(6, 10) * (xb - xc);
            v.push(clamp(x, lo, hi));
        } else {
            v.push(pop[i][d]);
        }
    }
    v
}

/// The successor of a member: three donors are drawn, then the marks.
pub open spec fn successor_spec<
    T: Number,
    M: Elementary<T>,
    P: CalibModel<T, M>,
    S: RandomSource<T>,
>(m: M, src: S, quotes: Seq<CalibInput<T>>, pop: Seq<Seq<T>>, i: usize) -> Seq<T> {
    let n = pop.len() as usize;
    let (a, s1) = draw_free_spec::<T, S>(src, n, seq![i]);
    let (b, s2) = draw_free_spec::<T, S>(s1, n, seq![i, a]);
    let (c, s3) = draw_free_spec::<T, S>(s2, n, seq![i, a, b]);
    let (mask, _) = draw_mask_spec::<T, S>(s3, P::dim_spec() as usize);
    selected::<T, M, P>(
        m,
        quotes,
        pop[i as int],
        challenger(
            P::param_bounds_spec(m),
            pop,
            i as int,
            a as int,
            b as int,
            c as int,
            mask,
        ),
    )
}

/// The successor of a member, and its fitness.
pub fn successor<T: Number, M: Elementary<T>, P: CalibModel<T, M>, S: RandomSource<T>>(
    m: M,
    src: S,
    quotes: &Vec<CalibInput<T>>,
    weights: &Vec<T>,
    bounds: &Vec<(T, T)>,
    pop: &Vec<Vec<T>>,
    fit_i: T,
    i: usize,
) -> (res: (Vec<T>, T))
    requires
        lawful::<T, M>(m),
        steady::<T, S>(),
        weights@ == quote_weights(quotes@),
        bounds@ == P::param_bounds_spec(m),
        bounds@.len() == P::dim_spec(),
        P::dim_spec() > 0,
        has_shape(entries(pop@), pop@.len() as int, P::dim_spec()),
        i < pop@.len(),
        pop@.len() >= 4,
        fit_i == fitness_spec::<T, M, P>(m, quotes@, pop@[i as int]@),
    ensures
        res.0@ == successor_spec::<T, M, P, S>(m, src, quotes@, entries(pop@), i),
        is_successor::<T, M, P>(m, quotes@, entries(pop@), i as int, res.0@),
        res.1 == fitness_spec::<T, M, P>(m, quotes@, res.0@),
        res.0@.len() == P::dim_spec(),
{
    let n: usize = pop.len();
    let mut taken: Vec<usize> = Vec::new();
    taken.push(i);
    proof {
        assert(taken@ =~= seq![i]);
    }
    let (a, src) = draw_free::<T, S>(src, n, &taken);
    proof {
        assert(taken@[0] == i);
    }
    taken.push(a);
    proof {
        assert(taken@ =~= seq![i, a]);
    }
    let (b, src) = draw_free::<T, S>(src, n, &taken);
    proof {
        assert(taken@[0] == i);
        assert(taken@[1] == a);
    }
    taken.push(b);
    proof {
        assert(taken@ =~= seq![i, a, b]);
    }
    let (c, src) = draw_free::<T, S>(src, n, &taken);
    proof {
        assert(taken@[0] == i);
        assert(taken@[1] == a);
        assert(taken@[2] == b);
        assert(entries(pop@)[i as int].len() == P::dim_spec());
    }
    let (mask, _) = draw_mask::<T, S>(src, bounds.len());
    let trial = make_challenger(bounds, pop, i, a, b, c, &mask);
    let f = fitness::<T, M, P>(m, quotes, weights, &trial);
    proof {
        let ps = entries(pop@);
        assert(are_distinct(n as int, i as int, a as int, b as int, c as int));
        let t = challenger(bounds@, ps, i as int, a as int, b as int, c as int, mask@);
        assert(trial@ == t);
        assert(is_successor::<T, M, P>(
            m,
            quotes@,
            ps,
            i as int,
            selected::<T, M, P>(m, quotes@, ps[i as int], t),
        ));
    }
    if f < fit_i {
        (trial, f)
    } else {
        (copy_vec(&pop[i]), fit_i)
    }
}

/// A first population of `n` members, drawn one after another.
pub open spec fn first_population_spec<
    T: Number,
    M: Elementary<T>,
    P: CalibModel<T, M>,
    S: RandomSource<T>,
>(m: M, src: S, quotes: Seq<CalibInput<T>>, n: int) -> (Seq<Seq<T>>, S)
    decreases n,
{
    if n <= 0 {
        (Seq::empty(), src)
    } else {
        let (pop, s1) = first_population_spec::<T, M, P, S>(m, src, quotes, n - 1);
        let (v, s2) = draw_first_spec::<T, M, P, S>(m, s1, quotes, FIRST_DRAWS as nat);
        (pop.push(v), s2)
    }
}

/// A first population of `size` members, and their fitness.
pub fn first_population<T: Number, M: Elementary<T>, P: CalibModel<T, M>, S: RandomSource<T>>(
    m: M,
    src: S,
    quotes: &Vec<CalibInput<T>>,
    size: usize,
) -> (res: (Vec<Vec<T>>, Vec<T>))
    requires
        lawful::<T, M>(m),
        steady::<T, S>(),
    ensures
        entries(res.0@) == first_population_spec::<T, M, P, S>(m, src, quotes@, size as int).0,
        has_shape(entries(res.0@), size as int, P::dim_spec()),
        are_fitness::<T, M, P>(m, quotes@, entries(res.0@), res.1@),
{
    proof {
        P::lemma_shape(m);
    }
    let ghost qs = quotes@;
    let mut rest = src;
    let bounds = P::param_bounds(m);
    let weights = weights_of(quotes);
    let mut pop: Vec<Vec<T>> = Vec::new();
    let mut fit: Vec<T> = Vec::new();
    proof {
        assert(entries(pop@) =~= Seq::empty());
    }
    while pop.len() < size
        invariant
            lawful::<T, M>(m),
            steady::<T, S>(),
            qs == quotes@,
            weights@ == quote_weights(quotes@),
            bounds@ == P::param_bounds_spec(m),
            bounds@.len() == P::dim_spec(),
            pop@.len() <= size,
            fit@.len() == pop@.len(),
            (entries(pop@), rest) == first_population_spec::<T, M, P, S>(
                m,
                src,
                qs,
                pop@.len() as int,
            ),
            forall|k: int|
                0 <= k < pop@.len() ==> (#[trigger] pop@[k])@.len() == P::dim_spec(),
            forall|k: int|
                0 <= k < pop@.len() ==> (#[trigger] fit@[k]) == fitness_spec::<T, M, P>(
                    m,
                    qs,
                    pop@[k]@,
                ),
        decreases size - pop@.len(),
    {
        let (v, f, left) = draw_first::<T, M, P, S>(m, rest, quotes, &weights, &bounds);
        rest = left;
        let ghost before = pop@;
        pop.push(v);
        proof {
            assert(entries(pop@) =~= entries(before).push(v@));
        }
        fit.push(f);
    }
    (pop, fit)
}

/// The fitness of the members of a population, one by one.
pub open spec fn are_fitness<T: Number, M: Elementary<T>, P: CalibModel<T, M>>(
    m: M,
    quotes: Seq<CalibInput<T>>,
    pop: Seq<Seq<T>>,
    fit: Seq<T>,
) -> bool {
    &&& fit.len() == pop.len()
    &&& forall|k: int|
        0 <= k < pop.len() ==> (#[trigger] fit[k]) == fitness_spec::<T, M, P>(m, quotes, pop[k])
}

/// The fit from the fittest member of the last of `n_gen` generations.
pub fn from_winner<T: Number, M: Elementary<T>, P: CalibModel<T, M>>(
    m: M,
    quotes: &Vec<CalibInput<T>>,
    pop: &Vec<Vec<T>>,
    fit: &Vec<T>,
    n_gen: usize,
    reg: Option<Regularization<T, P>>,
) -> (res: GlobalCalibResult<T, P>)
    requires
        lawful::<T, M>(m),
        quotes@.len() > 0,
        pop@.len() > 0,
        has_shape(entries(pop@), pop@.len() as int, P::dim_spec()),
        are_fitness::<T, M, P>(m, quotes@, entries(pop@), fit@),
    ensures
        res.de_generations == n_gen,
        ({
            let w = winner::<T, M, P>(m, quotes@, entries(pop@));
            &&& res.de_best_sse == fitness_spec::<T, M, P>(m, quotes@, w)
            &&& res.best.outcome() == calibrate_spec(m, quotes@, P::from_seq(w), None, reg)
        }),
{
    let size: usize = pop.len();
    let mut ranks: Vec<i64> = Vec::new();
    while ranks.len() < size
        invariant
            lawful::<T, M>(m),
            fit@.len() == size,
            ranks@.len() <= size,
            forall|k: int| 0 <= k < ranks@.len() ==> (#[trigger] ranks@[k]) == rank_of(m, fit@[k]),
        decreases size - ranks@.len(),
    {
        ranks.push(m.rank(fit[ranks.len()]));
    }
    let ghost ps = entries(pop@);
    proof {
        assert(ranks@ =~= fitness_ranks::<T, M, P>(m, quotes@, ps));
    }
    let b: usize = find_first_min(&ranks);
    proof {
        assert(ps[b as int] == pop@[b as int]@);
    }
    let de_best_sse = fit[b];
    let start = P::from_vec(&pop[b]);
    let mut alone: Option<T> = None;
    let best = calibrate_inner(m, quotes, start, &mut alone, reg);
    GlobalCalibResult { best, de_best_sse, de_generations: n_gen }
}

/// The generation after `pop`, which is the one numbered `gen`. Each member has a stream of
/// its own, made from its seed.
pub open spec fn next_generation<
    T: Number,
    M: Elementary<T>,
    P: CalibModel<T, M>,
    S: RandomSource<T>,
    F: Fn(u64) -> S,
>(
    m: M,
    make: F,
    quotes: Seq<CalibInput<T>>,
    pop: Seq<Seq<T>>,
    seed: u64,
    gen: u64,
) -> Seq<Seq<T>> {
    Seq::new(
        pop.len(),
        |i: int|
            successor_spec::<T, M, P, S>(
                m,
                made_by(make, member_seed_spec(seed, gen, i as u64)),
                quotes,
                pop,
                i as usize,
            ),
    )
}

/// The population after `gen` generations. The first is drawn from a stream made from the
/// mixed seed.
pub open spec fn population_after<
    T: Number,
    M: Elementary<T>,
    P: CalibModel<T, M>,
    S: RandomSource<T>,
    F: Fn(u64) -> S,
>(m: M, make: F, quotes: Seq<CalibInput<T>>, size: int, seed: u64, gen: int) -> Seq<Seq<T>>
    decreases gen,
{
    if gen <= 0 {
        first_population_spec::<T, M, P, S>(
            m,
            made_by(make, splitmix64_spec(seed)),
            quotes,
            size,
        ).0
    } else {
        next_generation::<T, M, P, S, F>(
            m,
            make,
            quotes,
            population_after::<T, M, P, S, F>(m, make, quotes, size, seed, gen - 1),
            seed,
            (gen - 1) as u64,
        )
    }
}

/// The first population and the `n_gen` generations after it.
pub open spec fn evolution_spec<
    T: Number,
    M: Elementary<T>,
    P: CalibModel<T, M>,
    S: RandomSource<T>,
    F: Fn(u64) -> S,
>(
    m: M,
    make: F,
    quotes: Seq<CalibInput<T>>,
    size: int,
    seed: u64,
    n_gen: int,
) -> Seq<Seq<Seq<T>>> {
    Seq::new(
        (n_gen + 1) as nat,
        |g: int| population_after::<T, M, P, S, F>(m, make, quotes, size, seed, g),
    )
}

/// The fit of a model from the winner of an evolution, with or without a prior: the
/// evolution itself knows none. The streams are made by `make`, which is called on the
/// mixed seed and on the seeds of the members, and on nothing else.
pub fn calibrate_global<
    T: Number,
    M: Elementary<T>,
    P: CalibModel<T, M>,
    S: RandomSource<T>,
    F: Fn(u64) -> S,
>(
    m: M,
    quotes: &Vec<CalibInput<T>>,
    n_pop: usize,
    n_gen: usize,
    seed: u64,
    reg: Option<Regularization<T, P>>,
    make: F,
) -> (res: GlobalCalibResult<T, P>)
    requires
        lawful::<T, M>(m),
        steady::<T, S>(),
        steady_maker(make),
        quotes@.len() > 0,
        call_requires(make, (splitmix64_spec(seed),)),
        forall|g: u64, i: u64| call_requires(make, (#[trigger] member_seed_spec(seed, g, i),)),
    ensures
        ({
            let size = population_size::<T, M, P>(n_pop);
            let gens = evolution_spec::<T, M, P, S, F>(
                m,
                make,
                quotes@,
                size,
                seed,
                n_gen as int,
            );
            &&& is_evolution::<T, M, P>(m, quotes@, gens, size, n_gen as int)
            &&& is_global_fit(m, quotes@, gens, reg, res)
        }),
{
    let dim: usize = P::dim();
    proof {
        P::lemma_shape(m);
    }
    let ghost qs = quotes@;
    let bounds = P::param_bounds(m);
    let size: usize = if n_pop < 4 * dim {
        4 * dim
    } else {
        n_pop
    };
    let weights = weights_of(quotes);
    let src = make(splitmix64(seed));
    let (mut pop, mut fit) = first_population::<T, M, P, S>(m, src, quotes, size);
    let ghost mut gens: Seq<Seq<Seq<T>>> = seq![entries(pop@)];
    proof {
        assert(gens =~= evolution_spec::<T, M, P, S, F>(m, make, qs, size as int, seed, 0));
    }
    let mut gen: usize = 0;
    while gen < n_gen
        invariant
            lawful::<T, M>(m),
            steady::<T, S>(),
            steady_maker(make),
            qs == quotes@,
            weights@ == quote_weights(quotes@),
            bounds@ == P::param_bounds_spec(m),
            bounds@.len() == P::dim_spec(),
            1 <= P::dim_spec(),
            size >= 4,
            forall|g: u64, i: u64| call_requires(make, (#[trigger] member_seed_spec(seed, g, i),)),
            gen <= n_gen,
            pop@.len() == size,
            fit@.len() == size,
            has_shape(entries(pop@), size as int, P::dim_spec()),
            forall|k: int|
                0 <= k < size ==> (#[trigger] fit@[k]) == fitness_spec::<T, M, P>(
                    m,
                    qs,
                    pop@[k]@,
                ),
            is_evolution::<T, M, P>(m, qs, gens, size as int, gen as int),
            gens == evolution_spec::<T, M, P, S, F>(m, make, qs, size as int, seed, gen as int),
            gens.last() == entries(pop@),
        decreases n_gen - gen,
    {
        let mut next: Vec<Vec<T>> = Vec::new();
        let mut next_fit: Vec<T> = Vec::new();
        while next.len() < size
            invariant
                lawful::<T, M>(m),
                steady::<T, S>(),
                steady_maker(make),
                qs == quotes@,
                weights@ == quote_weights(quotes@),
                bounds@ == P::param_bounds_spec(m),
                bounds@.len() == P::dim_spec(),
                1 <= P::dim_spec(),
                size >= 4,
                forall|g: u64, i: u64|
                    call_requires(make, (#[trigger] member_seed_spec(seed, g, i),)),
                pop@.len() == size,
                fit@.len() == size,
                has_shape(entries(pop@), size as int, P::dim_spec()),
                forall|k: int|
                    0 <= k < size ==> (#[trigger] fit@[k]) == fitness_spec::<T, M, P>(
                        m,
                        qs,
                        pop@[k]@,
                    ),
                next@.len() <= size,
                next_fit@.len() == next@.len(),
                forall|k: int|
                    0 <= k < next@.len() ==> (#[trigger] next@[k])@.len() == P::dim_spec(),
                forall|k: int|
                    0 <= k < next@.len() ==> is_successor::<T, M, P>(
                        m,
                        qs,
                        entries(pop@),
                        k,
                        (#[trigger] next@[k])@,
                    ),
                forall|k: int|
                    0 <= k < next@.len() ==> (#[trigger] next@[k])@ == successor_spec::<T, M, P, S>(
                        m,
                        made_by(make, member_seed_spec(seed, gen as u64, k as u64)),
                        qs,
                        entries(pop@),
                        k as usize,
                    ),
                forall|k: int|
                    0 <= k < next@.len() ==> (#[trigger] next_fit@[k]) == fitness_spec::<T, M, P>(
                        m,
                        qs,
                        next@[k]@,
                    ),
            decreases size - next@.len(),
        {
            let i: usize = next.len();
            let own = make(member_seed(seed, gen as u64, i as u64));
            let fit_i = fit[i];
            let (v, f) = successor::<T, M, P, S>(
                m,
                own,
                quotes,
                &weights,
                &bounds,
                &pop,
                fit_i,
                i,
            );
            next.push(v);
            next_fit.push(f);
        }
        let ghost before = entries(pop@);
        let ghost old_gens = gens;
        pop = next;
        fit = next_fit;
        proof {
            let after = entries(pop@);
            assert(is_generation::<T, M, P>(m, qs, before, after)) by {
                assert forall|i: int| 0 <= i < before.len() implies is_successor::<T, M, P>(
                    m,
                    qs,
                    before,
                    i,
                    #[trigger] after[i],
                ) by {
                    assert(after[i] == pop@[i]@);
                }
            }
            gens = gens.push(after);
            assert(after =~= next_generation::<T, M, P, S, F>(
                m,
                make,
                qs,
                before,
                seed,
                gen as u64,
            ));
            assert(gens =~= evolution_spec::<T, M, P, S, F>(
                m,
                make,
                qs,
                size as int,
                seed,
                gen + 1,
            ));
            assert forall|g: int| 0 <= g < gen + 1 implies is_generation::<T, M, P>(
                m,
                qs,
                #[trigger] gens[g],
                gens[g + 1],
            ) by {
                if g < gen {
                    assert(gens[g] == old_gens[g]);
                    assert(gens[g + 1] == old_gens[g + 1]);
                }
            }
        }
        gen = gen + 1;
    }
    from_winner(m, quotes, &pop, &fit, n_gen, reg)
}

/// The fit of Heston's model from the winner of an evolution.
pub fn calibrate_heston_global<
    T: Number,
    M: Elementary<T>,
    S: RandomSource<T>,
    F: Fn(u64) -> S,
>(
    m: M,
    quotes: &Vec<CalibInput<T>>,
    n_pop: usize,
    n_gen: usize,
    seed: u64,
    make: F,
) -> (res: GlobalCalibResult<T, HestonParams<T>>)
    requires
        lawful::<T, M>(m),
        steady::<T, S>(),
        steady_maker(make),
        quotes@.len() > 0,
        call_requires(make, (splitmix64_spec(seed),)),
        forall|g: u64, i: u64| call_requires(make, (#[trigger] member_seed_spec(seed, g, i),)),
    ensures
        ({
            let size = population_size::<T, M, HestonParams<T>>(n_pop);
            let gens = evolution_spec::<T, M, HestonParams<T>, S, F>(
                m,
                make,
                quotes@,
                size,
                seed,
                n_gen as int,
            );
            &&& is_evolution::<T, M, HestonParams<T>>(m, quotes@, gens, size, n_gen as int)
            &&& is_global_fit(m, quotes@, gens, None, res)
        }),
{
    calibrate_global(
        m,
        quotes,
        n_pop,
        n_gen,
        seed,
        None,
        make,
    )
}

/// The fit of Bates's model from the winner of an evolution.
pub fn calibrate_bates_global<
    T: Number,
    M: Elementary<T>,
    S: RandomSource<T>,
    F: Fn(u64) -> S,
>(
    m: M,
    quotes: &Vec<CalibInput<T>>,
    n_pop: usize,
    n_gen: usize,
    seed: u64,
    make: F,
) -> (res: GlobalCalibResult<T, BatesParams<T>>)
    requires
        lawful::<T, M>(m),
        steady::<T, S>(),
        steady_maker(make),
        quotes@.len() > 0,
        call_requires(make, (splitmix64_spec(seed),)),
        forall|g: u64, i: u64| call_requires(make, (#[trigger] member_seed_spec(seed, g, i),)),
    ensures
        ({
            let size = population_size::<T, M, BatesParams<T>>(n_pop);
            let gens = evolution_spec::<T, M, BatesParams<T>, S, F>(
                m,
                make,
                quotes@,
                size,
                seed,
                n_gen as int,
            );
            &&& is_evolution::<T, M, BatesParams<T>>(m, quotes@, gens, size, n_gen as int)
            &&& is_global_fit(m, quotes@, gens, None, res)
        }),
{
    calibrate_global(
        m,
        quotes,
        n_pop,
        n_gen,
        seed,
        None,
        make,
    )
}

/// The fit of Heston's model from the winner of an evolution, pulled toward a prior.
pub fn calibrate_heston_global_regularized<
    T: Number,
    M: Elementary<T>,
    S: RandomSource<T>,
    F: Fn(u64) -> S,
>(
    m: M,
    quotes: &Vec<CalibInput<T>>,
    n_pop: usize,
    n_gen: usize,
    seed: u64,
    prior: &HestonParams<T>,
    reg_weight: T,
    make: F,
) -> (res: GlobalCalibResult<T, HestonParams<T>>)
    requires
        lawful::<T, M>(m),
        steady::<T, S>(),
        steady_maker(make),
        quotes@.len() > 0,
        call_requires(make, (splitmix64_spec(seed),)),
        forall|g: u64, i: u64| call_requires(make, (#[trigger] member_seed_spec(seed, g, i),)),
    ensures
        ({
            let size = population_size::<T, M, HestonParams<T>>(n_pop);
            let gens = evolution_spec::<T, M, HestonParams<T>, S, F>(
                m,
                make,
                quotes@,
                size,
                seed,
                n_gen as int,
            );
            &&& is_evolution::<T, M, HestonParams<T>>(m, quotes@, gens, size, n_gen as int)
            &&& is_global_fit(
                m,
                quotes@,
                gens,
                Some(Regularization { prior: *prior, weight: reg_weight }),
                res,
            )
        }),
{
    calibrate_global(
        m,
        quotes,
        n_pop,
        n_gen,
        seed,
        Some(Regularization { prior: *prior, weight: reg_weight }),
        make,
    )
}

/// The fit of Bates's model from the winner of an evolution, pulled toward a prior.
pub fn calibrate_bates_global_regularized<
    T: Number,
    M: Elementary<T>,
    S: RandomSource<T>,
    F: Fn(u64) -> S,
>(
    m: M,
    quotes: &Vec<CalibInput<T>>,
    n_pop: usize,
    n_gen: usize,
    seed: u64,
    prior: &BatesParams<T>,
    reg_weight: T,
    make: F,
) -> (res: GlobalCalibResult<T, BatesParams<T>>)
    requires
        lawful::<T, M>(m),
        steady::<T, S>(),
        steady_maker(make),
        quotes@.len() > 0,
        call_requires(make, (splitmix64_spec(seed),)),
        forall|g: u64, i: u64| call_requires(make, (#[trigger] member_seed_spec(seed, g, i),)),
    ensures
        ({
            let size = population_size::<T, M, BatesParams<T>>(n_pop);
            let gens = evolution_spec::<T, M, BatesParams<T>, S, F>(
                m,
                make,
                quotes@,
                size,
                seed,
                n_gen as int,
            );
            &&& is_evolution::<T, M, BatesParams<T>>(m, quotes@, gens, size, n_gen as int)
            &&& is_global_fit(
                m,
                quotes@,
                gens,
                Some(Regularization { prior: *prior, weight: reg_weight }),
                res,
            )
        }),
{
    calibrate_global(
        m,
        quotes,
        n_pop,
        n_gen,
        seed,
        Some(Regularization { prior: *prior, weight: reg_weight }),
        make,
    )
}

/// In an evolution no member gets worse: at each place the fitness of a generation is that
/// of the generation before, or less.
pub proof fn law_generation_improves<T: Number, M: Elementary<T>, P: CalibModel<T, M>>(
    m: M,
    quotes: Seq<CalibInput<T>>,
    pop: Seq<Seq<T>>,
    next: Seq<Seq<T>>,
    i: int,
)
    requires
        is_generation::<T, M, P>(m, quotes, pop, next),
        0 <= i < pop.len(),
    ensures
        next[i] == pop[i] || fitness_spec::<T, M, P>(m, quotes, next[i]).is_lt(
            &fitness_spec::<T, M, P>(m, quotes, pop[i]),
        ),
{
    assert(is_successor::<T, M, P>(m, quotes, pop, i, next[i]));
}

/// The winner is at least as fit as any member of the last generation: none ranks before it; and
/// where ranks follow the order of the numbers, none has a smaller sum of squares.
pub proof fn law_winner_is_fittest<T: Number, M: Elementary<T>, P: CalibModel<T, M>>(
    m: M,
    quotes: Seq<CalibInput<T>>,
    pop: Seq<Seq<T>>,
    i: int,
)
    requires
        0 <= i < pop.len(),
    ensures
        rank_of(m, fitness_spec::<T, M, P>(m, quotes, winner::<T, M, P>(m, quotes, pop)))
            <= rank_of(m, fitness_spec::<T, M, P>(m, quotes, pop[i])),
        ranks_follow_order::<T, M>(m) ==> !fitness_spec::<T, M, P>(m, quotes, pop[i]).is_lt(
            &fitness_spec::<T, M, P>(m, quotes, winner::<T, M, P>(m, quotes, pop)),
        ),
{
    let ranks = fitness_ranks::<T, M, P>(m, quotes, pop);
    law_first_min(ranks);
    assert(ranks[first_min(ranks)] <= ranks[i]);
}

} // verus!
