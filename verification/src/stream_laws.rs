//! Where randomness comes from: every chunk of a simulation, every start of a fit and every member
//! of an evolution has a stream of its own, made from a seed that tells it from all others.
use crate::calibration::{starts_spec, CalibInput, CalibModel, RandomStart};
use crate::characteristic::JumpParams;
use crate::evolution::{
    first_population_spec, law_member_seed_undone, next_generation, population_after,
    successor_spec,
};
use crate::exact::exact;
use crate::mc::{
    chunk_boundary, mc_chunk_spec, mc_total, paths_per_pair, McConfig, PathSetup, Payoff,
};
use crate::number::{Elementary, Number};
use crate::random::{
    law_chunk_seed_undone, law_splitmix64_undone, made_by, splitmix64_spec, unmixed, RandomSource,
};
use crate::rough::{rough_chunk_spec, rough_total, RoughGrid};
use vstd::prelude::*;


verus! {

/// A chunk of a simulation is tallied from a stream of its own: the seed that the stream is made
/// from holds the seed of the simulation and the number of the chunk. What the chunk adds to the
/// sum and to the sum of the squares is what it comes to by itself.
pub proof fn law_chunk_has_own_stream<
    T: Number,
    M: Elementary<T>,
    S: RandomSource<T>,
    F: Fn(u64) -> S,
>(
    m: M,
    v: spec_fn(T) -> real,
    make: F,
    setup: PathSetup<T>,
    jumps: Option<JumpParams<T>>,
    payoff: Payoff<T>,
    rate: T,
    expiry: T,
    cfg: McConfig,
    n_chunks: int,
    n: u64,
    seed: u64,
)
    requires
        exact(v),
        unmixed(seed) == cfg.seed ^ n,
        seed == splitmix64_spec(unmixed(seed)),
    ensures
        ({
            let before = mc_total(
                m,
                make,
                setup,
                jumps,
                payoff,
                rate,
                expiry,
                cfg,
                n_chunks,
                n as int,
            );
            let after = mc_total(
                m,
                make,
                setup,
                jumps,
                payoff,
                rate,
                expiry,
                cfg,
                n_chunks,
                n + 1,
            );
            let n_pairs = cfg.n_paths as int / paths_per_pair(cfg.antithetic);
            let size = chunk_boundary(n_pairs, n_chunks, n + 1) - chunk_boundary(
                n_pairs,
                n_chunks,
                n as int,
            );
            let chunk = mc_chunk_spec(
                m,
                made_by(make, seed),
                setup,
                jumps,
                payoff,
                rate,
                expiry,
                size,
                cfg.n_steps as int,
                cfg.antithetic,
            ).0;
            &&& v(after.sum) == v(before.sum) + v(chunk.sum)
            &&& v(after.sum_sq) == v(before.sum_sq) + v(chunk.sum_sq)
            &&& before.count + chunk.count <= usize::MAX ==> after.count == before.count
                + chunk.count
        }),
{
    law_chunk_seed_undone(cfg.seed, n);
}

/// A chunk of a simulation of the rough model is tallied from a stream of its own: the seed that
/// the stream is made from holds the seed of the simulation and the number of the chunk.
pub proof fn law_rough_chunk_has_own_stream<
    T: Number,
    M: Elementary<T>,
    S: RandomSource<T>,
    F: Fn(u64) -> S,
>(
    m: M,
    v: spec_fn(T) -> real,
    make: F,
    setup: RoughGrid<T>,
    spot: T,
    drift0: T,
    payoff: Payoff<T>,
    rate: T,
    expiry: T,
    cfg: McConfig,
    n_chunks: int,
    n: u64,
    seed: u64,
)
    requires
        exact(v),
        unmixed(seed) == cfg.seed ^ n,
        seed == splitmix64_spec(unmixed(seed)),
    ensures
        ({
            let before = rough_total(
                m,
                make,
                setup,
                spot,
                drift0,
                payoff,
                rate,
                expiry,
                cfg,
                n_chunks,
                n as int,
            );
            let after = rough_total(
                m,
                make,
                setup,
                spot,
                drift0,
                payoff,
                rate,
                expiry,
                cfg,
                n_chunks,
                n + 1,
            );
            let n_pairs = cfg.n_paths as int / paths_per_pair(cfg.antithetic);
            let size = chunk_boundary(n_pairs, n_chunks, n + 1) - chunk_boundary(
                n_pairs,
                n_chunks,
                n as int,
            );
            let chunk = rough_chunk_spec(
                m,
                made_by(make, seed),
                setup,
                spot,
                drift0,
                payoff,
                rate,
                expiry,
                size,
                cfg.n_steps as int,
                cfg.antithetic,
            ).0;
            &&& v(after.sum) == v(before.sum) + v(chunk.sum)
            &&& v(after.sum_sq) == v(before.sum_sq) + v(chunk.sum_sq)
            &&& before.count + chunk.count <= usize::MAX ==> after.count == before.count
                + chunk.count
        }),
{
    law_chunk_seed_undone(cfg.seed, n);
}

/// The first of several fits starts where it is told; each other from a random start, drawn from a
/// stream of its own: the seed that the stream is made from holds the seed of the fits and the
/// number of the start.
pub proof fn law_start_has_own_stream<
    T: Number,
    M: Elementary<T>,
    P: RandomStart<T, M, S>,
    S: RandomSource<T>,
    F: Fn(u64) -> S,
>(m: M, make: F, seed: u64, p0: P, n: int, i: u64, own: u64)
    requires
        0 < i < n,
        unmixed(own) == seed ^ i,
        own == splitmix64_spec(unmixed(own)),
    ensures
        ({
            let starts = starts_spec::<T, M, P, S, F>(m, make, seed, p0, n);
            &&& starts.len() == n
            &&& starts[0] == p0
            &&& starts[i as int] == P::random_guess_spec(m, made_by(make, own)).0
        }),
{
    law_chunk_seed_undone(seed, i);
}

/// The first population of an evolution is drawn from the stream of the mixed seed. After it, each
/// member of each generation comes from the generation before and a stream of its own: the seed
/// that the stream is made from holds the seed of the evolution, the generation and the number of
/// the member.
pub proof fn law_member_has_own_stream<
    T: Number,
    M: Elementary<T>,
    P: CalibModel<T, M>,
    S: RandomSource<T>,
    F: Fn(u64) -> S,
>(
    m: M,
    make: F,
    quotes: Seq<CalibInput<T>>,
    size: int,
    seed: u64,
    gen: u64,
    i: u64,
    first: u64,
    own: u64,
)
    requires
        unmixed(first) == seed,
        first == splitmix64_spec(unmixed(first)),
        unmixed(own) == seed ^ (gen << 32) ^ i,
        own == splitmix64_spec(unmixed(own)),
        i <= usize::MAX,
    ensures
        ({
            let start = population_after::<T, M, P, S, F>(m, make, quotes, size, seed, 0);
            let pop = population_after::<T, M, P, S, F>(m, make, quotes, size, seed, gen as int);
            let next = population_after::<T, M, P, S, F>(m, make, quotes, size, seed, gen + 1);
            let of_first = made_by(make, first);
            let of_member = made_by(make, own);
            &&& start == first_population_spec::<T, M, P, S>(m, of_first, quotes, size).0
            &&& next.len() == pop.len()
            &&& i < pop.len() ==> next[i as int] == successor_spec::<T, M, P, S>(
                m,
                of_member,
                quotes,
                pop,
                i as usize,
            )
        }),
{
    law_splitmix64_undone(seed);
    law_member_seed_undone(seed, gen, i);
    let pop = population_after::<T, M, P, S, F>(m, make, quotes, size, seed, gen as int);
    let next = population_after::<T, M, P, S, F>(m, make, quotes, size, seed, gen + 1);
    assert(next == next_generation::<T, M, P, S, F>(m, make, quotes, pop, seed, gen));
}

} // verus!
