//! Randomness as the simulations see it: a source of draws, and the seeds that tell one
//! stream of draws from another.
use vstd::arithmetic::div_mod::{lemma_mul_mod_noop_left, lemma_mul_mod_noop_right, lemma_small_mod};
use vstd::arithmetic::mul::lemma_mul_is_associative;
use vstd::prelude::*;

verus! {

/// A stream of random draws. A draw takes the stream and gives back the rest of it. Nothing is
/// promised about what is drawn.
pub trait RandomSource<T>: Sized {
    /// A draw from the interval from zero to one.
    fn unit(self) -> (T, Self);

    /// A draw from the interval from a trillionth to one.
    fn positive_unit(self) -> (T, Self);

    /// A draw from the interval from `lo` to `hi`.
    fn within(self, lo: T, hi: T) -> (T, Self);

    /// A draw from the integers below `n`.
    fn index(self, n: usize) -> (usize, Self);
}

/// What `s.unit()` returns.
pub open spec fn unit_of<T, S: RandomSource<T>>(s: S) -> (T, S) {
    choose|r: (T, S)| call_ensures(S::unit, (s,), r)
}

/// What `s.positive_unit()` returns.
pub open spec fn positive_unit_of<T, S: RandomSource<T>>(s: S) -> (T, S) {
    choose|r: (T, S)| call_ensures(S::positive_unit, (s,), r)
}

/// What `s.within(lo, hi)` returns.
pub open spec fn within_of<T, S: RandomSource<T>>(s: S, lo: T, hi: T) -> (T, S) {
    choose|r: (T, S)| call_ensures(S::within, (s, lo, hi), r)
}

/// What `s.index(n)` returns.
pub open spec fn index_of<T, S: RandomSource<T>>(s: S, n: usize) -> (usize, S) {
    choose|r: (usize, S)| call_ensures(<S as RandomSource<T>>::index, (s, n), r)
}

/// A draw is determined by the stream that it is taken from, as it is by the state of a
/// generator of pseudo-random numbers. Nothing is asked about what is drawn.
pub open spec fn steady<T, S: RandomSource<T>>() -> bool {
    &&& forall|s: S, r: (T, S)| #[trigger]
        call_ensures(S::unit, (s,), r) ==> r == unit_of::<T, S>(s)
    &&& forall|s: S, r: (T, S)| #[trigger]
        call_ensures(S::positive_unit, (s,), r) ==> r == positive_unit_of::<T, S>(s)
    &&& forall|s: S, lo: T, hi: T, r: (T, S)| #[trigger]
        call_ensures(S::within, (s, lo, hi), r) ==> r == within_of(s, lo, hi)
    &&& forall|s: S, n: usize, r: (usize, S)| #[trigger]
        call_ensures(<S as RandomSource<T>>::index, (s, n), r) ==> r == index_of::<T, S>(s, n)
}

/// What `make` returns on `seed`.
pub open spec fn made_by<S, F: Fn(u64) -> S>(make: F, seed: u64) -> S {
    choose|s: S| call_ensures(make, (seed,), s)
}

/// What `make` returns is determined by the seed.
pub open spec fn steady_maker<S, F: Fn(u64) -> S>(make: F) -> bool {
    forall|seed: u64, s: S| #[trigger]
        call_ensures(make, (seed,), s) ==> s == made_by(make, seed)
}

/// The seed of a stream: three rounds of mixing, each a shift and a multiplication modulo
/// two to the power sixty-four.
pub open spec fn splitmix64_spec(x: u64) -> u64 {
    let a = x.wrapping_add(0x9E3779B97F4A7C15);
    let b = (a ^ (a >> 30)).wrapping_mul(0xBF58476D1CE4E5B9);
    let c = (b ^ (b >> 27)).wrapping_mul(0x94D049BB133111EB);
    c ^ (c >> 31)
}

/// The seed of a stream.
pub fn splitmix64(x: u64) -> (res: u64)
    ensures
        res == splitmix64_spec(x),
{
    let a: u64 = x.wrapping_add(0x9E3779B97F4A7C15);
    let b: u64 = (a ^ (a >> 30)).wrapping_mul(0xBF58476D1CE4E5B9);
    let c: u64 = (b ^ (b >> 27)).wrapping_mul(0x94D049BB133111EB);
    c ^ (c >> 31)
}

/// The seed of chunk `i` of a simulation.
pub open spec fn chunk_seed_spec(seed: u64, i: u64) -> u64 {
    splitmix64_spec(seed ^ i)
}

/// The seed of chunk `i` of a simulation.
pub fn chunk_seed(seed: u64, i: u64) -> (res: u64)
    ensures
        res == chunk_seed_spec(seed, i),
{
    splitmix64(seed ^ i)
}

/// Multiplication by a factor with an inverse modulo two to the power sixty-four loses
/// nothing.
proof fn lemma_odd_factor(a: u64, b: u64, k: u64, inv: u64)
    requires
        (k as int * inv as int) % 0x1_0000_0000_0000_0000 == 1,
        a.wrapping_mul(k) == b.wrapping_mul(k),
    ensures
        a == b,
{
    lemma_factor_undone(a, k, inv);
    lemma_factor_undone(b, k, inv);
}

/// Multiplying by the inverse undoes the multiplication.
proof fn lemma_factor_undone(a: u64, k: u64, inv: u64)
    requires
        (k as int * inv as int) % 0x1_0000_0000_0000_0000 == 1,
    ensures
        (a.wrapping_mul(k) as int * inv as int) % 0x1_0000_0000_0000_0000 == a,
{
    let n = 0x1_0000_0000_0000_0000int;
    let p = a as int * k as int;
    assert(a.wrapping_mul(k) == p % n);
    lemma_mul_mod_noop_left(p, inv as int, n);
    lemma_mul_is_associative(a as int, k as int, inv as int);
    let q = k as int * inv as int;
    assert((a as int * q) % n == (a as int * (q % n)) % n) by {
        lemma_mul_mod_noop_right(a as int, q, n);
    }
    lemma_small_mod(a as nat, n as nat);
}

/// Different seeds stay different through the mixing.
pub proof fn law_splitmix64_injective(x: u64, y: u64)
    requires
        splitmix64_spec(x) == splitmix64_spec(y),
    ensures
        x == y,
{
    let a1 = x.wrapping_add(0x9E3779B97F4A7C15);
    let a2 = y.wrapping_add(0x9E3779B97F4A7C15);
    let b1 = (a1 ^ (a1 >> 30)).wrapping_mul(0xBF58476D1CE4E5B9);
    let b2 = (a2 ^ (a2 >> 30)).wrapping_mul(0xBF58476D1CE4E5B9);
    let c1 = (b1 ^ (b1 >> 27)).wrapping_mul(0x94D049BB133111EB);
    let c2 = (b2 ^ (b2 >> 27)).wrapping_mul(0x94D049BB133111EB);
    assert(c1 == c2) by (bit_vector)
        requires
            c1 ^ (c1 >> 31) == c2 ^ (c2 >> 31),
    ;
    assert((0x94D049BB133111EBint * 0x319642b2d24d8ec3int) % 0x1_0000_0000_0000_0000 == 1);
    lemma_odd_factor(b1 ^ (b1 >> 27), b2 ^ (b2 >> 27), 0x94D049BB133111EB, 0x319642b2d24d8ec3);
    assert(b1 == b2) by (bit_vector)
        requires
            b1 ^ (b1 >> 27) == b2 ^ (b2 >> 27),
    ;
    assert((0xBF58476D1CE4E5B9int * 0x96de1b173f119089int) % 0x1_0000_0000_0000_0000 == 1);
    lemma_odd_factor(a1 ^ (a1 >> 30), a2 ^ (a2 >> 30), 0xBF58476D1CE4E5B9, 0x96de1b173f119089);
    assert(a1 == a2) by (bit_vector)
        requires
            a1 ^ (a1 >> 30) == a2 ^ (a2 >> 30),
    ;
}

/// The number that is mixed into `y`: each step of the mixing undone, the last first.
pub open spec fn unmixed(y: u64) -> u64 {
    let c = y ^ (y >> 31) ^ (y >> 62);
    let b1 = c.wrapping_mul(0x319642b2d24d8ec3);
    let b = b1 ^ (b1 >> 27) ^ (b1 >> 54);
    let a1 = b.wrapping_mul(0x96de1b173f119089);
    let a = a1 ^ (a1 >> 30) ^ (a1 >> 60);
    a.wrapping_sub(0x9E3779B97F4A7C15)
}

/// The mixing can be undone, step by step.
pub proof fn law_splitmix64_undone(x: u64)
    ensures
        unmixed(splitmix64_spec(x)) == x,
{
    let a = x.wrapping_add(0x9E3779B97F4A7C15);
    let a1 = a ^ (a >> 30);
    let b = a1.wrapping_mul(0xBF58476D1CE4E5B9);
    let b1 = b ^ (b >> 27);
    let c = b1.wrapping_mul(0x94D049BB133111EB);
    let y = c ^ (c >> 31);
    assert(y ^ (y >> 31) ^ (y >> 62) == c) by (bit_vector)
        requires
            y == c ^ (c >> 31),
    ;
    assert((0x94D049BB133111EBint * 0x319642b2d24d8ec3int) % 0x1_0000_0000_0000_0000 == 1);
    lemma_factor_undone(b1, 0x94D049BB133111EB, 0x319642b2d24d8ec3);
    assert(c.wrapping_mul(0x319642b2d24d8ec3) == b1);
    assert(b1 ^ (b1 >> 27) ^ (b1 >> 54) == b) by (bit_vector)
        requires
            b1 == b ^ (b >> 27),
    ;
    assert((0xBF58476D1CE4E5B9int * 0x96de1b173f119089int) % 0x1_0000_0000_0000_0000 == 1);
    lemma_factor_undone(a1, 0xBF58476D1CE4E5B9, 0x96de1b173f119089);
    assert(b.wrapping_mul(0x96de1b173f119089) == a1);
    assert(a1 ^ (a1 >> 30) ^ (a1 >> 60) == a) by (bit_vector)
        requires
            a1 == a ^ (a >> 30),
    ;
}

/// The seed of a chunk is the seed of the simulation and the number of the chunk, mixed.
pub proof fn law_chunk_seed_undone(seed: u64, i: u64)
    ensures
        unmixed(chunk_seed_spec(seed, i)) == seed ^ i,
{
    law_splitmix64_undone(seed ^ i);
}

/// No two chunks of a simulation share a seed.
pub proof fn law_chunk_seeds_differ(seed: u64, i: u64, j: u64)
    requires
        i != j,
    ensures
        chunk_seed_spec(seed, i) != chunk_seed_spec(seed, j),
{
    if chunk_seed_spec(seed, i) == chunk_seed_spec(seed, j) {
        law_splitmix64_injective(seed ^ i, seed ^ j);
        assert(i == j) by (bit_vector)
            requires
                seed ^ i == seed ^ j,
        ;
    }
}

} // verus!
