//! Probe sequences: the bucket indices tried for a key in one sub-array.
//!
//! A probe sequence is drawn from a pseudo-random generator seeded with the
//! key's digest plus the sub-array's index, so the same key, sub-array and
//! table size always give the same indices in the same order.

use rand::distr::{Distribution, Uniform};
use rand::rngs::StdRng;
use rand::SeedableRng;
use vstd::prelude::*;

verus! {

/// How many buckets are tried per sub-array.
pub const PROBE_LIMIT: usize = 10;

/// `rand::rngs::StdRng`, the generator the probes are drawn from. Nothing is
/// known of a value of it but what [`rng_state`] stands for.
#[verifier::external_type_specification]
#[verifier::external_body]
pub struct ExStdRng(StdRng);

/// What a generator holds: its internal state, as plain bytes. Two generators
/// in the same state give the same values from then on.
pub uninterp spec fn rng_state(rng: StdRng) -> Seq<u8>;

/// The state of a generator that `StdRng::seed_from_u64` made from `seed`.
pub uninterp spec fn seeded_state(seed: u64) -> Seq<u8>;

/// One draw from the uniform distribution over `[0, bound)` by a generator
/// in state `state`, as `Uniform::sample` makes it: the index drawn, and the
/// state the generator is left in.
pub uninterp spec fn uniform_draw(bound: usize, state: Seq<u8>) -> (usize, Seq<u8>);

/// Calls `StdRng::seed_from_u64`. The generator it returns is a function of
/// the seed alone: the seed is expanded by a fixed recurrence into the key of
/// a ChaCha stream, with no other input.
#[verifier::external_body]
fn seeded_rng(seed: u64) -> (rng: StdRng)
    ensures
        rng_state(rng) == seeded_state(seed),
{
    StdRng::seed_from_u64(seed)
}

/// Builds `Uniform` over `0..bound` with `Uniform::try_from`, which succeeds
/// for every non-empty range, and calls `Distribution::sample` on it once.
/// The index drawn is below `bound`, and it and the state the generator is
/// left in are functions of `bound` and of the state the generator was in.
#[verifier::external_body]
fn draw_below(bound: usize, rng: &mut StdRng) -> (index: usize)
    requires
        bound > 0,
    ensures
        index < bound,
        (index, rng_state(*final(rng))) == uniform_draw(bound, rng_state(*old(rng))),
{
    Uniform::try_from(0..bound).expect("Invalid probe range").sample(rng)
}

/// The seed of the generator for a sub-array: the key's digest plus the
/// sub-array's index, wrapping around at `2^64`.
pub open spec fn probe_seed(digest: u64, sub_array: usize) -> u64 {
    digest.wrapping_add(sub_array as u64)
}

/// The state of a generator that started in state `start` and has made
/// `draws` draws below `bound`.
pub open spec fn state_after(bound: usize, start: Seq<u8>, draws: nat) -> Seq<u8>
    decreases draws,
{
    if draws == 0 {
        start
    } else {
        uniform_draw(bound, state_after(bound, start, (draws - 1) as nat)).1
    }
}

/// The probe sequence of a key with digest `digest` in sub-array `sub_array`
/// of a table with `size` buckets: the first `PROBE_LIMIT` draws below `size`
/// of a generator seeded with [`probe_seed`].
pub open spec fn probe_indices(digest: u64, sub_array: usize, size: usize) -> Seq<usize> {
    Seq::new(
        PROBE_LIMIT as nat,
        |j: int|
            uniform_draw(
                size,
                state_after(size, seeded_state(probe_seed(digest, sub_array)), j as nat),
            ).0,
    )
}

/// The walk of a key with digest `digest` over a table with `size` buckets
/// and `rounds` sub-arrays: the probe sequences of the sub-arrays, in the
/// order of the sub-arrays, one after the other.
pub open spec fn probe_walk(digest: u64, size: usize, rounds: nat) -> Seq<usize> {
    Seq::new(
        rounds * PROBE_LIMIT as nat,
        |step: int|
            probe_indices(digest, (step / PROBE_LIMIT as int) as usize, size)[step
                % PROBE_LIMIT as int],
    )
}

/// The walk is made of the probe sequences: the stretch of `PROBE_LIMIT`
/// positions that starts at `i * PROBE_LIMIT` is the probe sequence of
/// sub-array `i`.
pub proof fn lemma_walk_round(digest: u64, size: usize, rounds: nat, i: usize)
    requires
        i < rounds,
    ensures
        (i + 1) * PROBE_LIMIT <= probe_walk(digest, size, rounds).len(),
        probe_walk(digest, size, rounds).subrange(i * PROBE_LIMIT, (i + 1) * PROBE_LIMIT)
            == probe_indices(digest, i, size),
{
    let walk = probe_walk(digest, size, rounds);
    assert((i + 1) * PROBE_LIMIT <= rounds * PROBE_LIMIT) by (nonlinear_arith)
        requires
            i < rounds,
    ;
    assert forall|j: int| 0 <= j < PROBE_LIMIT implies walk[i * PROBE_LIMIT + j] == probe_indices(
        digest,
        i,
        size,
    )[j] by {
        let step = i * PROBE_LIMIT + j;
        assert(step / PROBE_LIMIT as int == i && step % PROBE_LIMIT as int == j);
    }
    assert(walk.subrange(i * PROBE_LIMIT, (i + 1) * PROBE_LIMIT) =~= probe_indices(
        digest,
        i,
        size,
    ));
}

/// Draws the probe sequence of a key with digest `digest` in sub-array
/// `sub_array` of a table with `size` buckets. The result depends on these
/// three alone, and every index in it is below `size`.
pub fn draw_probes(digest: u64, sub_array: usize, size: usize) -> (probes: Vec<usize>)
    requires
        size > 0,
    ensures
        probes@ == probe_indices(digest, sub_array, size),
        probes@.len() == PROBE_LIMIT,
        forall|j: int| 0 <= j < probes@.len() ==> probes@[j] < size,
{
    let seed: u64 = digest.wrapping_add(sub_array as u64);
    let mut rng = seeded_rng(seed);
    let ghost start = rng_state(rng);
    let mut probes: Vec<usize> = Vec::new();
    let mut drawn: usize = 0;
    while drawn < PROBE_LIMIT
        invariant
            size > 0,
            drawn <= PROBE_LIMIT,
            start == seeded_state(probe_seed(digest, sub_array)),
            rng_state(rng) == state_after(size, start, drawn as nat),
            probes@.len() == drawn,
            forall|j: int|
                0 <= j < drawn ==> probes@[j] == uniform_draw(
                    size,
                    state_after(size, start, j as nat),
                ).0,
            forall|j: int| 0 <= j < drawn ==> probes@[j] < size,
        decreases PROBE_LIMIT - drawn,
    {
        let index: usize = draw_below(size, &mut rng);
        probes.push(index);
        drawn = drawn + 1;
    }
    assert(probes@ =~= probe_indices(digest, sub_array, size));
    probes
}

} // verus!
