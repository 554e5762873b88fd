//! Seeds and generators of random numbers, one for each path.
use rand::SeedableRng;
use rand::rngs::StdRng;
use vstd::prelude::*;

verus! {

/// `rand`'s `StdRng`, the generator of random numbers that paths are simulated
/// with. Nothing is known of what is inside.
#[verifier::external_type_specification]
#[verifier::external_body]
pub struct ExStdRng(rand::rngs::StdRng);

/// The generator that `rand` makes of a seed.
pub uninterp spec fn seeded(seed: u64) -> StdRng;

/// `SeedableRng::seed_from_u64` of `rand`'s `StdRng`: the generator that it
/// returns is determined by the seed alone.
#[verifier::external_body]
fn seed_from_u64(seed: u64) -> (rng: StdRng)
    ensures
        rng == seeded(seed),
{
    StdRng::seed_from_u64(seed)
}

/// `rand::random`: a number drawn from the thread's own generator. Nothing is
/// claimed of it.
#[verifier::external_body]
fn draw() -> (n: u64) {
    rand::random()
}

/// The seed of path `index`: `index` further than the seed of the run, wrapping
/// around at the end of the range.
pub open spec fn spec_path_seed(base: u64, index: u64) -> u64 {
    ((base + index) % 0x1_0000_0000_0000_0000) as u64
}

/// The seed of a run: the one asked for, or else the one drawn.
pub open spec fn spec_seed_or(seed: Option<u64>, drawn: u64) -> u64 {
    match seed {
        Some(s) => s,
        None => drawn,
    }
}

/// The seed asked for, or else the one drawn.
#[verifier::when_used_as_spec(spec_seed_or)]
pub fn seed_or(seed: Option<u64>, drawn: u64) -> (base: u64)
    ensures
        base == spec_seed_or(seed, drawn),
        seed matches Some(s) ==> base == s,
        seed is None ==> base == drawn,
{
    match seed {
        Some(s) => s,
        None => drawn,
    }
}

/// The seed of a run: the one asked for, or else one that is drawn now.
pub fn base_seed(seed: Option<u64>) -> (base: u64)
    ensures
        seed matches Some(s) ==> base == s,
{
    if seed.is_some() {
        seed_or(seed, 0)
    } else {
        seed_or(seed, draw())
    }
}

/// The seed of path `index`.
#[verifier::when_used_as_spec(spec_path_seed)]
pub fn path_seed(base: u64, index: u64) -> (seed: u64)
    ensures
        seed == spec_path_seed(base, index),
{
    base.wrapping_add(index)
}

/// The generator that path `index` of a run is simulated with.
pub open spec fn generator(base: u64, index: u64) -> StdRng {
    seeded(path_seed(base, index))
}

/// The generator that path `index` of a run is simulated with.
pub fn path_rng(base: u64, index: u64) -> (rng: StdRng)
    ensures
        rng == seeded(path_seed(base, index)),
        rng == generator(base, index),
{
    seed_from_u64(path_seed(base, index))
}

/// No two paths of a run share a seed.
pub proof fn lemma_path_seeds_differ(base: u64, i: u64, j: u64)
    requires
        i != j,
    ensures
        path_seed(base, i) != path_seed(base, j),
{
}

/// The seed of a run is the one asked for, whatever is drawn, so that a run with a
/// seed can be repeated. Where none is asked for, it is the one drawn.
pub proof fn lemma_seed_is_the_one_asked_for(seed: u64, drawn: u64, drawn_again: u64)
    ensures
        seed_or(Some(seed), drawn) == seed,
        seed_or(Some(seed), drawn) == seed_or(Some(seed), drawn_again),
        seed_or(None, drawn) == drawn,
{
}

/// The seeds of a run count up from its own, wrapping around at the end of the
/// range.
pub proof fn lemma_path_seeds_count_up(base: u64, i: u64)
    ensures
        path_seed(base, 0) == base,
        i < u64::MAX ==> path_seed(base, (i + 1) as u64) == if path_seed(base, i) == u64::MAX {
            0
        } else {
            path_seed(base, i) + 1
        },
        base + i <= u64::MAX ==> path_seed(base, i) == base + i,
        base + i > u64::MAX ==> path_seed(base, i) == base + i - u64::MAX - 1,
{
}

/// A run that starts `k` seeds later repeats the seeds of the paths from path `k`
/// on.
pub proof fn lemma_path_seeds_shift(base: u64, k: u64, i: u64)
    requires
        i + k <= u64::MAX,
    ensures
        path_seed(path_seed(base, k), i) == path_seed(base, (i + k) as u64),
{
}

/// The generator of a path is the one that `rand` makes of a seed as far from that of
/// the run as the path is from the first one; so a run that starts `k` seeds later
/// repeats the paths of this one from path `k` on.
pub proof fn lemma_generators(base: u64, k: u64, i: u64)
    requires
        i + k <= u64::MAX,
    ensures
        generator(base, 0) == seeded(base),
        base + i <= u64::MAX ==> generator(base, i) == seeded((base + i) as u64),
        base + i > u64::MAX ==> generator(base, i) == seeded((base + i - u64::MAX - 1) as u64),
        generator(path_seed(base, k), i) == generator(base, (i + k) as u64),
{
    lemma_path_seeds_count_up(base, i);
    lemma_path_seeds_shift(base, k, i);
}

} // verus!
