use rand::rngs::OsRng;
use rand::SeedableRng;
use rand_chacha::ChaCha8Rng;
use vstd::prelude::*;

verus! {

/// The swarm's random number generator, ChaCha with 8 rounds, as
/// `rand_chacha` defines it.
#[verifier::external_type_specification]
#[verifier::external_body]
pub struct ExChaCha8Rng(ChaCha8Rng);

/// The error a random number source reports, as `rand` defines it.
#[verifier::external_type_specification]
#[verifier::external_body]
pub struct ExRandError(rand::Error);

/// The generator that `SeedableRng::seed_from_u64` builds from a seed.
pub uninterp spec fn generator_from_seed(seed: u64) -> ChaCha8Rng;

/// `SeedableRng::seed_from_u64` for `ChaCha8Rng`: expands the seed with PCG32
/// into a 32-byte key and builds the generator from it. The contract claims
/// only what `rand_core` documents: the result is a function of the seed.
#[verifier::external_body]
fn seed_from_u64(seed: u64) -> (r: ChaCha8Rng)
    ensures
        r == generator_from_seed(seed),
{
    ChaCha8Rng::seed_from_u64(seed)
}

/// `SeedableRng::from_rng` for `ChaCha8Rng` over `OsRng`: fills a 32-byte key
/// from the operating system's entropy source, or returns the error that
/// source reported. Nothing is claimed of the result, which differs from run
/// to run and rests on the operating system.
#[verifier::external_body]
fn from_os_entropy() -> (r: Result<ChaCha8Rng, rand::Error>) {
    ChaCha8Rng::from_rng(OsRng)
}

/// The generator for a swarm: seeded from `seed` when one is given, so that
/// equal seeds replay equal swarms, else from fresh operating-system entropy;
/// `None` only when no seed was given and that entropy could not be had.
pub fn swarm_rng(seed: Option<u64>) -> (r: Option<ChaCha8Rng>)
    ensures
        seed matches Some(s) ==> r == Some(generator_from_seed(s)),
{
    match seed {
        Some(s) => Some(seed_from_u64(s)),
        None => match from_os_entropy() {
            Ok(rng) => Some(rng),
            Err(_) => None,
        },
    }
}

} // verus!
