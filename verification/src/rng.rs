//! The random source: a seeded `StdRng` from the `rand` crate, behind
//! trusted wrappers.  Every search strategy draws through these, so a run is
//! reproducible from its seed.

use vstd::prelude::*;
use rand::Rng;
use rand::SeedableRng;
use rand::seq::SliceRandom;

verus! {

/// `rand`'s standard seedable generator, opaque to verification.
#[verifier::external_type_specification]
#[verifier::external_body]
pub struct ExStdRng(rand::rngs::StdRng);

/// Relies on `rand_core::SeedableRng::seed_from_u64`: builds the generator
/// deterministically from the seed.  Nothing about the stream is assumed.
#[verifier::external_body]
pub fn rng_from_seed(seed: u64) -> rand::rngs::StdRng {
    rand::rngs::StdRng::seed_from_u64(seed)
}

/// Relies on `rand::Rng::gen_range`: returns a value of the given range and
/// panics only when the range is empty, which the precondition rules out.
#[verifier::external_body]
pub fn rand_below(rng: &mut rand::rngs::StdRng, high: usize) -> (r: usize)
    requires
        high >= 1,
    ensures
        r < high,
{
    rng.gen_range(0..high)
}

/// Relies on `rand::Rng::gen::<bool>`: a fair coin.  Nothing can be promised
/// of the outcome.
#[verifier::external_body]
pub fn rand_coin(rng: &mut rand::rngs::StdRng) -> bool {
    rng.gen::<bool>()
}

/// Relies on `rand::Rng::gen_ratio`: returns true with probability
/// `num/den` and panics only when `den == 0` or `num > den`, which the
/// precondition rules out.  Nothing can be promised of the outcome.
#[verifier::external_body]
pub fn rand_ratio(rng: &mut rand::rngs::StdRng, num: u32, den: u32) -> bool
    requires
        den >= 1,
        num <= den,
{
    rng.gen_ratio(num, den)
}

/// Relies on `rand::seq::SliceRandom::shuffle`: permutes the first `upto`
/// elements in place (Fisher–Yates), so their multiset is unchanged and the
/// rest of the vector is untouched.
#[verifier::external_body]
pub fn shuffle_prefix<T>(rng: &mut rand::rngs::StdRng, v: &mut Vec<T>, upto: usize)
    requires
        upto <= old(v)@.len(),
    ensures
        final(v)@.len() == old(v)@.len(),
        final(v)@.subrange(0, upto as int).to_multiset() == old(v)@.subrange(
            0,
            upto as int,
        ).to_multiset(),
        final(v)@.subrange(upto as int, final(v)@.len() as int) == old(v)@.subrange(
            upto as int,
            old(v)@.len() as int,
        ),
{
    v[..upto].shuffle(rng)
}

} // verus!
