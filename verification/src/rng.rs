//! Trusted boundary to the `rand` / `rand_pcg` crates.
//!
//! The engine threads one explicitly seeded `rand_pcg::Pcg64` generator per
//! logical unit of work through its functions, so runs are reproducible under
//! a fixed seed.  Each wrapper below relies on one function of the outside
//! crates and states only what that function's source and documentation show;
//! nothing is claimed about the distribution of the drawn values.

use vstd::prelude::*;

use rand::Rng;
use rand::RngCore;
use rand::SeedableRng;
use rand::seq::IteratorRandom;
use rand::seq::SliceRandom;

verus! {

/// The pseudo-random generator used throughout the engine
/// (`rand_pcg::Pcg64` is an alias of this struct).
#[verifier::external_type_specification]
#[verifier::external_body]
pub struct ExLcg128Xsl64(rand_pcg::Lcg128Xsl64);

/// Relies on rand_core::SeedableRng::seed_from_u64: a generator
/// deterministically derived from the given seed, so per-worker generators
/// stay reproducible under a fixed master seed.
#[verifier::external_body]
pub(crate) fn rng_from_seed(seed: u64) -> rand_pcg::Pcg64 {
    rand_pcg::Pcg64::seed_from_u64(seed)
}

/// Relies on rand::Rng::gen_range over `0..n`: returns a value of the
/// non-empty range (it panics on an empty one, hence the precondition).
#[verifier::external_body]
pub(crate) fn rand_below(rng: &mut rand_pcg::Pcg64, n: usize) -> (r: usize)
    requires
        n >= 1,
    ensures
        r < n,
{
    rng.gen_range(0..n)
}

/// Relies on rand::Rng::gen_ratio: a Boolean that is true with probability
/// `num / den`; it panics if `den == 0` or `num > den`, hence the
/// precondition.  Nothing is known of a single outcome.
#[verifier::external_body]
pub(crate) fn rand_ratio(rng: &mut rand_pcg::Pcg64, num: u32, den: u32) -> (r: bool)
    requires
        den >= 1,
        num <= den,
{
    rng.gen_ratio(num, den)
}

/// Relies on rand_core::RngCore::next_u64: a uniformly drawn machine word.
/// Nothing is known of a single outcome.
#[verifier::external_body]
pub(crate) fn rand_u64(rng: &mut rand_pcg::Pcg64) -> u64 {
    rng.next_u64()
}

/// Relies on rand::seq::SliceRandom::shuffle: a Fisher-Yates shuffle that
/// permutes the slice in place, so the multiset of elements is unchanged.
#[verifier::external_body]
pub(crate) fn shuffle_vec(rng: &mut rand_pcg::Pcg64, v: &mut Vec<usize>)
    ensures
        final(v)@.len() == old(v)@.len(),
        final(v)@.to_multiset() == old(v)@.to_multiset(),
{
    v.shuffle(rng)
}

/// Relies on rand::seq::IteratorRandom::choose_multiple on the range `0..m`:
/// a uniform sample without replacement, so the result holds distinct indices
/// below `m`, and `amount` of them unless fewer are available.
#[verifier::external_body]
pub(crate) fn sample_indices(rng: &mut rand_pcg::Pcg64, m: usize, amount: usize) -> (r: Vec<
    usize,
>)
    ensures
        r@.len() == if amount <= m {
            amount as int
        } else {
            m as int
        },
        forall|k: int| 0 <= k < r@.len() ==> (#[trigger] r@[k]) < m,
        r@.no_duplicates(),
{
    (0..m).choose_multiple(rng, amount)
}

} // verus!
