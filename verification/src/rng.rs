//! Trusted wrappers around the pseudorandom generator.
//!
//! All randomness in the crate flows through an explicit, seedable
//! `StdRng` handed into every randomness-consuming function, so a run is
//! reproducible from its seed. Nothing is assumed about which values come
//! out beyond the bounds each wrapper states; every caller is verified for
//! every outcome.

use rand::rngs::StdRng;
use rand::seq::SliceRandom;
use rand::Rng;
use rand::SeedableRng;
use vstd::prelude::*;

verus! {

#[verifier::external_type_specification]
#[verifier::external_body]
pub struct ExStdRng(StdRng);

/// Relies on rand's `StdRng::seed_from_u64`: builds a generator from a
/// 64-bit seed. Nothing is claimed of the stream it produces.
#[verifier::external_body]
pub(crate) fn rng_from_seed(seed: u64) -> StdRng {
    StdRng::seed_from_u64(seed)
}

/// Relies on rand's `Rng::gen_ratio`: true with probability
/// `numerator / denominator`; its documentation promises always false for
/// a zero numerator and always true when the ratio is one.
#[verifier::external_body]
pub(crate) fn rand_ratio(rng: &mut StdRng, numerator: u32, denominator: u32) -> (r: bool)
    requires
        denominator > 0,
        numerator <= denominator,
    ensures
        numerator == 0 ==> !r,
        numerator == denominator ==> r,
{
    rng.gen_ratio(numerator, denominator)
}

/// Relies on rand's `Rng::gen_range` over an inclusive range: a uniformly
/// drawn value between the two bounds, both included.
#[verifier::external_body]
pub(crate) fn rand_between(rng: &mut StdRng, low: usize, high: usize) -> (r: usize)
    requires
        low <= high,
    ensures
        low <= r <= high,
{
    rng.gen_range(low..=high)
}

/// Relies on rand's `SliceRandom::choose`: `None` exactly on an empty
/// slice, otherwise a uniformly chosen element of it.
#[verifier::external_body]
pub(crate) fn choose_pair(rng: &mut StdRng, v: &Vec<(usize, usize)>) -> (r: Option<
    (usize, usize),
>)
    ensures
        r is Some <==> v@.len() > 0,
        r matches Some(p) ==> exists|i: int| 0 <= i < v@.len() && v@[i] == p,
{
    v.as_slice().choose(rng).copied()
}

/// Relies on rand's `index::sample`: exactly `amount` distinct indices
/// drawn from `0..length`, in random order.
#[verifier::external_body]
pub(crate) fn sample_indices(rng: &mut StdRng, length: usize, amount: usize) -> (r: Vec<usize>)
    requires
        amount <= length,
    ensures
        r@.len() == amount,
        forall|i: int| 0 <= i < r@.len() ==> #[trigger] r@[i] < length,
        forall|i: int, k: int| 0 <= i < k < r@.len() ==> r@[i] != r@[k],
{
    rand::seq::index::sample(rng, length, amount).into_vec()
}

} // verus!
