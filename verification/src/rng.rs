//! Trusted interface to the `rand` crate.
//!
//! Mine placement draws a uniform random subset of tile indices once, at
//! board construction. The contract promises only what holds of every
//! outcome: the count, the range, and distinctness. Which indices come back
//! is left entirely open.

use vstd::prelude::*;

verus! {

#[verifier::external_type_specification]
#[verifier::external_body]
pub struct ExThreadRng(rand::rngs::ThreadRng);

/// Relies on `rand::thread_rng`: a handle to the thread-local generator.
/// Nothing is promised of it.
#[verifier::external_body]
pub(crate) fn fresh_rng() -> rand::rngs::ThreadRng {
    rand::thread_rng()
}

/// Relies on `rand::seq::index::sample`: exactly `amount` distinct indices
/// drawn from `0..length`. The call panics when `amount > length`, which the
/// precondition rules out; nothing is assumed about which indices come back
/// or in what order.
#[verifier::external_body]
pub(crate) fn sample_indices(
    rng: &mut rand::rngs::ThreadRng,
    length: usize,
    amount: usize,
) -> (indices: Vec<usize>)
    requires
        amount <= length,
    ensures
        indices@.len() == amount,
        indices@.no_duplicates(),
        forall|k: int| 0 <= k < indices@.len() ==> #[trigger] indices@[k] < length,
{
    rand::seq::index::sample(rng, length, amount).into_vec()
}

} // verus!
