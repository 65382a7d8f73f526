//! The generator's source of entropy: rand's standard generator behind
//! trusted wrappers. Nothing is assumed of the values drawn beyond what
//! rand documents of every outcome, so the maze invariants hold whatever
//! comes back.

use vstd::prelude::*;

verus! {

/// rand's standard seedable generator, opaque to the verifier.
#[verifier::external_type_specification]
#[verifier::external_body]
pub struct ExStdRng(rand::rngs::StdRng);

/// Relies on rand's `SeedableRng::from_entropy`: a fresh generator seeded
/// from the operating system. Nothing is known of its state, and the call
/// aborts only when the operating system cannot supply entropy at all.
#[verifier::external_body]
pub(crate) fn rng_from_entropy() -> rand::rngs::StdRng {
    <rand::rngs::StdRng as rand::SeedableRng>::from_entropy()
}

/// Relies on rand's `Rng::gen_range` over `0..n`: a value of the range,
/// uniformly drawn; the call panics only on an empty range, which the
/// precondition rules out.
#[verifier::external_body]
pub(crate) fn gen_below(rng: &mut rand::rngs::StdRng, n: usize) -> (r: usize)
    requires
        n >= 1,
    ensures
        r < n,
{
    rand::Rng::gen_range(rng, 0..n)
}

/// Relies on rand's `SliceRandom::shuffle`: a Fisher-Yates pass that permutes
/// the slice in place, so the elements afterwards are the elements before,
/// multiplicity included, in some order.
#[verifier::external_body]
pub(crate) fn shuffle<T>(rng: &mut rand::rngs::StdRng, v: &mut Vec<T>)
    ensures
        final(v)@.to_multiset() == old(v)@.to_multiset(),
{
    rand::seq::SliceRandom::shuffle(v.as_mut_slice(), rng)
}

} // verus!
