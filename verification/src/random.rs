use vstd::prelude::*;

use rand::rngs::StdRng;
use rand::seq::SliceRandom;
use rand::Rng;
use rand::SeedableRng;

verus! {

#[verifier::external_type_specification]
#[verifier::external_body]
pub struct ExStdRng(StdRng);

/// `rand::SeedableRng::seed_from_u64` for `StdRng`: a generator whose whole
/// sequence of draws is fixed by `seed`. Nothing is stated of its state.
#[verifier::external_body]
pub(crate) fn seeded_rng(seed: u64) -> (rng: StdRng) {
    StdRng::seed_from_u64(seed)
}

/// `rand::Rng::random_range` on a `StdRng` over `lo..hi`: the rand documentation
/// promises a value in the range, and a panic when the range is empty, which
/// `requires` leaves out.
#[verifier::external_body]
pub(crate) fn std_random_range(rng: &mut StdRng, lo: usize, hi: usize) -> (r: usize)
    requires
        lo < hi,
    ensures
        lo <= r < hi,
{
    rng.random_range(lo..hi)
}

/// `rand::random_range` (a draw of the thread-local generator) over `lo..hi` for
/// `u64`: a value in the range; an empty range, on which it panics, is left out.
#[verifier::external_body]
pub(crate) fn thread_random_range_u64(lo: u64, hi: u64) -> (r: u64)
    requires
        lo < hi,
    ensures
        lo <= r < hi,
{
    rand::random_range(lo..hi)
}

/// `rand::random_range` (a draw of the thread-local generator) over `lo..hi` for
/// `usize`: a value in the range; an empty range, on which it panics, is left out.
#[verifier::external_body]
pub(crate) fn thread_random_range(lo: usize, hi: usize) -> (r: usize)
    requires
        lo < hi,
    ensures
        lo <= r < hi,
{
    rand::random_range(lo..hi)
}

/// `rand::seq::SliceRandom::shuffle` with the thread-local generator: the slice
/// ends up holding the same items in some order, which this states as an equal
/// multiset; which order comes out is left unsaid, as it rests on chance.
#[verifier::external_body]
pub(crate) fn shuffle_doors(v: &mut Vec<usize>)
    ensures
        final(v)@.len() == old(v)@.len(),
        final(v)@.to_multiset() == old(v)@.to_multiset(),
{
    v.shuffle(&mut rand::rng())
}

} // verus!
