//! The random generator that the renderer draws from, and the two draws
//! that the library makes itself.

use vstd::prelude::*;
use rand::Rng;
use rand::seq::SliceRandom;
use rand_chacha::ChaCha8Rng;

verus! {

/// The generator of `rand_chacha`. Its state is opaque here: nothing is
/// known of what it will draw next.
#[verifier::external_type_specification]
#[verifier::external_body]
pub struct ExChaCha8Rng(rand_chacha::ChaCha8Rng);

/// `Rng::random_range` of `rand` on the range `0..=2`. The range is not
/// empty, so the call returns, and its result lies in the range.
#[verifier::external_body]
pub(crate) fn draw_up_to_two(rng: &mut ChaCha8Rng) -> (n: u8)
    ensures
        n <= 2,
{
    let n: i32 = rng.random_range(0..=2);
    n as u8
}

/// `SliceRandom::shuffle` of `rand`. It reorders the table by swaps, so the
/// table holds afterwards what it held before, each value as often.
#[verifier::external_body]
pub(crate) fn shuffle(table: &mut Vec<usize>, rng: &mut ChaCha8Rng)
    ensures
        final(table)@.to_multiset() == old(table)@.to_multiset(),
{
    table.shuffle(rng);
}

} // verus!
