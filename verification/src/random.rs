//! The random source. Nothing in this file is proved: these are the
//! statements about the `rand` crate on which the generator rests.

use rand::seq::SliceRandom;
use vstd::prelude::*;

verus! {

/// `rand::rngs::ThreadRng`, the handle to the generator that `rand` keeps
/// for each thread. Its state is of no concern here: the type is carried
/// from where it is made to where it is used.
#[verifier::external_type_specification]
#[verifier::external_body]
pub struct ExThreadRng(rand::rngs::ThreadRng);

/// `rand::thread_rng` hands out the calling thread's generator. Nothing is
/// claimed of it. It stops the program where the operating system cannot
/// seed the generator.
pub assume_specification[ rand::thread_rng ]() -> (rng: rand::rngs::ThreadRng);

/// `rand::seq::SliceRandom::shuffle` on nine items: swaps items of the
/// slice with one another, so that afterwards it holds what it held before,
/// each value as often as before. Which order comes out is left open.
#[verifier::external_body]
pub(crate) fn shuffle(items: &mut [usize; 9], rng: &mut rand::rngs::ThreadRng)
    ensures
        final(items)@.to_multiset() == old(items)@.to_multiset(),
{
    items.shuffle(rng);
}

} // verus!
