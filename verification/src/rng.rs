//! Random numbers for the strategies that draw.

use rand::Rng;
use vstd::prelude::*;

verus! {

/// Calls `rand::Rng::gen_range` on the thread's generator with the range
/// `0..bound`. The outside function panics on an empty range, which the
/// precondition leaves out; it returns a number of the range, which is all
/// that is claimed of a random draw.
#[verifier::external_body]
pub(crate) fn random_below(bound: u128) -> (draw: u128)
    requires
        bound > 0,
    ensures
        draw < bound,
{
    rand::thread_rng().gen_range(0..bound)
}

/// A random index below `len`.
pub fn random_index(len: usize) -> (index: usize)
    requires
        len > 0,
    ensures
        index < len,
{
    let draw: u128 = random_below(len as u128);
    draw as usize
}

} // verus!
