//! The source of chance for the playouts.

use rand::rngs::ThreadRng;
use rand::Rng;
use vstd::prelude::*;

verus! {

/// `rand::rngs::ThreadRng`, the thread-local generator of `rand`, carried
/// through as it is: nothing is said of what is inside.
#[verifier::external_type_specification]
#[verifier::external_body]
pub struct ExThreadRng(ThreadRng);

/// Draws an index below `n` with `Rng::gen_range` over `0..n`. The draw
/// lies in the range; which index comes is left open. An empty range is
/// left out, since `gen_range` panics on it. The generator reseeds itself
/// from the operating system now and then; should that fail, `rand` gives
/// up, and no argument of this function tells of it.
#[verifier::external_body]
pub(crate) fn random_index(rng: &mut ThreadRng, n: usize) -> (r: usize)
    requires
        n > 0,
    ensures
        r < n,
{
    rng.gen_range(0..n)
}

} // verus!
