//! The one source of randomness: a uniform draw of an index.

use vstd::prelude::*;
use rand::Rng;

verus! {

/// Relies on rand::thread_rng and rand::Rng::gen_range: a draw from the
/// half-open range `0..n` returns a value below `n`; `gen_range` panics
/// only on an empty range, which `n > 0` rules out.
#[verifier::external_body]
pub(crate) fn random_index(n: usize) -> (r: usize)
    requires
        n > 0,
    ensures
        r < n,
{
    rand::thread_rng().gen_range(0..n)
}

} // verus!
