//! Uniform random choice of an index.
use vstd::prelude::*;

verus! {

/// Relies on rand's `Rng::gen_range` over `0..len` with `rand::thread_rng()`:
/// an index below `len`. `gen_range` panics on an empty range, hence the
/// `requires`.
#[verifier::external_body]
pub(crate) fn random_index(len: usize) -> (r: usize)
    requires
        len > 0,
    ensures
        r < len,
{
    rand::Rng::gen_range(&mut rand::thread_rng(), 0..len)
}

} // verus!
