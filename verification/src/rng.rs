//! The library's single source of randomness.

use vstd::prelude::*;

use rand::Rng;

verus! {

/// Relies on `rand::Rng::gen_range` over the nonempty range `0..n` (so the
/// call cannot panic): the drawn index lies below `n`, and nothing more is
/// assumed about which one comes back.
#[verifier::external_body]
pub(crate) fn random_below(n: usize) -> (r: usize)
    requires
        0 < n,
    ensures
        r < n,
{
    rand::thread_rng().gen_range(0..n)
}

} // verus!
