use vstd::prelude::*;

use rand::Rng;

verus! {

/// Relies on rand's thread-local generator: `gen::<u16>` returns an arbitrary
/// 16-bit value; nothing is assumed about which one.
#[verifier::external_body]
pub(crate) fn random_u16() -> u16 {
    rand::thread_rng().gen::<u16>()
}

/// Relies on rand's `gen_range`: a sample drawn from the range `0..n` lies
/// below `n`. The call panics only on an empty range, which `n > 0` excludes.
#[verifier::external_body]
pub(crate) fn random_below(n: usize) -> (r: usize)
    requires
        n > 0,
    ensures
        r < n,
{
    rand::thread_rng().gen_range(0..n)
}

} // verus!
