use vstd::prelude::*;

verus! {

/// Relies on rand::random_range over the range 0..n: the result lies in the
/// range, hence below n. The call panics only on an empty range, which the
/// precondition rules out. Nothing is assumed about the distribution.
#[verifier::external_body]
pub(crate) fn random_below(n: u64) -> (r: u64)
    requires
        n >= 1,
    ensures
        r < n,
{
    rand::random_range(0..n)
}

} // verus!
