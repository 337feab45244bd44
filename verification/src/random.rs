//! The one place where chance enters the game.

use vstd::prelude::*;

verus! {

/// Draws a number below `n` from the thread's random generator.
///
/// Makes the call `fastrand::usize(0..n)`. That function panics on an empty
/// range, which `n > 0` rules out, and otherwise returns a number within the
/// range. The contract claims that bound and nothing about which number
/// comes.
#[verifier::external_body]
pub(crate) fn random_below(n: usize) -> (k: usize)
    requires
        n > 0,
    ensures
        k < n,
{
    fastrand::usize(0..n)
}

} // verus!
