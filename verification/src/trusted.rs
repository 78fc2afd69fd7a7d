//! Trusted boundary: the few calls whose bodies Verus does not verify.
//!
//! Each wrapper makes exactly one call into an outside crate or into a std
//! function that vstd gives no specification, and states the contract that
//! the callee's documentation promises.

use vstd::prelude::*;
use rand::Rng;

verus! {

/// Relies on `rand::Rng::gen_range` over the range `0..n`: it returns a
/// value uniformly distributed in that range, so in particular below `n`.
/// Nothing more than the bound can be promised of a random draw.
#[verifier::external_body]
pub(crate) fn rand_below(n: u128) -> (r: u128)
    requires
        n > 0,
    ensures
        r < n,
{
    rand::thread_rng().gen_range(0..n)
}

/// Relies on `String::push`: it appends exactly the given character.
#[verifier::external_body]
pub(crate) fn push_char(s: &mut String, c: char)
    ensures
        final(s)@ == old(s)@.push(c),
{
    s.push(c)
}

} // verus!
