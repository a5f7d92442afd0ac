//! The system's source of random bytes.

use vstd::prelude::*;

verus! {

/// The error of the `getrandom` crate, carried through unread.
#[verifier::external_type_specification]
#[verifier::external_body]
pub struct ExRandomError(getrandom::Error);

/// The system's random source could not be read.
#[derive(Clone, Copy, Debug, PartialEq, Eq)]
pub struct RandomSourceFailed;

/// Calls `getrandom::getrandom` on the bytes of `dest`, which asks the
/// operating system to overwrite them with random bytes. Trusted, not proved:
/// the call writes through a slice, so `dest` keeps its length whether the
/// call succeeds or fails. Nothing is claimed of the bytes themselves, nor of
/// when the call succeeds.
#[verifier::external_body]
pub(crate) fn fill_random(dest: &mut Vec<u8>) -> (outcome: Result<(), getrandom::Error>)
    ensures
        final(dest)@.len() == old(dest)@.len(),
{
    getrandom::getrandom(dest.as_mut_slice())
}

} // verus!
