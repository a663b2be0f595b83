//! Randomness of the operating system.

use vstd::prelude::*;

use crate::wire::types::Id;

verus! {

/// The operating system gave no randomness.
#[derive(Debug, Clone, Copy, PartialEq, Eq, Structural)]
pub struct NoRandomness;

/// Eight bytes from `getrandom::fill`, which fills a buffer from the system's
/// random number source or fails. Nothing is claimed of the bytes, nor of when
/// the call fails.
#[verifier::external_body]
fn random_bytes() -> (r: Result<[u8; 8], NoRandomness>) {
    let mut b = [0u8; 8];
    match getrandom::fill(&mut b) {
        Ok(()) => Ok(b),
        Err(_) => Err(NoRandomness),
    }
}

/// The identifier that drawn bytes make: all of them, in their order. Where
/// none were drawn there is no identifier.
pub fn identifier(drawn: Result<[u8; 8], NoRandomness>) -> (r: Result<Id, NoRandomness>)
    ensures
        r == match drawn {
            Ok(b) => Ok::<Id, NoRandomness>(Id(b)),
            Err(e) => Err(e),
        },
{
    match drawn {
        Ok(b) => Ok(Id(b)),
        Err(e) => Err(e),
    }
}

/// A fresh random identifier: what [`identifier`] makes of eight bytes from the
/// system. Which bytes these are, and whether there are any, is up to the
/// system, so nothing is claimed of the result.
pub fn random_id() -> (r: Result<Id, NoRandomness>) {
    identifier(random_bytes())
}

} // verus!
