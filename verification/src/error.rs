//! Errors of the signature codec and the verification engine.

use vstd::prelude::*;

verus! {

/// What can go wrong when handling a signature.
#[derive(Clone, Copy, Debug, Hash, PartialEq, Eq, Structural)]
pub enum Error {
    /// The input bytes do not decode to a well-formed signature.
    InvalidSignature,
    /// The signature failed the cryptographic check.
    IncorrectSignature,
}

} // verus!
