//! The typed failures that encryption and decryption surface to callers.

use vstd::prelude::*;

verus! {

/// Every failure of the envelope codec, reported to the caller without retry.
#[derive(Clone, Copy, Debug, PartialEq, Eq, Structural)]
pub enum CryptoError {
    /// The operating environment's secure random source could not be read.
    RandomnessUnavailable,
    /// The key derivation function rejected its inputs (an empty password).
    KeyDerivationError,
    /// An authentication tag did not verify: wrong password or tampered data.
    AuthenticationFailure,
    /// The envelope byte stream is structurally invalid.
    MalformedEnvelope,
    /// A sealed chunk is too short to hold its associated data and tag.
    MalformedChunk,
}

} // verus!
