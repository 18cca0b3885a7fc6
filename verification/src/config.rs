//! Policy constants shared by the whole envelope format.
//!
//! Every envelope in the system is produced with the same cost profile and
//! the same framing sizes, so that any ciphertext can be decrypted later by
//! re-deriving the key from the embedded salt.

use vstd::prelude::*;

verus! {

/// Largest number of plaintext bytes carried by one chunk.
pub const CHUNK_SIZE: usize = 128;

/// Length in bytes of the envelope nonce, which doubles as the KDF salt.
pub const NONCE_SIZE: usize = 24;

/// Length in bytes of the random associated data stored before each sealed chunk.
pub const AD_SIZE: usize = 32;

/// Length in bytes of the AEAD authentication tag appended to each sealed chunk.
pub const TAG_SIZE: usize = 16;

/// Length in bytes of the symmetric key derived from the password.
pub const KEY_SIZE: usize = 32;

/// Fixed overhead of a sealed chunk beyond its plaintext: associated data plus tag.
pub const SEALED_OVERHEAD: usize = 48;

/// Size of a sealed chunk that carries a full `CHUNK_SIZE` of plaintext.
pub const CHUNK_STRIDE: usize = 176;

/// Iteration cost parameter of the key derivation function.
pub const KDF_ITERATIONS: u32 = 15;

/// Memory cost parameter of the key derivation function, in kibibytes.
pub const KDF_MEMORY_KIB: u32 = 1024;

} // verus!
