//! Password-based envelope encryption for small textual records.
//!
//! A record's plaintext is split into bounded chunks; each chunk is sealed
//! under an AEAD cipher with a key derived from the user's password, and the
//! sealed chunks are framed together with the envelope nonce into a single
//! self-describing ciphertext byte stream.

pub mod aead;
pub mod bytes;
pub mod chunk;
pub mod cli;
pub mod config;
pub mod envelope;
pub mod errors;
pub mod kdf;
pub mod random;
pub mod record;
