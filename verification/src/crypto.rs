//! Error type for sealing/opening secrets.
//!
//! Variants are intentionally coarse and carry **no** plaintext, key bytes, or cryptographic
//! detail — an attacker must not learn *why* a decryption failed (e.g. wrong key vs. tampered
//! ciphertext vs. wrong context), only that it did. This avoids padding/MAC oracle style leaks.

use vstd::prelude::*;

verus! {

/// Errors returned when sealing or opening a secret.
#[derive(Debug, Clone, Copy, PartialEq, Eq, Structural)]
pub enum CryptoError {
    /// The master key was not exactly 32 bytes (AES-256 requires a 256-bit key).
    InvalidKeyLength,
    /// A stored nonce was not the expected 12 bytes (corrupt record).
    InvalidNonceLength,
    /// Authenticated decryption failed. This is returned for *any* failure to open —
    /// wrong key, tampered ciphertext/nonce/tag, or mismatched AAD/context — on purpose.
    DecryptionFailed,
    /// Authenticated encryption failed (should not happen for well-formed inputs).
    EncryptionFailed,
}

} // verus!
