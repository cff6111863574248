//! Closed error taxonomies, one per component.
//!
//! Every layer reports failure through one of these tagged variants instead
//! of free-form text, so callers can branch on the failure kind.  None of the
//! variants ever carries the master password, a derived key or plaintext
//! entry contents.

use vstd::prelude::*;

verus! {

/// Failure of turning (master password, salt) into a key.
#[derive(Clone, Copy, Debug, PartialEq, Eq, Structural)]
pub enum KeyDerivationError {
    /// The salt handed to the derivation had the wrong length.
    MalformedSalt,
    /// The hashing engine itself reported a fault.
    HashingFault,
}

/// Failure of the authenticated cipher.
#[derive(Clone, Copy, Debug, PartialEq, Eq, Structural)]
pub enum CipherError {
    /// The key was not exactly 32 bytes long.
    InvalidKeyLength,
    /// The nonce was not exactly 12 bytes long.
    InvalidNonceLength,
    /// The authentication tag did not verify: wrong key (wrong master
    /// password) or a corrupted / tampered ciphertext.  The two causes are
    /// deliberately not distinguished.
    AuthenticationFailed,
    /// The payload exceeded the cipher's maximum message length.
    PayloadTooLarge,
}

/// Failure of sealing or opening a whole vault.
#[derive(Clone, Copy, Debug, PartialEq, Eq, Structural)]
pub enum VaultError {
    /// Authentication failed while opening: an incorrect master password or
    /// a tampered envelope.
    WrongPassword,
    /// Decryption succeeded but the plaintext did not deserialize into a
    /// valid record collection.
    CorruptVault,
    /// The seal-side payload could not be produced at this size.
    SerializationFailed,
    /// Key derivation reported a technical failure.
    KeyDerivationFailed,
}

/// Failure of the durable-storage boundary.
#[derive(Clone, Copy, Debug, PartialEq, Eq, Structural)]
pub enum StoreError {
    /// No vault exists at the given identity.
    NotFound,
    /// The stored bytes could not be read.
    Unreadable,
    /// The stored bytes could not be written.
    WriteFailed,
    /// The vault could not be deleted.
    DeleteFailed,
    /// The stored bytes do not hold a well-formed sealed envelope.
    MalformedEnvelope,
}

impl VaultError {
    /// A short description safe to surface to a user; it never contains
    /// password or key material.
    pub fn message(&self) -> (r: &'static str)
        ensures
            r@ == self.spec_message(),
    {
        match self {
            VaultError::WrongPassword => "incorrect master password",
            VaultError::CorruptVault => "vault file is damaged",
            VaultError::SerializationFailed => "vault could not be serialized",
            VaultError::KeyDerivationFailed => "key derivation failed",
        }
    }

    pub open spec fn spec_message(&self) -> Seq<char> {
        match self {
            VaultError::WrongPassword => "incorrect master password"@,
            VaultError::CorruptVault => "vault file is damaged"@,
            VaultError::SerializationFailed => "vault could not be serialized"@,
            VaultError::KeyDerivationFailed => "key derivation failed"@,
        }
    }
}

impl StoreError {
    /// A short description safe to surface to a user.
    pub fn message(&self) -> (r: &'static str)
        ensures
            r@ == self.spec_message(),
    {
        match self {
            StoreError::NotFound => "vault not found",
            StoreError::Unreadable => "failed to read vault",
            StoreError::WriteFailed => "failed to save vault",
            StoreError::DeleteFailed => "failed to delete vault",
            StoreError::MalformedEnvelope => "vault file is not a valid envelope",
        }
    }

    pub open spec fn spec_message(&self) -> Seq<char> {
        match self {
            StoreError::NotFound => "vault not found"@,
            StoreError::Unreadable => "failed to read vault"@,
            StoreError::WriteFailed => "failed to save vault"@,
            StoreError::DeleteFailed => "failed to delete vault"@,
            StoreError::MalformedEnvelope => "vault file is not a valid envelope"@,
        }
    }
}

} // verus!
