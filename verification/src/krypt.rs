//! Key derivation and whole-vault seal/open.
//!
//! A master password together with a per-vault random salt is stretched
//! into a 256-bit key (Argon2id, default parameters); the serialized vault
//! is then sealed under that key with AES-256-GCM and a fresh random nonce.
//! The master password is never stored: a successful authenticated
//! decryption of the whole vault is the only password verification.
//!
//! `key_of` and `aead_seal` name the results of the two primitives; every
//! contract above this layer speaks of those names.

use vstd::prelude::*;
use aes_gcm::{Aes256Gcm, KeyInit};
use aes_gcm::aead::Aead;
use rand::Rng;
use crate::errors::{CipherError, KeyDerivationError, VaultError};
use crate::models::{EncryptedVault, EntryModel, EnvelopeModel, PasswordVault};
use crate::vault_codec::{vault_json, encode_vault, decode_vault};

verus! {

/// The 32-byte key that the password hash derives from a password and a
/// salt.  Deterministic: the same pair always yields the same key.
pub uninterp spec fn key_of(password: Seq<char>, salt: Seq<u8>) -> Seq<u8>;

/// The ciphertext (encrypted payload with appended tag) that the
/// authenticated cipher produces from a key, a nonce and a plaintext.
/// Deterministic in all three.
pub uninterp spec fn aead_seal(key: Seq<u8>, nonce: Seq<u8>, plaintext: Seq<u8>) -> Seq<u8>;

/// The cipher's maximum plaintext length in bytes.
pub open spec fn aead_p_max() -> int {
    0xF_FFFF_FFE0
}

/// The envelope `env` is a seal of `entries` under `password`: its
/// ciphertext is the authenticated encryption of the canonical serialized
/// vault under the key derived from the password and the envelope's own
/// salt, with the envelope's own nonce.
pub open spec fn seals(env: EnvelopeModel, password: Seq<char>, entries: Seq<EntryModel>) -> bool {
    env.salt.len() == 16 && env.nonce.len() == 12 && env.ciphertext == aead_seal(
        key_of(password, env.salt),
        env.nonce,
        vault_json(entries),
    )
}

/// Relies on argon2's `Argon2::hash_password_into` with the default
/// Argon2id parameters: a deterministic, memory-hard function of password
/// and salt filling a 32-byte key.  It rejects salts outside 8..=2^32-1
/// bytes and reports internal faults (such as a failed memory allocation)
/// as errors; it never panics.
#[verifier::external_body]
pub fn derive_key(password: &str, salt: &[u8]) -> (r: Result<[u8; 32], KeyDerivationError>)
    ensures
        r is Ok ==> r->Ok_0@ == key_of(password@, salt@) && r->Ok_0@.len() == 32,
        salt@.len() < 8 || salt@.len() > 0xFFFF_FFFF ==> r is Err,
{
    let argon2 = argon2::Argon2::default();
    let mut key = [0u8; 32];
    match argon2.hash_password_into(password.as_bytes(), salt, &mut key) {
        Ok(()) => Ok(key),
        Err(argon2::Error::SaltTooShort) | Err(argon2::Error::SaltTooLong) => {
            Err(KeyDerivationError::MalformedSalt)
        },
        Err(_) => Err(KeyDerivationError::HashingFault),
    }
}

/// Relies on rand's thread-local CSPRNG: fills a fresh 16-byte
/// key-derivation salt with random bytes.  Nothing can be promised about
/// the values themselves.
#[verifier::external_body]
pub fn gen_salt() -> (r: Vec<u8>)
    ensures
        r@.len() == 16,
{
    let mut salt = vec![0u8; 16];
    rand::rng().fill_bytes(&mut salt);
    salt
}

/// Relies on rand's thread-local CSPRNG: fills a fresh 12-byte cipher
/// nonce with random bytes.
#[verifier::external_body]
fn gen_nonce() -> (r: Vec<u8>)
    ensures
        r@.len() == 12,
{
    let mut nonce = vec![0u8; 12];
    rand::rng().fill_bytes(&mut nonce);
    nonce
}

/// Relies on aes_gcm's `Aes256Gcm` (`KeyInit::new_from_slice` and
/// `Aead::encrypt`): authenticated encryption of the whole plaintext,
/// returning the ciphertext with the 16-byte tag appended.  Encryption
/// succeeds exactly when the plaintext is within the cipher's length
/// bound.
#[verifier::external_body]
fn aead_seal_bytes(key: &[u8], nonce: &[u8], plaintext: &[u8]) -> (r: Result<Vec<u8>, CipherError>)
    requires
        key@.len() == 32,
        nonce@.len() == 12,
    ensures
        r is Ok <==> plaintext@.len() <= aead_p_max(),
        r is Ok ==> r->Ok_0@ == aead_seal(key@, nonce@, plaintext@) && r->Ok_0@.len()
            == plaintext@.len() + 16,
{
    let cipher = match Aes256Gcm::new_from_slice(key) {
        Ok(c) => c,
        Err(_) => return Err(CipherError::InvalidKeyLength),
    };
    let n = aes_gcm::aead::Nonce::<Aes256Gcm>::try_from(nonce)
        .map_err(|_| CipherError::InvalidNonceLength)?;
    cipher.encrypt(&n, plaintext).map_err(|_| CipherError::PayloadTooLarge)
}

/// Relies on aes_gcm's `Aes256Gcm` (`KeyInit::new_from_slice` and
/// `Aead::decrypt`): verifies the authentication tag and inverts
/// `Aead::encrypt`.  It returns the plaintext whose seal under this key
/// and nonce is exactly the given ciphertext, succeeds on every such
/// ciphertext, and fails on everything else (a wrong key or a tampered
/// ciphertext).
#[verifier::external_body]
fn aead_open_bytes(key: &[u8], nonce: &[u8], ciphertext: &[u8]) -> (r: Result<Vec<u8>, CipherError>)
    requires
        key@.len() == 32,
        nonce@.len() == 12,
    ensures
        r is Ok ==> ciphertext@ == aead_seal(key@, nonce@, r->Ok_0@) && r->Ok_0@.len() + 16
            == ciphertext@.len(),
        forall|pt: Seq<u8>| pt.len() <= aead_p_max() && ciphertext@ == aead_seal(key@, nonce@, pt)
            ==> r is Ok && r->Ok_0@ == pt,
        r is Err ==> r->Err_0 == CipherError::AuthenticationFailed,
{
    let cipher = match Aes256Gcm::new_from_slice(key) {
        Ok(c) => c,
        Err(_) => return Err(CipherError::AuthenticationFailed),
    };
    let n = aes_gcm::aead::Nonce::<Aes256Gcm>::try_from(nonce)
        .map_err(|_| CipherError::AuthenticationFailed)?;
    cipher.decrypt(&n, ciphertext).map_err(|_| CipherError::AuthenticationFailed)
}

/// Seals a whole vault under a master password.
///
/// A fresh random salt and a fresh random nonce are drawn on every call —
/// even when re-saving unchanged data — the key is derived from the
/// password and the new salt, and the canonical serialized vault is sealed
/// in one authenticated encryption.
pub fn encrypt_vault(vault: &PasswordVault, master_password: &str) -> (r: Result<
    EncryptedVault,
    VaultError,
>)
    ensures
        r is Ok ==> r->Ok_0.wf() && seals(r->Ok_0@, master_password@, vault@) && vault_json(
            vault@,
        ).len() <= aead_p_max(),
        r is Err ==> r->Err_0 == VaultError::KeyDerivationFailed || r->Err_0
            == VaultError::SerializationFailed,
        r is Err && r->Err_0 == VaultError::SerializationFailed ==> vault_json(vault@).len()
            > aead_p_max(),
{
    let salt = gen_salt();
    let key = match derive_key(master_password, salt.as_slice()) {
        Ok(k) => k,
        Err(_) => return Err(VaultError::KeyDerivationFailed),
    };
    let plaintext = encode_vault(vault);
    let nonce = gen_nonce();
    let ciphertext = match aead_seal_bytes(
        key.as_slice(),
        nonce.as_slice(),
        plaintext.as_slice(),
    ) {
        Ok(c) => c,
        Err(_) => return Err(VaultError::SerializationFailed),
    };
    Ok(EncryptedVault { salt, nonce, ciphertext })
}

/// Opens a sealed envelope with a master password.
///
/// Either the key-derivation engine reports a fault, or: every vault whose
/// seal (under this password and the envelope's salt and nonce) is exactly
/// this envelope is returned as `Ok` — so opening what `encrypt_vault`
/// sealed with the same password always gives back the original records —
/// and conversely a returned vault is one whose seal this envelope is.
/// `WrongPassword` is the authentication failure (wrong master password or
/// tampered envelope; deliberately not distinguished), `CorruptVault` a
/// decryption that did not deserialize.
pub fn decrypt_vault(encrypted: &EncryptedVault, master_password: &str) -> (r: Result<
    PasswordVault,
    VaultError,
>)
    requires
        encrypted.wf(),
    ensures
        (r is Err && r->Err_0 == VaultError::KeyDerivationFailed) || (forall|es: Seq<EntryModel>|
            vault_json(es).len() <= aead_p_max() && #[trigger] seals(
                encrypted@,
                master_password@,
                es,
            ) ==> r is Ok && r->Ok_0@ == es),
        r is Ok ==> seals(encrypted@, master_password@, r->Ok_0@),
        r is Err ==> r->Err_0 == VaultError::KeyDerivationFailed || r->Err_0
            == VaultError::WrongPassword || r->Err_0 == VaultError::CorruptVault,
{
    let key = match derive_key(master_password, encrypted.salt.as_slice()) {
        Ok(k) => k,
        Err(_) => return Err(VaultError::KeyDerivationFailed),
    };
    let plaintext = match aead_open_bytes(
        key.as_slice(),
        encrypted.nonce.as_slice(),
        encrypted.ciphertext.as_slice(),
    ) {
        Ok(p) => p,
        Err(_) => {
            return Err(VaultError::WrongPassword);
        },
    };
    match decode_vault(&plaintext) {
        Ok(v) => {
            proof {
                assert(seals(encrypted@, master_password@, v@));
            }
            Ok(v)
        },
        Err(_) => {
            proof {
                assert forall|es: Seq<EntryModel>|
                    vault_json(es).len() <= aead_p_max() && #[trigger] seals(
                        encrypted@,
                        master_password@,
                        es,
                    ) implies false by {
                    assert(plaintext@ == vault_json(es));
                }
            }
            Err(VaultError::CorruptVault)
        },
    }
}

} // verus!
