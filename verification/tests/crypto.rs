use pixelvault::errors::{KeyDerivationError, VaultError};
use pixelvault::krypt::{decrypt_vault, derive_key, encrypt_vault, gen_salt};
use pixelvault::envelope::{decode_envelope, encode_envelope};
use pixelvault::models::{PasswordEntry, PasswordVault};

fn sample_vault() -> PasswordVault {
    PasswordVault {
        entries: vec![
            PasswordEntry {
                service: String::from("GitHub"),
                username: String::from("alice"),
                password: String::from("hunter2"),
            },
            PasswordEntry {
                service: String::from("mail"),
                username: String::from("bob@example.com"),
                password: String::from("correct horse battery staple"),
            },
        ],
    }
}

fn entries_equal(a: &PasswordVault, b: &PasswordVault) -> bool {
    a.entries.len() == b.entries.len()
        && a.entries.iter().zip(b.entries.iter()).all(|(x, y)| {
            x.service == y.service && x.username == y.username && x.password == y.password
        })
}

#[test]
fn round_trip_returns_same_entries() {
    let vault = sample_vault();
    let sealed = encrypt_vault(&vault, "master-pw").expect("seal");
    assert_eq!(sealed.salt.len(), 16);
    assert_eq!(sealed.nonce.len(), 12);
    let reopened = decrypt_vault(&sealed, "master-pw").expect("open");
    assert!(entries_equal(&vault, &reopened));
}

#[test]
fn wrong_password_is_rejected() {
    let vault = sample_vault();
    let sealed = encrypt_vault(&vault, "password-one").expect("seal");
    let r = decrypt_vault(&sealed, "password-two");
    assert!(matches!(r, Err(VaultError::WrongPassword)));
}

#[test]
fn ciphertext_bit_flip_is_detected() {
    let vault = PasswordVault { entries: vec![] };
    let mut sealed = encrypt_vault(&vault, "pw").expect("seal");
    let mid = sealed.ciphertext.len() / 2;
    sealed.ciphertext[mid] ^= 0x01;
    assert!(decrypt_vault(&sealed, "pw").is_err());
}

#[test]
fn salt_bit_flip_is_detected() {
    let vault = PasswordVault { entries: vec![] };
    let mut sealed = encrypt_vault(&vault, "pw").expect("seal");
    sealed.salt[0] ^= 0x80;
    assert!(decrypt_vault(&sealed, "pw").is_err());
}

#[test]
fn nonce_bit_flip_is_detected() {
    let vault = PasswordVault { entries: vec![] };
    let mut sealed = encrypt_vault(&vault, "pw").expect("seal");
    sealed.nonce[11] ^= 0x01;
    assert!(decrypt_vault(&sealed, "pw").is_err());
}

#[test]
fn last_ciphertext_bit_flip_is_detected() {
    let vault = PasswordVault { entries: vec![] };
    let mut sealed = encrypt_vault(&vault, "pw").expect("seal");
    let last = sealed.ciphertext.len() - 1;
    sealed.ciphertext[last] ^= 0x01;
    assert!(decrypt_vault(&sealed, "pw").is_err());
}

#[test]
fn reseal_uses_fresh_salt_and_nonce() {
    let vault = sample_vault();
    let first = encrypt_vault(&vault, "same-pw").expect("seal");
    let second = encrypt_vault(&vault, "same-pw").expect("seal");
    assert_ne!(first.salt, second.salt);
    assert_ne!(first.nonce, second.nonce);
}

#[test]
fn both_fresh_seals_round_trip() {
    let vault = sample_vault();
    let first = encrypt_vault(&vault, "same-pw").expect("seal");
    let second = encrypt_vault(&vault, "same-pw").expect("seal");
    let a = decrypt_vault(&first, "same-pw").expect("open first");
    let b = decrypt_vault(&second, "same-pw").expect("open second");
    assert!(entries_equal(&vault, &a));
    assert!(entries_equal(&vault, &b));
}

#[test]
fn empty_vault_save_reload_unlock() {
    let vault = PasswordVault { entries: vec![] };
    let sealed = encrypt_vault(&vault, "the-password").expect("seal");
    // store and reload through the on-disk byte format
    let stored = encode_envelope(&sealed);
    let reloaded = decode_envelope(&stored).expect("well-formed envelope");
    let reopened = decrypt_vault(&reloaded, "the-password").expect("open");
    assert_eq!(reopened.entries.len(), 0);
    assert!(decrypt_vault(&reloaded, "not-the-password").is_err());
}

#[test]
fn short_salt_is_malformed() {
    let r = derive_key("pw", &[1, 2, 3]);
    assert_eq!(r, Err(KeyDerivationError::MalformedSalt));
}

#[test]
fn key_derivation_is_deterministic() {
    let salt = [7u8; 16];
    let a = derive_key("pw", &salt).expect("derive");
    let b = derive_key("pw", &salt).expect("derive");
    assert_eq!(a, b);
    assert_eq!(a.len(), 32);
}

#[test]
fn generated_salts_are_right_size() {
    let a = gen_salt();
    let b = gen_salt();
    assert_eq!(a.len(), 16);
    assert_eq!(b.len(), 16);
    // 128 random bits colliding would be astronomical
    assert_ne!(a, b);
}
