//! Encrypted-storage core of a local credential manager.
//!
//! A vault is an ordered collection of service/username/password records.
//! A master password together with a random per-vault salt is stretched into
//! a 256-bit key, and the whole serialized vault is sealed under that key
//! with an authenticated cipher.  The sealed envelope (salt, nonce and
//! ciphertext) is the only thing that is ever persisted.
//!
//! The modules split along the component boundaries:
//! - [`models`]: the plaintext and sealed data types and their invariants;
//! - [`errors`]: one closed error taxonomy per component;
//! - [`json`]: the byte-level JSON helpers the two codecs share;
//! - [`vault_codec`]: the JSON byte format of the plaintext record collection;
//! - [`envelope`]: the JSON byte format of the sealed on-disk envelope;
//! - [`krypt`]: key derivation and whole-vault seal/open;
//! - [`search`]: ranked, case-insensitive search over decrypted records;
//! - [`pw_gen`]: the optional password generator and strength score;
//! - [`session`]: the lock/unlock state machine around an open vault;
//! - [`vault`]: the pure parts of the storage-area helpers.

pub mod envelope;
pub mod errors;
pub mod json;
pub mod krypt;
pub mod models;
pub mod pw_gen;
pub mod search;
pub mod session;
pub mod vault;
pub mod vault_codec;
