//! The lock/unlock state machine around an open vault.
//!
//! [`AppState`] is the coarse screen state a caller steps through;
//! [`VaultSession`] owns the decrypted vault of the one unlocked session
//! together with the single "currently shown password" index, and keeps
//! that index in bounds across record deletion.

use vstd::prelude::*;
use crate::errors::VaultError;
use crate::krypt::{aead_p_max, decrypt_vault, seals};
use crate::models::{EncryptedVault, EntryModel, PasswordEntry, PasswordVault};
use crate::vault_codec::vault_json;

verus! {

/// The screens a caller steps through: picking a vault, creating a new
/// one, unlocking an old one, working inside an unlocked vault, help.
#[derive(Clone, Copy, Debug, PartialEq, Eq, Structural)]
pub enum AppState {
    SelectVault,
    NewVault,
    OldVault,
    Unlocked,
    Help,
}

impl Default for AppState {
    /// A fresh caller starts at vault selection.
    fn default() -> (r: Self)
        ensures
            r == AppState::SelectVault,
    {
        AppState::SelectVault
    }
}

/// The state of one unlocked session: the plaintext vault, which exists
/// only in memory and only while unlocked, and the index of the one
/// record whose password is currently revealed, if any.
pub struct VaultSession {
    pub vault: PasswordVault,
    pub shown_index: Option<usize>,
}

impl VaultSession {
    /// The session invariant: a revealed index always points at a record.
    pub open spec fn wf(&self) -> bool {
        match self.shown_index {
            Some(i) => (i as int) < self.vault@.len(),
            None => true,
        }
    }

    /// Opens a session over a decrypted vault, with no password revealed.
    pub fn new(vault: PasswordVault) -> (r: Self)
        ensures
            r.vault@ == vault@,
            r.shown_index is None,
            r.wf(),
    {
        VaultSession { vault, shown_index: None }
    }

    /// Number of records in the session's vault.
    pub fn num_entries(&self) -> (r: usize)
        ensures
            r as nat == self.vault@.len(),
    {
        self.vault.len()
    }

    /// Appends a record; the shown index, pointing at an unmoved record,
    /// stays as it is.
    pub fn add_entry(&mut self, entry: PasswordEntry)
        requires
            old(self).wf(),
        ensures
            final(self).vault@ == old(self).vault@.push(entry@),
            final(self).shown_index == old(self).shown_index,
            final(self).wf(),
    {
        self.vault.push_entry(entry);
    }

    /// Reveals the password at `index`; any previously revealed one is
    /// hidden.  Out-of-range indices are ignored.
    pub fn show_password(&mut self, index: usize)
        requires
            old(self).wf(),
        ensures
            final(self).vault@ == old(self).vault@,
            (index as int) < old(self).vault@.len() ==> final(self).shown_index == Some(index),
            (index as int) >= old(self).vault@.len() ==> final(self).shown_index == old(
                self,
            ).shown_index,
            final(self).wf(),
    {
        if index < self.vault.len() {
            self.shown_index = Some(index);
        }
    }

    /// Hides any revealed password.
    pub fn hide_password(&mut self)
        ensures
            final(self).vault@ == old(self).vault@,
            final(self).shown_index is None,
            final(self).wf(),
    {
        self.shown_index = None;
    }

    /// Deletes the record at `index` and renumbers the revealed index so
    /// that it keeps pointing at the same record: a revealed index above
    /// the deleted one moves down by one, the deleted record's own index
    /// is cleared, one below stays.  An out-of-range `index` changes
    /// nothing.
    pub fn delete_entry(&mut self, index: usize)
        requires
            old(self).wf(),
        ensures
            (index as int) < old(self).vault@.len() ==> final(self).vault@ == old(
                self,
            ).vault@.remove(index as int),
            (index as int) >= old(self).vault@.len() ==> final(self).vault@ == old(self).vault@
                && final(self).shown_index == old(self).shown_index,
            (index as int) < old(self).vault@.len() ==> final(self).shown_index == (match old(
                self,
            ).shown_index {
                None => None::<usize>,
                Some(p) => if p == index {
                    None::<usize>
                } else if p > index {
                    Some((p - 1) as usize)
                } else {
                    Some(p)
                },
            }),
            final(self).wf(),
    {
        if index < self.vault.len() {
            self.vault.remove_entry(index);
            match self.shown_index {
                Some(p) => {
                    if p == index {
                        self.shown_index = None;
                    } else if p > index {
                        self.shown_index = Some(p - 1);
                    }
                },
                None => {},
            }
        }
    }
}

/// Why a vault cannot be created from the given form inputs.
#[derive(Clone, Copy, Debug, PartialEq, Eq, Structural)]
pub enum VaultCreationError {
    /// The vault name is empty.
    EmptyName,
    /// The master password is empty.
    EmptyPassword,
    /// The confirmation does not repeat the master password.
    PasswordMismatch,
    /// A vault with that identity already exists.
    AlreadyExists,
}

/// Byte-for-byte equality of two strings.
fn str_eq(a: &str, b: &str) -> (r: bool)
    ensures
        r == (a@ == b@),
{
    broadcast use vstd::utf8::encode_utf8_decode_utf8;

    let ab = a.as_bytes();
    let bb = b.as_bytes();
    if ab.len() != bb.len() {
        proof {
            assert(a@ != b@) by {
                if a@ == b@ {
                    assert(ab@ == bb@);
                }
            }
        }
        return false;
    }
    let n = ab.len();
    let mut i: usize = 0;
    while i < n
        invariant
            n == ab@.len() && n == bb@.len(),
            ab@ == vstd::utf8::encode_utf8(a@),
            bb@ == vstd::utf8::encode_utf8(b@),
            i <= n,
            forall|k: int| 0 <= k < i ==> ab@[k] == bb@[k],
        decreases n - i,
    {
        if ab[i] != bb[i] {
            proof {
                assert(a@ != b@) by {
                    if a@ == b@ {
                        assert(ab@ == bb@);
                    }
                }
            }
            return false;
        }
        i = i + 1;
    }
    proof {
        assert(ab@ =~= bb@);
        assert(vstd::utf8::decode_utf8(ab@) == vstd::utf8::decode_utf8(bb@));
        assert(a@ == b@);
    }
    true
}

/// The checks made before creating a vault, in the order a caller reports
/// them: the name must be non-empty, the master password non-empty, the
/// confirmation must repeat it, and no vault may already sit at the chosen
/// identity.
pub fn validate_vault_creation(
    name: &str,
    password: &str,
    confirm: &str,
    already_exists: bool,
) -> (r: Option<VaultCreationError>)
    ensures
        r == (if name@.len() == 0 {
            Some(VaultCreationError::EmptyName)
        } else if password@.len() == 0 {
            Some(VaultCreationError::EmptyPassword)
        } else if password@ != confirm@ {
            Some(VaultCreationError::PasswordMismatch)
        } else if already_exists {
            Some(VaultCreationError::AlreadyExists)
        } else {
            None::<VaultCreationError>
        }),
{
    if name.is_empty() {
        Some(VaultCreationError::EmptyName)
    } else if password.is_empty() {
        Some(VaultCreationError::EmptyPassword)
    } else if !str_eq(password, confirm) {
        Some(VaultCreationError::PasswordMismatch)
    } else if already_exists {
        Some(VaultCreationError::AlreadyExists)
    } else {
        None
    }
}

/// The lock/unlock state machine: either no vault is open, or exactly one
/// decrypted vault is held in memory.
///
/// `unlock` is the only way in and `lock` the only way out, so plaintext
/// records exist in a `Session` only between a successful authenticated
/// decryption and the next `lock`.
pub struct Session {
    /// `None` while locked; the one unlocked vault session otherwise.
    pub unlocked: Option<VaultSession>,
}

impl Session {
    pub open spec fn is_unlocked(&self) -> bool {
        self.unlocked is Some
    }

    pub open spec fn wf(&self) -> bool {
        match self.unlocked {
            Some(s) => s.wf(),
            None => true,
        }
    }

    /// A fresh session holds nothing.
    pub fn new_locked() -> (r: Session)
        ensures
            !r.is_unlocked(),
            r.wf(),
    {
        Session { unlocked: None }
    }

    /// Attempts to open a sealed envelope with a master password.
    ///
    /// On success the session transitions to Unlocked holding exactly the
    /// record collection the envelope seals under this password — in
    /// particular, unlocking what `encrypt_vault` sealed restores the
    /// original records.  On failure (wrong password, tampering, damage,
    /// or a key-derivation fault) the session stays Locked and holds no
    /// plaintext.
    pub fn unlock(&mut self, envelope: &EncryptedVault, password: &str) -> (r: Result<
        (),
        VaultError,
    >)
        requires
            envelope.wf(),
        ensures
            final(self).wf(),
            r is Ok ==> final(self).is_unlocked() && seals(
                envelope@,
                password@,
                final(self).unlocked.unwrap().vault@,
            ) && final(self).unlocked.unwrap().shown_index is None,
            r is Err ==> !final(self).is_unlocked(),
            (r is Err && r->Err_0 == VaultError::KeyDerivationFailed) || (forall|
                es: Seq<EntryModel>,
            |
                vault_json(es).len() <= aead_p_max() && #[trigger] seals(envelope@, password@, es)
                    ==> r is Ok && final(self).unlocked.unwrap().vault@ == es),
    {
        match decrypt_vault(envelope, password) {
            Ok(vault) => {
                self.unlocked = Some(VaultSession::new(vault));
                Ok(())
            },
            Err(e) => {
                self.unlocked = None;
                Err(e)
            },
        }
    }

    /// Locks the session: the plaintext vault is dropped from memory.
    pub fn lock(&mut self)
        ensures
            !final(self).is_unlocked(),
            final(self).wf(),
    {
        self.unlocked = None;
    }

    /// Number of records in the unlocked vault, or `None` while locked.
    pub fn num_entries(&self) -> (r: Option<usize>)
        ensures
            match r {
                Some(n) => self.is_unlocked() && n as nat == self.unlocked.unwrap().vault@.len(),
                None => !self.is_unlocked(),
            },
    {
        match &self.unlocked {
            Some(s) => Some(s.num_entries()),
            None => None,
        }
    }
}

} // verus!
