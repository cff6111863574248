//! Data model of the vault.
//!
//! [`PasswordEntry`] and [`PasswordVault`] exist only in memory while a
//! session is unlocked; [`EncryptedVault`] is the sealed envelope that gets
//! persisted.

use vstd::prelude::*;

verus! {

/// Mathematical view of one plaintext record: the three text fields as
/// character sequences.
pub ghost struct EntryModel {
    pub service: Seq<char>,
    pub username: Seq<char>,
    pub password: Seq<char>,
}

/// Plaintext record: a service, the username for it, and the password.
pub struct PasswordEntry {
    pub service: String,
    pub username: String,
    pub password: String,
}

impl View for PasswordEntry {
    type V = EntryModel;

    open spec fn view(&self) -> EntryModel {
        EntryModel {
            service: self.service@,
            username: self.username@,
            password: self.password@,
        }
    }
}

impl Clone for PasswordEntry {
    fn clone(&self) -> (r: Self)
        ensures
            r@ == self@,
    {
        PasswordEntry {
            service: self.service.clone(),
            username: self.username.clone(),
            password: self.password.clone(),
        }
    }
}

impl PasswordEntry {
    pub fn new(service: String, username: String, password: String) -> (r: Self)
        ensures
            r@ == (EntryModel { service: service@, username: username@, password: password@ }),
    {
        PasswordEntry { service, username, password }
    }
}

/// Plaintext vault: the ordered record collection, held only in memory by an
/// unlocked session.  Ordering is insertion order; duplicate records are
/// allowed.
pub struct PasswordVault {
    pub entries: Vec<PasswordEntry>,
}

impl View for PasswordVault {
    type V = Seq<EntryModel>;

    open spec fn view(&self) -> Seq<EntryModel> {
        Seq::new(self.entries@.len(), |i: int| self.entries@[i]@)
    }
}

impl Clone for PasswordVault {
    fn clone(&self) -> (r: Self)
        ensures
            r@ == self@,
    {
        let mut entries: Vec<PasswordEntry> = Vec::new();
        let mut i: usize = 0;
        while i < self.entries.len()
            invariant
                i <= self.entries@.len(),
                entries@.len() == i as nat,
                forall|j: int| 0 <= j < i ==> entries@[j]@ == self.entries@[j]@,
            decreases self.entries@.len() - i,
        {
            entries.push(self.entries[i].clone());
            i = i + 1;
        }
        let r = PasswordVault { entries };
        proof {
            assert(r@ =~= self@);
        }
        r
    }
}

impl PasswordVault {
    /// A vault with no records, the state of a freshly created vault.
    pub fn empty() -> (r: Self)
        ensures
            r@ == Seq::<EntryModel>::empty(),
    {
        let r = PasswordVault { entries: Vec::new() };
        proof {
            assert(r@ =~= Seq::<EntryModel>::empty());
        }
        r
    }

    /// Number of records currently in the vault.
    pub fn len(&self) -> (r: usize)
        ensures
            r as nat == self@.len(),
    {
        self.entries.len()
    }

    /// Appends a record; every other record keeps its position.
    pub fn push_entry(&mut self, entry: PasswordEntry)
        ensures
            final(self)@ == old(self)@.push(entry@),
    {
        let ghost e = entry@;
        self.entries.push(entry);
        proof {
            assert(self@ =~= old(self)@.push(e));
        }
    }

    /// Removes the record at `index`; the records after it move down by one.
    pub fn remove_entry(&mut self, index: usize)
        requires
            index < old(self)@.len(),
        ensures
            final(self)@ == old(self)@.remove(index as int),
    {
        self.entries.remove(index);
        proof {
            assert(self@ =~= old(self)@.remove(index as int));
        }
    }
}

/// Sealed on-disk envelope: everything except the master password that is
/// needed to attempt opening the vault.
pub struct EncryptedVault {
    /// Random key-derivation salt, exactly 16 bytes, generated once per seal.
    pub salt: Vec<u8>,
    /// Cipher nonce, exactly 12 bytes, fresh for every seal; a (key, nonce)
    /// pair is used at most once.
    pub nonce: Vec<u8>,
    /// The whole encrypted serialized vault with its authentication tag.
    pub ciphertext: Vec<u8>,
}

/// Mathematical view of an envelope: the three byte sequences.
pub ghost struct EnvelopeModel {
    pub salt: Seq<u8>,
    pub nonce: Seq<u8>,
    pub ciphertext: Seq<u8>,
}

impl View for EncryptedVault {
    type V = EnvelopeModel;

    open spec fn view(&self) -> EnvelopeModel {
        EnvelopeModel { salt: self.salt@, nonce: self.nonce@, ciphertext: self.ciphertext@ }
    }
}

impl EncryptedVault {
    /// The length invariants of a well-formed envelope.
    pub open spec fn wf(&self) -> bool {
        self.salt@.len() == 16 && self.nonce@.len() == 12
    }
}

impl Clone for EncryptedVault {
    fn clone(&self) -> (r: Self)
        ensures
            r@ == self@,
    {
        EncryptedVault {
            salt: self.salt.clone(),
            nonce: self.nonce.clone(),
            ciphertext: self.ciphertext.clone(),
        }
    }
}

} // verus!
