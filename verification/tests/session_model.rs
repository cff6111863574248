use pixelvault::krypt::encrypt_vault;
use pixelvault::models::{PasswordEntry, PasswordVault};
use pixelvault::session::{
    validate_vault_creation, AppState, Session, VaultCreationError, VaultSession,
};

fn entry(n: &str) -> PasswordEntry {
    PasswordEntry {
        service: String::from(n),
        username: String::from("user"),
        password: String::from("pw"),
    }
}

fn session_with(n: usize) -> VaultSession {
    let mut vault = PasswordVault::empty();
    for i in 0..n {
        vault.push_entry(entry(&format!("service-{}", i)));
    }
    VaultSession::new(vault)
}

#[test]
fn delete_below_shown_index_shifts_it_down() {
    let mut s = session_with(3);
    s.show_password(2);
    assert_eq!(s.shown_index, Some(2));
    s.delete_entry(1);
    assert_eq!(s.num_entries(), 2);
    assert_eq!(s.shown_index, Some(1));
    // still points at the same record
    assert_eq!(s.vault.entries[1].service, "service-2");
}

#[test]
fn delete_at_shown_index_clears_it() {
    let mut s = session_with(3);
    s.show_password(1);
    s.delete_entry(1);
    assert_eq!(s.shown_index, None);
    assert_eq!(s.num_entries(), 2);
    assert_eq!(s.vault.entries[0].service, "service-0");
    assert_eq!(s.vault.entries[1].service, "service-2");
}

#[test]
fn delete_above_shown_index_leaves_it() {
    let mut s = session_with(3);
    s.show_password(0);
    s.delete_entry(2);
    assert_eq!(s.shown_index, Some(0));
    assert_eq!(s.vault.entries[0].service, "service-0");
}

#[test]
fn out_of_range_delete_changes_nothing() {
    let mut s = session_with(2);
    s.show_password(1);
    s.delete_entry(5);
    assert_eq!(s.num_entries(), 2);
    assert_eq!(s.shown_index, Some(1));
}

#[test]
fn out_of_range_show_is_ignored() {
    let mut s = session_with(2);
    s.show_password(7);
    assert_eq!(s.shown_index, None);
    s.show_password(0);
    s.show_password(9);
    assert_eq!(s.shown_index, Some(0));
    s.hide_password();
    assert_eq!(s.shown_index, None);
}

#[test]
fn add_entry_appends() {
    let mut s = session_with(1);
    s.add_entry(entry("new"));
    assert_eq!(s.num_entries(), 2);
    assert_eq!(s.vault.entries[1].service, "new");
}

#[test]
fn session_unlock_restores_records_and_lock_drops_them() {
    let vault = PasswordVault {
        entries: vec![entry("one"), entry("two")],
    };
    let sealed = encrypt_vault(&vault, "open sesame").expect("seal");
    let mut session = Session::new_locked();
    assert!(session.num_entries().is_none());
    assert!(session.unlock(&sealed, "wrong").is_err());
    assert!(session.unlocked.is_none());
    session.unlock(&sealed, "open sesame").expect("unlock");
    assert_eq!(session.num_entries(), Some(2));
    assert_eq!(session.unlocked.as_ref().unwrap().vault.entries[0].service, "one");
    session.lock();
    assert!(session.unlocked.is_none());
    assert!(session.num_entries().is_none());
}

#[test]
fn app_state_starts_at_vault_selection() {
    assert_eq!(AppState::default(), AppState::SelectVault);
}

#[test]
fn vault_creation_checks_come_in_order() {
    assert_eq!(validate_vault_creation("", "", "", true), Some(VaultCreationError::EmptyName));
    assert_eq!(
        validate_vault_creation("home", "", "", false),
        Some(VaultCreationError::EmptyPassword)
    );
    assert_eq!(
        validate_vault_creation("home", "pw", "wp", false),
        Some(VaultCreationError::PasswordMismatch)
    );
    assert_eq!(
        validate_vault_creation("home", "pw", "pw", true),
        Some(VaultCreationError::AlreadyExists)
    );
    assert_eq!(validate_vault_creation("home", "pw", "pw", false), None);
}

#[test]
fn vault_push_and_remove_keep_order() {
    let mut v = PasswordVault::empty();
    v.push_entry(entry("a"));
    v.push_entry(entry("b"));
    v.push_entry(entry("c"));
    v.remove_entry(0);
    assert_eq!(v.len(), 2);
    assert_eq!(v.entries[0].service, "b");
    assert_eq!(v.entries[1].service, "c");
}
