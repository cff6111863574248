use pixelvault::pw_gen::{PasswordGenerator, PasswordGeneratorConfig};
use pixelvault::vault::{filter_vault_paths, get_readme, is_vault_path};
use pixelvault::errors::{StoreError, VaultError};

#[test]
fn generated_password_has_configured_length() {
    let mut g = PasswordGenerator::default();
    let pw = g.generate().expect("some class enabled");
    assert_eq!(pw.len(), 16);
    assert!(pw.is_ascii());
}

#[test]
fn generator_respects_single_class() {
    let mut g = PasswordGenerator {
        generated_password: String::new(),
        config: PasswordGeneratorConfig {
            length: 32,
            include_uppercase: false,
            include_lowercase: false,
            include_numbers: true,
            include_symbols: false,
            use_words: false,
        },
    };
    let pw = g.generate().expect("digits enabled");
    assert_eq!(pw.len(), 32);
    assert!(pw.chars().all(|c| c.is_ascii_digit()));
}

#[test]
fn generator_with_no_classes_returns_none() {
    let mut g = PasswordGenerator {
        generated_password: String::new(),
        config: PasswordGeneratorConfig {
            length: 8,
            include_uppercase: false,
            include_lowercase: false,
            include_numbers: false,
            include_symbols: false,
            use_words: false,
        },
    };
    assert!(g.generate().is_none());
}

#[test]
fn strength_of_empty_password_is_zero() {
    assert_eq!(PasswordGenerator::calc_strength(""), 0);
}

#[test]
fn strength_penalizes_sequential_run() {
    // length 3 gives 0 points, lowercase gives 10, the run "abc" takes 20
    assert_eq!(PasswordGenerator::calc_strength("abc"), 0);
}

#[test]
fn strength_exact_value_mixed_password() {
    // length 10 -> 20; lower 10, upper 10, digit 15, symbol 15 -> 70;
    // "bcd" is sequential -> -20; no repeats -> 50
    assert_eq!(PasswordGenerator::calc_strength("Abcdefgh1!"), 50);
}

#[test]
fn strength_exact_value_no_penalties() {
    // length 9 -> 20; lower 10, upper 10, digit 15 -> 55
    assert_eq!(PasswordGenerator::calc_strength("Tr0ubador"), 55);
}

#[test]
fn strength_is_capped_at_hundred() {
    let s = PasswordGenerator::calc_strength("Kk1!Mm3$Pp5%Rr7&Tt9(Vv2)Xx4-Zz6_");
    assert!(s <= 100);
}

#[test]
fn sequential_detection() {
    assert!(PasswordGenerator::has_sequential_chars("xyz"));
    assert!(PasswordGenerator::has_sequential_chars("a123b"));
    assert!(!PasswordGenerator::has_sequential_chars("xzy"));
    assert!(!PasswordGenerator::has_sequential_chars("ab"));
}

#[test]
fn repeating_detection() {
    assert!(PasswordGenerator::has_repeating_chars("aab"));
    assert!(PasswordGenerator::has_repeating_chars("aba"));
    assert!(PasswordGenerator::has_repeating_chars("xabax"));
    assert!(!PasswordGenerator::has_repeating_chars("abcdef"));
    assert!(!PasswordGenerator::has_repeating_chars("ab"));
}

#[test]
fn readme_is_available() {
    let text = get_readme();
    assert!(!text.is_empty());
    assert!(text.contains("PixelVault"));
}

#[test]
fn vault_path_recognition() {
    assert!(is_vault_path("vaults/home.json"));
    assert!(is_vault_path(".json"));
    assert!(!is_vault_path("vaults/home.jso"));
    assert!(!is_vault_path("home.json.bak"));
    assert!(!is_vault_path(""));
}

#[test]
fn listing_empty_storage_is_empty_and_never_fails() {
    let listing = filter_vault_paths(&vec![]);
    assert!(listing.is_empty());
}

#[test]
fn listing_keeps_only_vault_files_in_order() {
    let names = vec![
        String::from("vaults/a.json"),
        String::from("notes.txt"),
        String::from("vaults/b.json"),
        String::from("b.json.old"),
    ];
    let listing = filter_vault_paths(&names);
    assert_eq!(listing, vec![String::from("vaults/a.json"), String::from("vaults/b.json")]);
}

#[test]
fn error_messages_never_mention_secrets() {
    assert_eq!(VaultError::WrongPassword.message(), "incorrect master password");
    assert_eq!(VaultError::CorruptVault.message(), "vault file is damaged");
    assert_eq!(StoreError::NotFound.message(), "vault not found");
    assert_eq!(StoreError::WriteFailed.message(), "failed to save vault");
}
