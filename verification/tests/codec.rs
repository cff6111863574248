use pixelvault::envelope::{decode_envelope, encode_envelope};
use pixelvault::errors::{StoreError, VaultError};
use pixelvault::models::{EncryptedVault, PasswordEntry, PasswordVault};
use pixelvault::vault_codec::{decode_vault, encode_vault};

#[test]
fn empty_vault_document_is_exact() {
    let vault = PasswordVault { entries: vec![] };
    let bytes = encode_vault(&vault);
    assert_eq!(bytes, b"{\"entries\":[]}".to_vec());
}

#[test]
fn one_entry_document_is_exact() {
    let vault = PasswordVault {
        entries: vec![PasswordEntry {
            service: String::from("svc"),
            username: String::from("u"),
            password: String::from("p"),
        }],
    };
    let bytes = encode_vault(&vault);
    assert_eq!(
        bytes,
        b"{\"entries\":[{\"service\":\"svc\",\"username\":\"u\",\"password\":\"p\"}]}".to_vec()
    );
}

#[test]
fn vault_document_round_trips_special_characters() {
    let vault = PasswordVault {
        entries: vec![
            PasswordEntry {
                service: String::from("quo\"te"),
                username: String::from("back\\slash"),
                password: String::from("tab\tnew\nline"),
            },
            PasswordEntry {
                service: String::from("unicode \u{00e9}\u{4e16}\u{1f512}"),
                username: String::from(""),
                password: String::from("{\"entries\":[]}"),
            },
        ],
    };
    let bytes = encode_vault(&vault);
    let back = decode_vault(&bytes).expect("decode");
    assert_eq!(back.entries.len(), 2);
    for (a, b) in vault.entries.iter().zip(back.entries.iter()) {
        assert_eq!(a.service, b.service);
        assert_eq!(a.username, b.username);
        assert_eq!(a.password, b.password);
    }
}

#[test]
fn control_bytes_are_escaped() {
    let vault = PasswordVault {
        entries: vec![PasswordEntry {
            service: String::from("s"),
            username: String::from("a\u{0001}b"),
            password: String::from("\u{001f}"),
        }],
    };
    let bytes = encode_vault(&vault);
    assert_eq!(
        bytes,
        b"{\"entries\":[{\"service\":\"s\",\"username\":\"a\\u0001b\",\"password\":\"\\u001f\"}]}"
            .to_vec()
    );
    let back = decode_vault(&bytes).expect("decode");
    assert_eq!(back.entries[0].username, "a\u{0001}b");
    assert_eq!(back.entries[0].password, "\u{001f}");
}

#[test]
fn garbage_vault_document_is_corrupt() {
    let r = decode_vault(&b"not json at all".to_vec());
    assert!(matches!(r, Err(VaultError::CorruptVault)));
    let r2 = decode_vault(&b"{\"entries\":[".to_vec());
    assert!(matches!(r2, Err(VaultError::CorruptVault)));
    let r3 = decode_vault(&b"{\"entries\":[]} ".to_vec());
    assert!(matches!(r3, Err(VaultError::CorruptVault)));
}

fn sample_envelope() -> EncryptedVault {
    EncryptedVault {
        salt: (0u8..16).collect(),
        nonce: (100u8..112).collect(),
        ciphertext: vec![0, 1, 9, 10, 99, 100, 101, 200, 255],
    }
}

#[test]
fn envelope_document_is_exact() {
    let env = EncryptedVault {
        salt: vec![1; 16],
        nonce: vec![2; 12],
        ciphertext: vec![0, 10, 200, 255],
    };
    let bytes = encode_envelope(&env);
    assert_eq!(
        bytes,
        b"{\"salt\":[1,1,1,1,1,1,1,1,1,1,1,1,1,1,1,1],\"nonce\":[2,2,2,2,2,2,2,2,2,2,2,2],\"ciphertext\":[0,10,200,255]}"
            .to_vec()
    );
}

#[test]
fn envelope_round_trips() {
    let env = sample_envelope();
    let bytes = encode_envelope(&env);
    let back = decode_envelope(&bytes).expect("decode");
    assert_eq!(back.salt, env.salt);
    assert_eq!(back.nonce, env.nonce);
    assert_eq!(back.ciphertext, env.ciphertext);
}

#[test]
fn empty_ciphertext_envelope_round_trips() {
    let env = EncryptedVault {
        salt: (10u8..26).collect(),
        nonce: (1u8..13).collect(),
        ciphertext: vec![],
    };
    let bytes = encode_envelope(&env);
    let back = decode_envelope(&bytes).expect("decode");
    assert_eq!(back.ciphertext, Vec::<u8>::new());
}

#[test]
fn malformed_envelopes_are_rejected() {
    let cases: Vec<&[u8]> = vec![
        b"",
        b"{}",
        b"{\"salt\":[],\"nonce\":[],\"ciphertext\":[]}",
        b"{\"salt\":[01],\"nonce\":[],\"ciphertext\":[]}",
        b"{\"salt\":[256],\"nonce\":[],\"ciphertext\":[]}",
        b"{\"salt\":[1,1,1,1,1,1,1,1,1,1,1,1,1,1,1,1],\"nonce\":[2,2,2,2,2,2,2,2,2,2,2,2],\"ciphertext\":[0,]}",
        b"{\"salt\":[1,1,1,1,1,1,1,1,1,1,1,1,1,1,1,1],\"nonce\":[2,2,2,2,2,2,2,2,2,2,2,2],\"ciphertext\":[]} ",
    ];
    for c in cases {
        let r = decode_envelope(&c.to_vec());
        assert!(matches!(r, Err(StoreError::MalformedEnvelope)));
    }
}

#[test]
fn wrong_salt_length_is_malformed() {
    // fifteen salt bytes: parses as JSON but is not a valid envelope
    let bytes = b"{\"salt\":[1,1,1,1,1,1,1,1,1,1,1,1,1,1,1],\"nonce\":[2,2,2,2,2,2,2,2,2,2,2,2],\"ciphertext\":[7]}".to_vec();
    let r = decode_envelope(&bytes);
    assert!(matches!(r, Err(StoreError::MalformedEnvelope)));
}
