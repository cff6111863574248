use pixelvault::models::{PasswordEntry, PasswordVault};

fn entry(service: &str, username: &str) -> PasswordEntry {
    PasswordEntry {
        service: String::from(service),
        username: String::from(username),
        password: String::from("pw"),
    }
}

fn three_records() -> PasswordVault {
    PasswordVault {
        entries: vec![
            entry("GitHub", "alice"),
            entry("gitlab", "bob"),
            entry("Example", "github"),
        ],
    }
}

#[test]
fn query_git_ranks_prefix_matches_first() {
    let vault = three_records();
    let hits = vault.search_entries("git");
    let summary: Vec<(usize, u32)> = hits.iter().map(|h| (h.0, h.2)).collect();
    // GitHub and gitlab: service prefix (100) + service contains (10) = 110,
    // tie broken by insertion order; Example: username prefix (80) +
    // username contains (5) = 85.
    assert_eq!(summary, vec![(0, 110), (1, 110), (2, 85)]);
    assert_eq!(hits[0].1.service, "GitHub");
    assert_eq!(hits[1].1.service, "gitlab");
    assert_eq!(hits[2].1.service, "Example");
}

#[test]
fn empty_query_returns_all_in_order_with_zero_score() {
    let vault = three_records();
    let hits = vault.search_entries("");
    let summary: Vec<(usize, u32)> = hits.iter().map(|h| (h.0, h.2)).collect();
    assert_eq!(summary, vec![(0, 0), (1, 0), (2, 0)]);
}

#[test]
fn unmatched_query_returns_nothing() {
    let vault = three_records();
    let hits = vault.search_entries("zzz");
    assert!(hits.is_empty());
}

#[test]
fn exact_match_outranks_prefix_match() {
    let vault = PasswordVault {
        entries: vec![entry("mailman", "x"), entry("mail", "y")],
    };
    let hits = vault.search_entries("mail");
    let summary: Vec<(usize, u32)> = hits.iter().map(|h| (h.0, h.2)).collect();
    // "mail": exact (1000) + prefix (100) + contains (10) = 1110;
    // "mailman": prefix (100) + contains (10) = 110.
    assert_eq!(summary, vec![(1, 1110), (0, 110)]);
}

#[test]
fn matching_is_case_insensitive() {
    let vault = PasswordVault {
        entries: vec![entry("PayPal", "Alice")],
    };
    let hits = vault.search_entries("PAYPAL");
    assert_eq!(hits.len(), 1);
    assert_eq!(hits[0].2, 1110);
    let hits2 = vault.search_entries("aLiCe");
    assert_eq!(hits2.len(), 1);
    // exact on username (1000) + username prefix (80) + username contains (5)
    assert_eq!(hits2[0].2, 1085);
}

#[test]
fn username_contains_only_scores_five() {
    let vault = PasswordVault {
        entries: vec![entry("svc", "xxgitxx")],
    };
    let hits = vault.search_entries("git");
    assert_eq!(hits.len(), 1);
    assert_eq!(hits[0].2, 5);
}

#[test]
fn search_on_empty_vault_is_empty() {
    let vault = PasswordVault { entries: vec![] };
    assert!(vault.search_entries("anything").is_empty());
    assert!(vault.search_entries("").is_empty());
}
