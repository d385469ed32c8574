use sha2::Digest;
use sha2::Sha256;
use tasm_core::Intent;

fn reference_id(creator: &str, description: &str, deadline: u64, collateral: u64) -> String {
    let mut hasher = Sha256::new();
    hasher.update(creator.as_bytes());
    hasher.update(description.as_bytes());
    hasher.update(deadline.to_le_bytes());
    hasher.update(collateral.to_le_bytes());
    hex::encode(hasher.finalize())
}

#[test]
fn id_matches_reference_digest() {
    let intent = Intent::new("alice", "Alice pays Bob 100", 10, 1000);
    assert_eq!(intent.id.0, reference_id("alice", "Alice pays Bob 100", 10, 1000));
}

#[test]
fn id_of_empty_fields_matches_reference_digest() {
    let intent = Intent::new("", "", 0, 0);
    assert_eq!(intent.id.0, reference_id("", "", 0, 0));
}

#[test]
fn id_is_64_lowercase_hex_chars() {
    let intent = Intent::new("charlie", "Charlie delivers Data", 20, 500);
    assert_eq!(intent.id.0.len(), 64);
    assert!(intent.id.0.chars().all(|c| c.is_ascii_hexdigit() && !c.is_ascii_uppercase()));
}

#[test]
fn identical_fields_collapse_to_one_id() {
    let first = Intent::new("alice", "Repay Loan", 150, 1000);
    let second = Intent::new("alice", "Repay Loan", 150, 1000);
    assert_eq!(first.id, second.id);
}

#[test]
fn different_fields_give_different_ids() {
    let base = Intent::new("alice", "Repay Loan", 150, 1000);
    assert_ne!(base.id, Intent::new("bob", "Repay Loan", 150, 1000).id);
    assert_ne!(base.id, Intent::new("alice", "Repay Loans", 150, 1000).id);
    assert_ne!(base.id, Intent::new("alice", "Repay Loan", 151, 1000).id);
    assert_ne!(base.id, Intent::new("alice", "Repay Loan", 150, 1001).id);
}

#[test]
fn calculate_id_recomputes_the_stored_id() {
    let intent = Intent::new("alice", "Alice pays Bob 100", 10, 1000);
    assert_eq!(intent.calculate_id(), intent.id);
}
