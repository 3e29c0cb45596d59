use sha2::Digest;
use x402_router::hashing::prompt_hash;

#[test]
fn hash_is_sha256_of_normalized_prompt() {
    // The digest of "a", independently known.
    assert_eq!(
        prompt_hash("a"),
        "ca978112ca1bbdcafac231b39a23dc4da786eff8147c4e72b9807785afee48bb"
    );
}

#[test]
fn hash_ignores_case_and_surrounding_whitespace() {
    let h = prompt_hash("a red fox");
    assert_eq!(prompt_hash("  A Red FOX  "), h);
    assert_eq!(prompt_hash("\tA RED FOX\n"), h);
}

#[test]
fn hash_differs_for_different_prompts() {
    assert_ne!(prompt_hash("a red fox"), prompt_hash("a blue fox"));
}

#[test]
fn hash_is_64_hex_characters() {
    let h = prompt_hash("anything at all");
    assert_eq!(h.len(), 64);
    assert!(h.chars().all(|c| c.is_ascii_hexdigit() && !c.is_ascii_uppercase()));
}

#[test]
fn hash_matches_independent_computation() {
    let mut hasher = sha2::Sha256::new();
    hasher.update("a red fox".as_bytes());
    let expected = hex::encode(hasher.finalize());
    assert_eq!(prompt_hash("a red fox"), expected);
}

#[test]
fn inner_whitespace_is_preserved() {
    assert_ne!(prompt_hash("ared fox"), prompt_hash("a red fox"));
}
