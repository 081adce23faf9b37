use atlas::auth::password::{dummy_hash, hash_password, verify_password, DUMMY_PASSWORD};
use atlas::auth::token::{generate_token, hash_token, TOKEN_BYTES};

#[test]
fn round_trips() {
    let hash = hash_password("correct horse battery staple").unwrap();
    assert!(verify_password("correct horse battery staple", &hash));
    assert!(!verify_password("wrong password", &hash));
}

#[test]
fn malformed_hash_fails_closed() {
    assert!(!verify_password("anything", "not-a-real-hash"));
}

#[test]
fn an_empty_stored_hash_fails_closed() {
    assert!(!verify_password("anything", ""));
    assert!(!verify_password("", ""));
}

#[test]
fn a_stored_hash_is_a_phc_string() {
    let hash = hash_password("pw").unwrap();
    assert!(hash.starts_with("$argon2id$"));
}

#[test]
fn generated_tokens_are_unique_and_fixed_length() {
    let a = generate_token();
    let b = generate_token();
    assert_ne!(a, b);
    assert_eq!(a.len(), TOKEN_BYTES * 2);
}

#[test]
fn hashing_is_deterministic() {
    let token = generate_token();
    assert_eq!(hash_token(&token), hash_token(&token));
}

#[test]
fn a_token_hash_is_the_sha256_of_its_text() {
    // SHA-256("abc"), FIPS 180-2 appendix B.1.
    assert_eq!(
        hash_token("abc"),
        "ba7816bf8f01cfea414140de5dae2223b00361a396177a9cb410ff61f20015ad"
    );
    assert_ne!(hash_token("abc"), "abc");
}

#[test]
fn a_token_is_lowercase_hex() {
    let t = generate_token();
    assert!(t.chars().all(|c| c.is_ascii_digit() || ('a'..='f').contains(&c)));
}

#[test]
fn the_dummy_hash_is_a_hash_of_the_dummy_password() {
    let h = dummy_hash().unwrap();
    assert!(verify_password(DUMMY_PASSWORD, &h));
    assert!(!verify_password("anything else", &h));
}
