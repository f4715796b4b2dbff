use weight_tracker::credentials::{hash_secret, verify_secret, Credentials, DECOY_HASH, PHC_PREFIX};

#[test]
fn hashed_secret_verifies() {
    let hash = hash_secret("correct horse").unwrap();
    assert!(hash.starts_with("$argon2id$"));
    assert_ne!(hash, "correct horse");
    assert!(verify_secret(&hash, "correct horse"));
    assert!(!verify_secret(&hash, "correct horse!"));
}

#[test]
fn malformed_hash_is_refused() {
    assert!(!verify_secret("not a phc string", "anything"));
    assert!(!verify_secret("", ""));
}

#[test]
fn stored_credentials_verify() {
    let mut store = Credentials::new();
    let hash = hash_secret("s3cret").unwrap();
    store.insert_hash("alice", &hash);
    assert!(store.verify("alice", "s3cret"));
    assert!(!store.verify("alice", "wrong"));
}

#[test]
fn unknown_identifier_is_refused() {
    let store = Credentials::new();
    assert!(!store.verify("nobody", "s3cret"));
}

#[test]
fn rotated_hash_replaces_old_one() {
    let mut store = Credentials::new();
    store.insert_hash("alice", &hash_secret("old").unwrap());
    store.insert_hash("alice", &hash_secret("new").unwrap());
    assert!(store.verify("alice", "new"));
}

#[test]
fn decoy_hash_is_well_formed() {
    assert!(argon2::password_hash::PasswordHash::new(DECOY_HASH).is_ok());
    assert!(!verify_secret(DECOY_HASH, ""));
}

#[test]
fn hash_embeds_a_fresh_salt() {
    let a = hash_secret("same").unwrap();
    let b = hash_secret("same").unwrap();
    assert!(a.starts_with(PHC_PREFIX));
    assert!(a.starts_with("$argon2id$v=19$m=19456,t=2,p=1$"));
    let salt_a = &a[PHC_PREFIX.len()..PHC_PREFIX.len() + 22];
    let salt_b = &b[PHC_PREFIX.len()..PHC_PREFIX.len() + 22];
    assert_eq!(&a[PHC_PREFIX.len() + 22..PHC_PREFIX.len() + 23], "$");
    assert_ne!(salt_a, salt_b);
    assert_ne!(a, b);
    assert!(argon2::password_hash::PasswordHash::new(&a).is_ok());
}
