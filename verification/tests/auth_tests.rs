use lunafinder::auth::{
    hash_password, hash_with_algorithm, verify_password, verify_sha256, verify_with_algorithm,
};

const HELLO_SHA256: &str = "2cf24dba5fb0a30e26e83b2ac5b9e29e1b161e5c1fa7425e73043362938b9824";
const EMPTY_SHA256: &str = "e3b0c44298fc1c149afbf4c8996fb92427ae41e4649b934ca495991b7852b855";
const PASSWORD_BCRYPT: &str = "$2a$04$UuTkLRZZ6QofpDOlMz32MuuxEHA43WOemOYHPz6.SjsVsyO1tDU96";
const PASSWORD_ARGON2: &str =
    "$argon2id$v=19$m=256,t=2,p=1$c29tZXNhbHQ$nf65EOgLrQMR/uIPnA4rEsF5h7TKyQwu9U1bMCHGi/4";

#[test]
fn plain_compares_the_text() {
    assert!(verify_password("secret", "secret", "plain"));
    assert!(verify_password("secret", "secret", "PLAIN"));
    assert!(!verify_password("secret", "Secret", "plain"));
    assert!(!verify_password("secret", "", "plain"));
}

#[test]
fn unknown_algorithm_accepts_nothing() {
    assert!(!verify_password("secret", "secret", "md5"));
    assert!(!verify_password("secret", "secret", ""));
    assert!(!verify_with_algorithm("secret", "secret", "PLAIN"));
    assert_eq!(hash_password("secret", "md5"), None);
    assert_eq!(hash_with_algorithm("secret", "Plain"), None);
}

#[test]
fn sha256_matches_the_known_digests() {
    assert_eq!(hash_password("hello", "sha256"), Some(HELLO_SHA256.to_string()));
    assert_eq!(hash_password("", "SHA256"), Some(EMPTY_SHA256.to_string()));
    assert!(verify_password("hello", HELLO_SHA256, "sha256"));
    assert!(!verify_password("hello", EMPTY_SHA256, "sha256"));
    assert!(!verify_password("hello", "hello", "sha256"));
    assert!(verify_sha256("", EMPTY_SHA256));
    assert!(!verify_sha256("x", EMPTY_SHA256));
}

#[test]
fn plain_hash_is_the_password() {
    assert_eq!(hash_password("secret", "plain"), Some("secret".to_string()));
}

#[test]
fn bcrypt_verifies_a_known_hash() {
    assert!(verify_password("password", PASSWORD_BCRYPT, "bcrypt"));
    assert!(!verify_password("wrong", PASSWORD_BCRYPT, "bcrypt"));
    assert!(!verify_password("password", "password", "bcrypt"));
}

#[test]
fn argon2_verifies_a_known_hash() {
    assert!(verify_password("password", PASSWORD_ARGON2, "argon2"));
    assert!(!verify_password("wrong", PASSWORD_ARGON2, "Argon2"));
    assert!(!verify_password("password", "password", "argon2"));
}

#[test]
fn argon2_hash_verifies_and_is_salted() {
    let first = hash_password("secret", "argon2").unwrap();
    assert!(verify_password("secret", &first, "argon2"));
    assert!(!verify_password("other", &first, "argon2"));
    assert_ne!(first, "secret");
}

#[test]
fn bcrypt_hash_verifies_and_is_salted() {
    let first = hash_password("secret", "bcrypt").unwrap();
    assert!(first.starts_with("$2"));
    assert!(verify_password("secret", &first, "bcrypt"));
    assert_ne!(first, "secret");
}
