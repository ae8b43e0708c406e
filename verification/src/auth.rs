//! Checking a password against what is stored for a user, under the
//! algorithm that the user's entry names.

use vstd::prelude::*;
use crate::text::{ascii_lowercase, is_ascii_text, lowercase_of, str_eq, to_lowercase};

verus! {

/// The cost at which passwords are hashed with bcrypt.
pub const BCRYPT_COST: u32 = 12;

/// Whether Argon2 with its default parameters accepts `password` for the
/// stored hash `hashed`.
pub uninterp spec fn argon2_accepts(password: Seq<char>, hashed: Seq<char>) -> bool;

/// Whether bcrypt accepts `password` for the stored hash `hashed`.
pub uninterp spec fn bcrypt_accepts(password: Seq<char>, hashed: Seq<char>) -> bool;

/// The SHA-256 digest of `password`, in lower-case hexadecimal.
pub uninterp spec fn sha256_hex(password: Seq<char>) -> Seq<char>;

/// Whether `password` is accepted for `hashed` under an algorithm whose name
/// is given in lower case. An unknown algorithm accepts nothing.
pub open spec fn accepted(algorithm: Seq<char>, password: Seq<char>, hashed: Seq<char>) -> bool {
    if algorithm == "argon2"@ {
        argon2_accepts(password, hashed)
    } else if algorithm == "bcrypt"@ {
        bcrypt_accepts(password, hashed)
    } else if algorithm == "sha256"@ {
        sha256_hex(password) == hashed
    } else if algorithm == "plain"@ {
        password == hashed
    } else {
        false
    }
}

/// Whether the name, in lower case, is that of an algorithm that salts its
/// hashes at random.
pub open spec fn is_salted(algorithm: Seq<char>) -> bool {
    algorithm == "argon2"@ || algorithm == "bcrypt"@
}

/// What hashing gives under an algorithm that does not salt, by its name in
/// lower case: the digest, the password itself, or nothing for a name that
/// is not known.
pub open spec fn unsalted_hash(algorithm: Seq<char>, password: Seq<char>) -> Option<Seq<char>> {
    if algorithm == "sha256"@ {
        Some(sha256_hex(password))
    } else if algorithm == "plain"@ {
        Some(password)
    } else {
        None
    }
}

/// The characters of a string that may be absent.
pub open spec fn text_of(value: Option<String>) -> Option<Seq<char>> {
    match value {
        Some(text) => Some(text@),
        None => None,
    }
}

/// The names of the four algorithms are four different names.
pub proof fn lemma_names_differ()
    ensures
        "argon2"@ != "bcrypt"@,
        "argon2"@ != "sha256"@,
        "argon2"@ != "plain"@,
        "bcrypt"@ != "sha256"@,
        "bcrypt"@ != "plain"@,
        "sha256"@ != "plain"@,
{
    reveal_strlit("argon2");
    reveal_strlit("bcrypt");
    reveal_strlit("sha256");
    reveal_strlit("plain");
    assert("argon2"@[0] == 'a' && "bcrypt"@[0] == 'b' && "sha256"@[0] == 's' && "plain"@[0] == 'p');
}

/// `argon2::password_hash::PasswordHash::new` and, on what it parsed,
/// `PasswordVerifier::verify_password` of `argon2::Argon2::default()`: true
/// where the stored text parses as a hash and hashing the password with the
/// salt and parameters in it gives the same output. The answer depends on
/// the two strings alone.
#[verifier::external_body]
fn verify_argon2(password: &str, hashed: &str) -> (ok: bool)
    ensures
        ok == argon2_accepts(password@, hashed@),
{
    match argon2::password_hash::PasswordHash::new(hashed) {
        Ok(parsed) => argon2::password_hash::PasswordVerifier::verify_password(
            &argon2::Argon2::default(),
            password.as_bytes(),
            &parsed,
        ).is_ok(),
        Err(_) => false,
    }
}

/// `PasswordHasher::hash_password` of `argon2::Argon2::default()` with a
/// salt from `SaltString::generate` on `rand::thread_rng()`. The salt is
/// random, so the text that comes back is not stated; what holds of every
/// outcome is that verifying recomputes the hash from the salt and the
/// parameters written in that text, and so accepts the same password.
#[verifier::external_body]
fn hash_argon2(password: &str) -> (hashed: Option<String>)
    ensures
        hashed is Some ==> argon2_accepts(password@, hashed->Some_0@),
{
    let salt = argon2::password_hash::SaltString::generate(&mut rand::thread_rng());
    argon2::password_hash::PasswordHasher::hash_password(
        &argon2::Argon2::default(),
        password.as_bytes(),
        &salt,
    ).ok().map(|hash| hash.to_string())
}

/// `bcrypt::verify`: true where the stored text parses as a bcrypt hash and
/// hashing the password with the cost and salt in it gives the same output;
/// false where it does not parse. The answer depends on the two strings
/// alone.
#[verifier::external_body]
fn verify_bcrypt(password: &str, hashed: &str) -> (ok: bool)
    ensures
        ok == bcrypt_accepts(password@, hashed@),
{
    bcrypt::verify(password, hashed).unwrap_or(false)
}

/// `bcrypt::hash` at the given cost. The salt is random, so the text that
/// comes back is not stated; what holds of every outcome is that
/// `bcrypt::verify` recomputes the hash from the cost and the salt written
/// in that text, and so accepts the same password.
#[verifier::external_body]
fn hash_bcrypt(password: &str, cost: u32) -> (hashed: Option<String>)
    ensures
        hashed is Some ==> bcrypt_accepts(password@, hashed->Some_0@),
{
    bcrypt::hash(password, cost).ok()
}

/// `sha2::Sha256` over the bytes of the password, the digest written in
/// lower-case hexadecimal.
#[verifier::external_body]
fn hash_sha256(password: &str) -> (hex: String)
    ensures
        hex@ == sha256_hex(password@),
{
    let mut hasher = <sha2::Sha256 as sha2::Digest>::new();
    sha2::Digest::update(&mut hasher, password.as_bytes());
    format!("{:x}", sha2::Digest::finalize(hasher))
}

/// Whether the SHA-256 digest of the password is the stored text.
pub fn verify_sha256(password: &str, hashed: &str) -> (ok: bool)
    ensures
        ok == (sha256_hex(password@) == hashed@),
{
    let computed = hash_sha256(password);
    str_eq(computed.as_str(), hashed)
}

/// Checks a password under an algorithm whose name is in lower case.
pub fn verify_with_algorithm(password: &str, hashed: &str, algorithm: &str) -> (ok: bool)
    ensures
        ok == accepted(algorithm@, password@, hashed@),
{
    if str_eq(algorithm, "argon2") {
        verify_argon2(password, hashed)
    } else if str_eq(algorithm, "bcrypt") {
        verify_bcrypt(password, hashed)
    } else if str_eq(algorithm, "sha256") {
        verify_sha256(password, hashed)
    } else if str_eq(algorithm, "plain") {
        str_eq(password, hashed)
    } else {
        false
    }
}

/// Checks a password against what is stored, under the named algorithm; the
/// name is taken without regard to case.
pub fn verify_password(password: &str, hashed: &str, algorithm: &str) -> (ok: bool)
    ensures
        ok == accepted(lowercase_of(algorithm@), password@, hashed@),
        is_ascii_text(algorithm@) ==> ok == accepted(
            ascii_lowercase(algorithm@),
            password@,
            hashed@,
        ),
{
    let lower = to_lowercase(algorithm);
    verify_with_algorithm(password, hashed, lower.as_str())
}

/// Hashes a password under an algorithm whose name is in lower case.
pub fn hash_with_algorithm(password: &str, algorithm: &str) -> (hashed: Option<String>)
    ensures
        !is_salted(algorithm@) ==> text_of(hashed) == unsalted_hash(algorithm@, password@),
        hashed is Some ==> accepted(algorithm@, password@, hashed->Some_0@),
{
    proof {
        lemma_names_differ();
    }
    if str_eq(algorithm, "argon2") {
        hash_argon2(password)
    } else if str_eq(algorithm, "bcrypt") {
        hash_bcrypt(password, BCRYPT_COST)
    } else if str_eq(algorithm, "sha256") {
        Some(hash_sha256(password))
    } else if str_eq(algorithm, "plain") {
        Some(password.to_owned())
    } else {
        None
    }
}

/// Hashes a password for storing under the named algorithm; the name is
/// taken without regard to case. `None` for a name that is not known, and
/// where the hashing itself fails.
pub fn hash_password(password: &str, algorithm: &str) -> (hashed: Option<String>)
    ensures
        !is_salted(lowercase_of(algorithm@)) ==> text_of(hashed) == unsalted_hash(
            lowercase_of(algorithm@),
            password@,
        ),
        hashed is Some ==> accepted(lowercase_of(algorithm@), password@, hashed->Some_0@),
        is_ascii_text(algorithm@) && !is_salted(ascii_lowercase(algorithm@)) ==> text_of(hashed)
            == unsalted_hash(ascii_lowercase(algorithm@), password@),
{
    let lower = to_lowercase(algorithm);
    hash_with_algorithm(password, lower.as_str())
}

} // verus!
