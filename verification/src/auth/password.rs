//! Argon2id password hashing with the crate's own recommended default
//! parameters.

use argon2::password_hash::rand_core::OsRng;
use argon2::password_hash::{PasswordHash, PasswordHasher, PasswordVerifier, SaltString};
use argon2::Argon2;
use vstd::prelude::*;

verus! {

/// Whether Argon2 accepts `password` against the PHC string `stored`:
/// `stored` parses, and hashing `password` with its algorithm,
/// parameters and salt gives its hash.
pub uninterp spec fn argon2_accepts(password: Seq<char>, stored: Seq<char>) -> bool;

/// Whether a stored value can be a PHC string at all: one begins with `$`.
pub open spec fn phc_shaped(stored: Seq<char>) -> bool {
    stored.len() > 0 && stored[0] == '$'
}

/// `Argon2::default().hash_password` under a fresh `SaltString` from
/// the OS generator, rendered as its PHC string; an error is rendered
/// with `to_string`. The salt is random, so only this is stated: a hash
/// that comes back is a PHC string (its `Display` begins with the `$`
/// separator) that Argon2 accepts `password` against (the verifier
/// recomputes the hash from the parameters and salt the string
/// carries).
#[verifier::external_body]
fn argon2_hash(password: &str) -> (r: Result<String, String>)
    ensures
        r matches Ok(h) ==> phc_shaped(h@) && argon2_accepts(password@, h@),
{
    let salt = SaltString::generate(&mut OsRng);
    match Argon2::default().hash_password(password.as_bytes(), &salt) {
        Ok(h) => Ok(h.to_string()),
        Err(e) => Err(e.to_string()),
    }
}

/// `PasswordHash::new(stored)` then `Argon2::default().verify_password`,
/// a parse failure counting as a mismatch. The contract names the
/// answer, and states what the parser shows: an empty value, or one
/// that does not begin with `$`, is refused.
#[verifier::external_body]
fn argon2_verify(password: &str, stored: &str) -> (r: bool)
    ensures
        r == argon2_accepts(password@, stored@),
        !phc_shaped(stored@) ==> !r,
{
    match PasswordHash::new(stored) {
        Ok(parsed) => Argon2::default().verify_password(password.as_bytes(), &parsed).is_ok(),
        Err(_) => false,
    }
}

/// Hashes a password for storage.
///
/// # Errors
/// The hashing library's own message, if it fails (it should not under
/// normal conditions; the failure is surfaced rather than a panic).
pub fn hash_password(password: &str) -> (r: Result<String, String>)
    ensures
        r matches Ok(h) ==> verify_password_spec(password@, h@),
{
    argon2_hash(password)
}

/// What [`verify_password`] answers.
pub open spec fn verify_password_spec(password: Seq<char>, stored: Seq<char>) -> bool {
    phc_shaped(stored) && argon2_accepts(password, stored)
}

/// Whether `password` matches the stored hash. A malformed stored hash
/// answers `false`, exactly as a wrong password does, so a broken row
/// does not show.
pub fn verify_password(password: &str, stored_hash: &str) -> (r: bool)
    ensures
        r == verify_password_spec(password@, stored_hash@),
{
    argon2_verify(password, stored_hash)
}

/// The password the dummy hash is made of.
pub const DUMMY_PASSWORD: &'static str = "atlas-auth-timing-mitigation-dummy-password";

/// A hash to verify against when no account matches, so that an
/// unknown email costs as much time as a wrong password.
///
/// # Errors
/// As [`hash_password`].
pub fn dummy_hash() -> (r: Result<String, String>)
    ensures
        r matches Ok(h) ==> verify_password_spec(DUMMY_PASSWORD@, h@),
{
    hash_password(DUMMY_PASSWORD)
}

} // verus!
