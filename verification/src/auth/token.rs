//! Opaque bearer session tokens.
//!
//! A session token is already high-entropy random data, so a fast
//! cryptographic hash (SHA-256) is the right tool for looking it up in
//! storage; a deliberately slow password KDF would defend against a
//! weakness a token does not have.

use rand::RngCore;
use sha2::{Digest, Sha256};
use vstd::prelude::*;

use crate::auth::hex::{hex_encode, hex_of, is_lower_hex, lemma_hex_shape};

verus! {

/// How many random bytes stand behind a token.
pub const TOKEN_BYTES: usize = 32;

/// The SHA-256 digest of some bytes.
pub uninterp spec fn sha256_of(bytes: Seq<u8>) -> Seq<u8>;

/// `rand::thread_rng().fill_bytes` on a 32-byte buffer. The bytes come
/// from the thread's cryptographic generator; only their number is
/// stated.
#[verifier::external_body]
fn random_bytes() -> (r: Vec<u8>)
    ensures
        r@.len() == TOKEN_BYTES,
{
    let mut bytes = [0u8; 32];
    rand::thread_rng().fill_bytes(&mut bytes);
    bytes.to_vec()
}

/// `Sha256` fed `bytes` and finalised: the 32-byte digest. The contract
/// names the digest and states its length.
#[verifier::external_body]
fn sha256(bytes: &[u8]) -> (r: Vec<u8>)
    ensures
        r@ == sha256_of(bytes@),
        r@.len() == 32,
{
    let mut hasher = Sha256::new();
    hasher.update(bytes);
    hasher.finalize().to_vec()
}

/// A fresh random token: `TOKEN_BYTES` random bytes in lowercase hex.
pub fn generate_token() -> (r: String)
    ensures
        r@.len() == 2 * TOKEN_BYTES,
        forall|i: int| 0 <= i < r@.len() ==> is_lower_hex(#[trigger] r@[i]),
        exists|b: Seq<u8>| b.len() == TOKEN_BYTES && r@ == hex_of(b),
{
    let bytes = random_bytes();
    proof {
        lemma_hex_shape(bytes@);
    }
    hex_encode(bytes.as_slice())
}

/// What a token is stored under: its SHA-256 digest in lowercase hex.
pub open spec fn token_digest(token: Seq<char>) -> Seq<char> {
    hex_of(sha256_of(vstd::utf8::encode_utf8(token)))
}

/// The digest a token is stored under.
pub fn hash_token(token: &str) -> (r: String)
    ensures
        r@ == token_digest(token@),
        r@.len() == 64,
{
    let digest = sha256(token.as_bytes());
    proof {
        lemma_hex_shape(digest@);
    }
    hex_encode(digest.as_slice())
}

} // verus!
