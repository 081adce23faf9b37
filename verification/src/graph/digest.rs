//! Content hashes: what identifies a file's contents when it was
//! indexed, so a later edit can be told apart.

use vstd::prelude::*;

verus! {

/// The lowercase hex BLAKE3 hash of some bytes.
pub uninterp spec fn blake3_hex_of(bytes: Seq<u8>) -> Seq<char>;

/// Whether a character is a lowercase hex digit.
pub open spec fn lower_hex_digit(c: char) -> bool {
    ('0' <= c <= '9') || ('a' <= c <= 'f')
}

/// `blake3::hash(bytes).to_hex()`: the 32-byte BLAKE3 hash of the
/// bytes, written as 64 lowercase hex digits. The contract names the
/// hash and states only its shape.
#[verifier::external_body]
pub(crate) fn blake3_hex(bytes: &[u8]) -> (r: String)
    ensures
        r@ == blake3_hex_of(bytes@),
        r@.len() == 64,
        forall|i: int| 0 <= i < 64 ==> lower_hex_digit(#[trigger] r@[i]),
{
    blake3::hash(bytes).to_hex().to_string()
}

} // verus!
