//! Stateless CSRF protection for the OAuth redirect round trip: a
//! signed, timestamped nonce instead of a table of pending requests.
//! The signature and the age check are the whole mechanism.
//!
//! A state reads `<seconds>.<mac>`: the Unix time it was signed at, a
//! dot, and the lowercase hex HMAC-SHA256 of that decimal time under
//! the server's secret.

use hmac::{Hmac, Mac};
use sha2::Sha256;
use vstd::prelude::*;

use crate::auth::error::AuthError;
use crate::auth::hex::{hex_encode, hex_of};
use crate::auth::OAUTH_STATE_MAX_AGE_SECS;
use crate::text::{chars_eq, chars_of, decimal, digit, first_index, find_char_from, lemma_first_index_at, signed_decimal, signed_decimal_chars, slice_chars, string_of};

verus! {

/// The HMAC-SHA256 tag of `msg` under `key`.
pub uninterp spec fn hmac_sha256_of(key: Seq<u8>, msg: Seq<u8>) -> Seq<u8>;

/// `Hmac::<Sha256>::new_from_slice(key)`, fed `msg`, finalised: the
/// 32-byte HMAC-SHA256 tag. The contract names the tag and states its
/// length; the key may have any length (the crate pads or hashes it,
/// and `new_from_slice` never fails for HMAC).
#[verifier::external_body]
fn hmac_sha256(key: &[u8], msg: &[u8]) -> (r: Vec<u8>)
    ensures
        r@ == hmac_sha256_of(key@, msg@),
        r@.len() == 32,
{
    let mut mac = Hmac::<Sha256>::new_from_slice(key).expect("HMAC takes a key of any length");
    mac.update(msg);
    mac.finalize().into_bytes().to_vec()
}

/// The value of a run of ASCII digits, most significant first.
pub open spec fn digits_value(s: Seq<char>) -> int
    decreases s.len(),
{
    if s.len() == 0 {
        0
    } else {
        digits_value(s.drop_last()) * 10 + (s.last() as int - 48)
    }
}

/// Whether every character is an ASCII digit.
pub open spec fn all_digits(s: Seq<char>) -> bool {
    forall|i: int| 0 <= i < s.len() ==> '0' <= #[trigger] s[i] <= '9'
}

/// How many characters of `s` are a leading sign.
pub open spec fn sign_width(s: Seq<char>) -> int {
    if s.len() > 0 && (s[0] == '-' || s[0] == '+') {
        1
    } else {
        0
    }
}

/// What `str::parse::<i64>` accepts: an optional `+` or `-`, then one
/// or more ASCII digits, whose value fits in an `i64`.
pub open spec fn parsed_i64(s: Seq<char>) -> Option<int> {
    let body = s.skip(sign_width(s));
    let v = if sign_width(s) == 1 && s[0] == '-' {
        -digits_value(body)
    } else {
        digits_value(body)
    };
    if body.len() > 0 && all_digits(body) && i64::MIN <= v <= i64::MAX {
        Some(v)
    } else {
        None
    }
}

/// The tag a state signed at `ts` carries, in hex.
pub open spec fn mac_text(secret: Seq<char>, ts: int) -> Seq<char> {
    hex_of(
        hmac_sha256_of(
            vstd::utf8::encode_utf8(secret),
            vstd::utf8::encode_utf8(signed_decimal(ts)),
        ),
    )
}

/// The state signed at `ts` under `secret`.
pub open spec fn signed_state(secret: Seq<char>, ts: int) -> Seq<char> {
    signed_decimal(ts) + seq!['.'] + mac_text(secret, ts)
}

/// Whether `state` is accepted at time `now`: it splits at its first
/// dot into a time that parses as an `i64` and is at most
/// [`OAUTH_STATE_MAX_AGE_SECS`] seconds old (and not in the future),
/// and the tag for that time.
pub open spec fn state_accepted(secret: Seq<char>, state: Seq<char>, now: int) -> bool {
    let k = first_index(state, '.');
    &&& k < state.len()
    &&& parsed_i64(state.take(k as int)) is Some
    &&& {
        let ts = parsed_i64(state.take(k as int))->0;
        &&& 0 <= now - ts <= OAUTH_STATE_MAX_AGE_SECS
        &&& state.skip(k + 1int) == mac_text(secret, ts)
    }
}

proof fn lemma_digits_value_prefix(s: Seq<char>, k: int)
    requires
        all_digits(s),
        0 <= k <= s.len(),
    ensures
        0 <= digits_value(s.take(k)) <= digits_value(s),
    decreases s.len() - k,
{
    if k == s.len() {
        assert(s.take(k) =~= s);
        lemma_digits_value_nonneg(s);
    } else {
        lemma_digits_value_prefix(s, k + 1);
        let t = s.take(k + 1);
        assert(t.drop_last() =~= s.take(k));
        assert('0' <= s[k] <= '9');
        lemma_digits_value_nonneg(s.take(k));
    }
}

proof fn lemma_digits_value_nonneg(s: Seq<char>)
    requires
        all_digits(s),
    ensures
        digits_value(s) >= 0,
    decreases s.len(),
{
    if s.len() > 0 {
        assert(s.drop_last().len() < s.len());
        assert forall|i: int| 0 <= i < s.drop_last().len() implies '0' <= #[trigger] s.drop_last()[i]
            <= '9' by {
            assert(s.drop_last()[i] == s[i]);
        }
        lemma_digits_value_nonneg(s.drop_last());
        assert('0' <= s[s.len() - 1] <= '9');
    }
}

/// Executable [`parsed_i64`].
pub fn parse_i64(s: &[char]) -> (r: Option<i64>)
    ensures
        match r {
            Some(v) => parsed_i64(s@) == Some(v as int),
            None => parsed_i64(s@) is None,
        },
{
    let n = s.len();
    let mut start: usize = 0;
    let mut negative = false;
    if n > 0 && s[0] == '-' {
        negative = true;
        start = 1;
    } else if n > 0 && s[0] == '+' {
        start = 1;
    }
    assert(start == sign_width(s@));
    if start == n {
        return None;
    }
    let ghost body = s@.skip(start as int);
    let mut acc: u128 = 0;
    let mut i: usize = start;
    while i < n
        invariant
            start <= i <= n,
            n == s@.len(),
            body == s@.skip(start as int),
            start == sign_width(s@),
            negative == (start == 1 && s@[0] == '-'),
            acc == digits_value(s@.subrange(start as int, i as int)),
            acc <= 9223372036854775808,
            forall|j: int| start <= j < i ==> '0' <= #[trigger] s@[j] <= '9',
        decreases n - i,
    {
        let c = s[i];
        if !('0' <= c && c <= '9') {
            proof {
                assert(body[i - start] == c);
            }
            return None;
        }
        let d: u32 = (c as u32) - 48;
        proof {
            let t = s@.subrange(start as int, i + 1);
            assert(t.drop_last() =~= s@.subrange(start as int, i as int));
            assert(t.last() == c);
        }
        acc = acc * 10 + (d as u128);
        if acc > 9223372036854775808 {
            proof {
                if all_digits(body) {
                    assert(body.take(i + 1 - start) =~= s@.subrange(start as int, i + 1));
                    lemma_digits_value_prefix(body, i + 1 - start);
                }
            }
            return None;
        }
        i = i + 1;
    }
    assert(s@.subrange(start as int, n as int) =~= body);
    assert(all_digits(body)) by {
        assert forall|j: int| 0 <= j < body.len() implies '0' <= #[trigger] body[j] <= '9' by {
            assert(body[j] == s@[start + j]);
        }
    }
    if negative {
        Some((-(acc as i128)) as i64)
    } else if acc > 9223372036854775807 {
        None
    } else {
        Some(acc as i64)
    }
}

/// The tag for a state signed at `ts`, in hex.
fn mac_for(secret: &str, ts: i64) -> (r: String)
    ensures
        r@ == mac_text(secret@, ts as int),
{
    let text = string_of(signed_decimal_chars(ts).as_slice());
    let tag = hmac_sha256(secret.as_bytes(), text.as_str().as_bytes());
    hex_encode(tag.as_slice())
}

/// A fresh state for a redirect issued at `now` (Unix seconds):
/// `"<now>.<mac>"`.
pub fn sign(secret: &str, now: i64) -> (r: String)
    ensures
        r@ == signed_state(secret@, now as int),
{
    let mut out = signed_decimal_chars(now);
    out.push('.');
    let mac = chars_of(mac_for(secret, now).as_str());
    let ghost head = out@;
    let mut i: usize = 0;
    while i < mac.len()
        invariant
            i <= mac@.len(),
            out@ == head + mac@.take(i as int),
        decreases mac@.len() - i,
    {
        out.push(mac[i]);
        proof {
            assert(mac@.take(i + 1) =~= mac@.take(i as int).push(mac@[i as int]));
        }
        i = i + 1;
    }
    assert(mac@.take(mac@.len() as int) =~= mac@);
    string_of(out.as_slice())
}

/// Checks a state that came back from the provider at time `now`.
///
/// # Errors
/// `OAuthStateInvalid` if `state` is malformed, the tag does not
/// match, or it is older than [`OAUTH_STATE_MAX_AGE_SECS`] or from the
/// future.
pub fn verify(secret: &str, state: &str, now: i64) -> (r: Result<(), AuthError>)
    ensures
        r is Ok <==> state_accepted(secret@, state@, now as int),
        r matches Err(e) ==> e == AuthError::OAuthStateInvalid,
{
    let s = chars_of(state);
    let k = find_char_from(s.as_slice(), '.', 0);
    assert(s@.skip(0) =~= s@);
    if k == s.len() {
        return Err(AuthError::OAuthStateInvalid);
    }
    let ts_raw = slice_chars(s.as_slice(), 0, k);
    assert(ts_raw@ =~= s@.take(k as int));
    let ts = match parse_i64(ts_raw.as_slice()) {
        Some(v) => v,
        None => {
            return Err(AuthError::OAuthStateInvalid);
        },
    };
    let age: i128 = (now as i128) - (ts as i128);
    if age < 0 || age > (OAUTH_STATE_MAX_AGE_SECS as i128) {
        return Err(AuthError::OAuthStateInvalid);
    }
    let expected = chars_of(mac_for(secret, ts).as_str());
    let mac_raw = slice_chars(s.as_slice(), k + 1, s.len());
    assert(mac_raw@ =~= s@.skip(k + 1));
    if !chars_eq(expected.as_slice(), mac_raw.as_slice()) {
        return Err(AuthError::OAuthStateInvalid);
    }
    Ok(())
}

proof fn lemma_digit_code(d: nat)
    requires
        d < 10,
    ensures
        digit(d) as int == 48 + d,
{
}

proof fn lemma_decimal_digits(n: nat)
    ensures
        decimal(n).len() > 0,
        all_digits(decimal(n)),
        digits_value(decimal(n)) == n,
    decreases n,
{
    lemma_digit_code(n % 10);
    if n < 10 {
        assert(decimal(n).drop_last() =~= Seq::<char>::empty());
        assert(n % 10 == n);
        assert(digits_value(decimal(n)) == digits_value(Seq::<char>::empty()) * 10 + (n % 10));
    } else {
        lemma_decimal_digits(n / 10);
        let d = decimal(n);
        assert(d.drop_last() =~= decimal(n / 10));
        assert(d.last() == digit(n % 10));
        assert(digits_value(d) == digits_value(decimal(n / 10)) * 10 + (n % 10));
        assert((n / 10) * 10 + n % 10 == n) by (nonlinear_arith);
        assert forall|i: int| 0 <= i < d.len() implies '0' <= #[trigger] d[i] <= '9' by {
            if i < d.len() - 1 {
                assert(d[i] == decimal(n / 10)[i]);
            }
        }
    }
}

/// What [`sign`] writes, [`parse_i64`] reads back: the decimal
/// rendering of an `i64` parses to itself.
pub proof fn lemma_parse_signed_decimal(t: i64)
    ensures
        parsed_i64(signed_decimal(t as int)) == Some(t as int),
{
    let s = signed_decimal(t as int);
    if t < 0 {
        lemma_decimal_digits((-t) as nat);
        assert(s.skip(1) =~= decimal((-t) as nat));
    } else {
        lemma_decimal_digits(t as nat);
        let d = decimal(t as nat);
        assert('0' <= d[0] <= '9');
        assert(s.skip(0) =~= s);
    }
}

/// A state signed at `ts` is accepted at `now` exactly when `now` is
/// no earlier than `ts` and at most [`OAUTH_STATE_MAX_AGE_SECS`]
/// seconds later.
pub proof fn lemma_signed_state_accepted(secret: Seq<char>, ts: i64, now: int)
    ensures
        state_accepted(secret, signed_state(secret, ts as int), now) <==> 0 <= now - ts
            <= OAUTH_STATE_MAX_AGE_SECS,
{
    let head = signed_decimal(ts as int);
    let state = signed_state(secret, ts as int);
    lemma_parse_signed_decimal(ts);
    if ts >= 0 {
        lemma_decimal_digits(ts as nat);
        assert('0' <= head[0] <= '9');
    }
    let body = head.skip(sign_width(head));
    assert(all_digits(body));
    assert forall|j: int| 0 <= j < head.len() implies #[trigger] state[j] != '.' by {
        assert(state[j] == head[j]);
        if j >= sign_width(head) {
            assert(body[j - sign_width(head)] == head[j]);
        }
    }
    assert(state[head.len() as int] == '.');
    lemma_first_index_at(state, '.', head.len() as int);
    assert(state.take(head.len() as int) =~= head);
    assert(state.skip(head.len() + 1int) =~= mac_text(secret, ts as int));
}

} // verus!
