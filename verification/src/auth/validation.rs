//! What a credential has to look like before anything is done with it.

use vstd::prelude::*;
use super::error::AuthError;
use super::MIN_PASSWORD_LEN;
use crate::text::{chars_contain, chars_of, chars_trim, has_char, trim, utf8_len, utf8_len_below};

verus! {

/// An email is acceptable when it is not blank and holds an `@`.
pub open spec fn email_ok(email: Seq<char>) -> bool {
    trim(email).len() > 0 && has_char(email, '@')
}

/// Rejects a blank email or one without `@`.
pub fn validate_email(email: &str) -> (r: Result<(), AuthError>)
    ensures
        r is Ok <==> email_ok(email@),
        r is Err ==> r == Err::<(), AuthError>(AuthError::InvalidEmail),
{
    let e = chars_of(email);
    let t = chars_trim(e.as_slice());
    if t.len() == 0 || !chars_contain(e.as_slice(), '@') {
        return Err(AuthError::InvalidEmail);
    }
    Ok(())
}

/// Rejects a password under [`MIN_PASSWORD_LEN`] bytes.
pub fn validate_password(password: &str) -> (r: Result<(), AuthError>)
    ensures
        r is Ok <==> utf8_len(password@) >= MIN_PASSWORD_LEN,
        r is Err ==> r == Err::<(), AuthError>(AuthError::PasswordTooShort),
{
    let p = chars_of(password);
    if utf8_len_below(p.as_slice(), MIN_PASSWORD_LEN) {
        return Err(AuthError::PasswordTooShort);
    }
    Ok(())
}

} // verus!
