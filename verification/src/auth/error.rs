//! Why an account operation failed.

use vstd::prelude::*;

verus! {

/// Why an account operation failed.
///
/// Several variants deliberately cover more than one cause, so a
/// caller probing the surface cannot tell them apart.
#[derive(Debug, Clone, PartialEq, Eq)]
pub enum AuthError {
    /// Registration after the first account exists.
    AlreadyBootstrapped,
    /// The email is blank or has no `@`.
    InvalidEmail,
    /// The password is under [`crate::auth::MIN_PASSWORD_LEN`] bytes.
    PasswordTooShort,
    /// No such email, or the wrong password: never said which.
    InvalidCredentials,
    /// No such session, or an expired one.
    InvalidSession,
    /// The store failed.
    Storage(String),
    /// A missing, malformed, expired or forged OAuth `state`.
    OAuthStateInvalid,
    /// The provider failed or answered with something unusable.
    OAuthProviderError(String),
    /// No enabled local account matches this provider identity.
    OAuthAccountNotLinked,
    /// No user has that id.
    UserNotFound,
    /// A caller tried to disable their own account.
    CannotDisableSelf,
    /// An invite named an email that already has an account.
    EmailAlreadyRegistered,
    /// The account still carries a temporary password.
    PasswordChangeRequired,
}

} // verus!
