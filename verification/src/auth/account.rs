//! What an account store decides between its reads and its writes:
//! whether a login or a session counts, whether an account may be
//! created, changed or disabled, and what a new account, invitation or
//! session is made of. The reads and writes themselves are the
//! caller's.
//!
//! Instants are microseconds since the Unix epoch.

use vstd::prelude::*;

use super::error::AuthError;
use super::oauth::UserId;
use super::password::{hash_password, verify_password, verify_password_spec};
use super::token::{generate_token, hash_token, token_digest, TOKEN_BYTES};
use super::validation::{email_ok, validate_email, validate_password};
use super::{MIN_PASSWORD_LEN, SESSION_LIFETIME_DAYS};
use crate::graph::resolve::fresh_id;
use crate::text::{str_eq, utf8_len};

verus! {

/// Microseconds in a day.
pub const MICROS_PER_DAY: i64 = 86_400_000_000;

/// How long an issued session lasts, in microseconds.
pub open spec fn session_lifetime() -> int {
    SESSION_LIFETIME_DAYS * MICROS_PER_DAY
}

/// An account as it is handed back: never with its password hash.
#[derive(Clone, Debug, PartialEq, Eq)]
pub struct User {
    pub id: UserId,
    pub email: String,
    pub display_name: String,
    pub created_at: i64,
    pub updated_at: i64,
    /// Set on an invited account until its temporary password is
    /// replaced.
    pub must_change_password: bool,
}

/// A new account made by invitation, with the temporary password its
/// owner must replace. The password is handed out this once; only its
/// hash is kept.
#[derive(Clone, Debug)]
pub struct InvitedAccount {
    pub user: User,
    pub temporary_password: String,
}

/// A freshly issued session. The token is handed out this once; only
/// its digest is kept.
#[derive(Clone, Debug)]
pub struct IssuedSession {
    pub token: String,
    pub user: User,
    pub expires_at: i64,
}

/// The answer to a password login, given the hash stored for the email
/// (`None` when no account has it) and whether that account is
/// disabled. A missing account, a wrong password and a disabled
/// account all get the same answer.
pub open spec fn login_verdict(stored_hash: Option<Seq<char>>, disabled: bool, password: Seq<char>) -> Result<(), AuthError> {
    match stored_hash {
        Some(h) => if verify_password_spec(password, h) && !disabled {
            Ok(())
        } else {
            Err(AuthError::InvalidCredentials)
        },
        None => Err(AuthError::InvalidCredentials),
    }
}

/// The view of an optional string slice.
pub open spec fn opt_text(o: Option<&str>) -> Option<Seq<char>> {
    match o {
        Some(s) => Some(s@),
        None => None,
    }
}

/// Decides a password login; see [`login_verdict`]. When no account
/// has the email, the password is still checked against `dummy_hash`,
/// so that the answer takes about as long as for a wrong password.
pub fn check_login(stored_hash: Option<&str>, disabled: bool, password: &str, dummy_hash: &str) -> (r: Result<(), AuthError>)
    ensures
        r == login_verdict(opt_text(stored_hash), disabled, password@),
{
    match stored_hash {
        None => {
            let _ = verify_password(password, dummy_hash);
            Err(AuthError::InvalidCredentials)
        },
        Some(h) => {
            if !verify_password(password, h) {
                return Err(AuthError::InvalidCredentials);
            }
            if disabled {
                return Err(AuthError::InvalidCredentials);
            }
            Ok(())
        },
    }
}

/// The answer to a presented session token, given the expiry and the
/// disabled flag of the account it was found for (`None` when no
/// session has the token's digest), at the instant `now`. A session
/// counts up to and including the instant it expires; an unknown, an
/// expired and a disabled one all get the same answer.
pub open spec fn session_verdict(found: Option<(i64, bool)>, now: i64) -> Result<(), AuthError> {
    match found {
        Some((expires_at, disabled)) => if !(expires_at < now) && !disabled {
            Ok(())
        } else {
            Err(AuthError::InvalidSession)
        },
        None => Err(AuthError::InvalidSession),
    }
}

/// Decides whether a presented session counts; see
/// [`session_verdict`].
pub fn check_session(found: Option<(i64, bool)>, now: i64) -> (r: Result<(), AuthError>)
    ensures
        r == session_verdict(found, now),
{
    match found {
        None => Err(AuthError::InvalidSession),
        Some((expires_at, disabled)) => {
            if expires_at < now || disabled {
                Err(AuthError::InvalidSession)
            } else {
                Ok(())
            }
        },
    }
}

/// A new session for `user`, issued at `now`: a fresh token, the
/// digest to store it under, and its expiry [`SESSION_LIFETIME_DAYS`]
/// later.
pub fn issue_session(user: User, now: i64) -> (r: (IssuedSession, String))
    requires
        now + session_lifetime() <= i64::MAX,
    ensures
        r.0.user == user,
        r.0.expires_at == now + session_lifetime(),
        r.0.token@.len() == 2 * TOKEN_BYTES,
        r.1@ == token_digest(r.0.token@),
{
    let token = generate_token();
    let digest = hash_token(token.as_str());
    let expires_at = now + SESSION_LIFETIME_DAYS * MICROS_PER_DAY;
    (IssuedSession { token, user, expires_at }, digest)
}

/// Why a first account is refused, if it is: an unusable email, then a
/// short password, then an existing account. Only the first account
/// can be registered; later ones are invited.
pub open spec fn registration_refusal(email: Seq<char>, password: Seq<char>, existing_accounts: int) -> Option<AuthError> {
    if !email_ok(email) {
        Some(AuthError::InvalidEmail)
    } else if utf8_len(password) < MIN_PASSWORD_LEN {
        Some(AuthError::PasswordTooShort)
    } else if existing_accounts > 0 {
        Some(AuthError::AlreadyBootstrapped)
    } else {
        None
    }
}

/// Decides a registration, once the number of existing accounts is
/// known; see [`registration_refusal`].
pub fn check_registration(email: &str, password: &str, existing_accounts: i64) -> (r: Result<(), AuthError>)
    ensures
        match registration_refusal(email@, password@, existing_accounts as int) {
            Some(e) => r == Err::<(), AuthError>(e),
            None => r is Ok,
        },
{
    validate_email(email)?;
    validate_password(password)?;
    if existing_accounts > 0 {
        return Err(AuthError::AlreadyBootstrapped);
    }
    Ok(())
}

/// The account a new user gets, made at `now`, and the hash to store
/// for `password`. Fails only when hashing does, with its message.
pub fn new_account(email: &str, password: &str, display_name: &str, must_change_password: bool, now: i64) -> (r: Result<(User, String), AuthError>)
    ensures
        r matches Ok((u, h)) ==> {
            &&& u.email@ == email@
            &&& u.display_name@ == display_name@
            &&& u.created_at == now
            &&& u.updated_at == now
            &&& u.must_change_password == must_change_password
            &&& verify_password_spec(password@, h@)
        },
        r matches Err(e) ==> e is Storage,
{
    let hash = match hash_password(password) {
        Ok(h) => h,
        Err(m) => {
            return Err(AuthError::Storage(m));
        },
    };
    let user = User {
        id: UserId(fresh_id()),
        email: email.to_string(),
        display_name: display_name.to_string(),
        created_at: now,
        updated_at: now,
        must_change_password,
    };
    Ok((user, hash))
}

/// Why an invitation is refused, if it is: an unusable email, then one
/// that already has an account.
pub open spec fn invitation_refusal(email: Seq<char>, already_registered: bool) -> Option<AuthError> {
    if !email_ok(email) {
        Some(AuthError::InvalidEmail)
    } else if already_registered {
        Some(AuthError::EmailAlreadyRegistered)
    } else {
        None
    }
}

/// Decides an invitation, once it is known whether the email has an
/// account; see [`invitation_refusal`].
pub fn check_invitation(email: &str, already_registered: bool) -> (r: Result<(), AuthError>)
    ensures
        match invitation_refusal(email@, already_registered) {
            Some(e) => r == Err::<(), AuthError>(e),
            None => r is Ok,
        },
{
    validate_email(email)?;
    if already_registered {
        return Err(AuthError::EmailAlreadyRegistered);
    }
    Ok(())
}

/// An invited account made at `now`: a server-generated temporary
/// password, which the inviter relays and the invitee must replace,
/// and the hash to store for it.
pub fn new_invitation(email: &str, display_name: &str, now: i64) -> (r: Result<(InvitedAccount, String), AuthError>)
    ensures
        r matches Ok((inv, h)) ==> {
            &&& inv.user.email@ == email@
            &&& inv.user.display_name@ == display_name@
            &&& inv.user.created_at == now
            &&& inv.user.updated_at == now
            &&& inv.user.must_change_password
            &&& inv.temporary_password@.len() == 2 * TOKEN_BYTES
            &&& verify_password_spec(inv.temporary_password@, h@)
        },
        r matches Err(e) ==> e is Storage,
{
    let temporary_password = generate_token();
    match new_account(email, temporary_password.as_str(), display_name, true, now) {
        Ok((user, hash)) => Ok((InvitedAccount { user, temporary_password }, hash)),
        Err(e) => Err(e),
    }
}

/// The answer to a password change, given the hash stored for the
/// account (`None` when there is no such account): the current
/// password must match before the new one is even looked at.
pub open spec fn password_change_verdict(stored_hash: Option<Seq<char>>, current: Seq<char>, new_password: Seq<char>) -> Result<(), AuthError> {
    match stored_hash {
        None => Err(AuthError::UserNotFound),
        Some(h) => if !verify_password_spec(current, h) {
            Err(AuthError::InvalidCredentials)
        } else if utf8_len(new_password) < MIN_PASSWORD_LEN {
            Err(AuthError::PasswordTooShort)
        } else {
            Ok(())
        },
    }
}

/// Decides a password change; see [`password_change_verdict`].
pub fn check_password_change(stored_hash: Option<&str>, current: &str, new_password: &str) -> (r: Result<(), AuthError>)
    ensures
        r == password_change_verdict(opt_text(stored_hash), current@, new_password@),
{
    match stored_hash {
        None => Err(AuthError::UserNotFound),
        Some(h) => {
            if !verify_password(current, h) {
                return Err(AuthError::InvalidCredentials);
            }
            match validate_password(new_password) {
                Ok(()) => Ok(()),
                Err(_) => Err(AuthError::PasswordTooShort),
            }
        },
    }
}

/// Refuses to let a caller disable their own account.
pub fn check_disable(target_id: &str, caller: &UserId) -> (r: Result<(), AuthError>)
    ensures
        r is Ok <==> target_id@ != caller.0@,
        r is Err ==> r == Err::<(), AuthError>(AuthError::CannotDisableSelf),
{
    if str_eq(target_id, caller.0.as_str()) {
        Err(AuthError::CannotDisableSelf)
    } else {
        Ok(())
    }
}

/// An update that touched no row named no account.
pub fn account_touched(rows_affected: u64) -> (r: Result<(), AuthError>)
    ensures
        r is Ok <==> rows_affected > 0,
        r is Err ==> r == Err::<(), AuthError>(AuthError::UserNotFound),
{
    if rows_affected == 0 {
        Err(AuthError::UserNotFound)
    } else {
        Ok(())
    }
}

/// How a provider login reaches a local account.
#[derive(Clone, Copy, Debug, PartialEq, Eq)]
pub enum OAuthLink {
    /// The provider identity is linked already.
    Returning,
    /// First login with this identity: link it to the account that has
    /// the provider's verified email.
    FirstLink,
}

/// The answer to a provider login, given whether an account is linked
/// to the identity and whether it is disabled, and the same for the
/// account with the provider's email (consulted only when none is
/// linked). Linking never creates an account, and every refusal is the
/// same error: an unknown identity, an unknown email and a disabled
/// account read alike.
pub open spec fn oauth_verdict(by_identity: Option<bool>, by_email: Option<bool>) -> Result<OAuthLink, AuthError> {
    match by_identity {
        Some(disabled) => if disabled {
            Err(AuthError::OAuthAccountNotLinked)
        } else {
            Ok(OAuthLink::Returning)
        },
        None => match by_email {
            Some(disabled) => if disabled {
                Err(AuthError::OAuthAccountNotLinked)
            } else {
                Ok(OAuthLink::FirstLink)
            },
            None => Err(AuthError::OAuthAccountNotLinked),
        },
    }
}

/// Decides a provider login; see [`oauth_verdict`].
pub fn check_oauth_login(by_identity: Option<bool>, by_email: Option<bool>) -> (r: Result<OAuthLink, AuthError>)
    ensures
        r == oauth_verdict(by_identity, by_email),
{
    match by_identity {
        Some(disabled) => {
            if disabled {
                Err(AuthError::OAuthAccountNotLinked)
            } else {
                Ok(OAuthLink::Returning)
            }
        },
        None => match by_email {
            Some(disabled) => {
                if disabled {
                    Err(AuthError::OAuthAccountNotLinked)
                } else {
                    Ok(OAuthLink::FirstLink)
                }
            },
            None => Err(AuthError::OAuthAccountNotLinked),
        },
    }
}

/// A disabled account, and a wrong password, log in exactly as an
/// email that no account has.
pub proof fn law_refused_logins_read_alike(stored_hash: Seq<char>, password: Seq<char>, disabled: bool)
    ensures
        login_verdict(Some(stored_hash), true, password) == login_verdict(None, disabled, password),
        !verify_password_spec(password, stored_hash) ==> login_verdict(Some(stored_hash), false, password)
            == login_verdict(None, disabled, password),
{
}

/// A session of a disabled account, and an expired one, are answered
/// exactly as a token that no session has.
pub proof fn law_refused_sessions_read_alike(expires_at: i64, disabled: bool, now: i64)
    ensures
        session_verdict(Some((expires_at, true)), now) == session_verdict(None, now),
        expires_at < now ==> session_verdict(Some((expires_at, disabled)), now) == session_verdict(None, now),
{
}

/// A session issued at `issued_at` counts at `at` exactly while `at`
/// has not passed the expiry [`issue_session`] gives it, as long as
/// the account stays enabled.
pub proof fn law_issued_session_counts_until_expiry(issued_at: i64, at: i64)
    requires
        issued_at + session_lifetime() <= i64::MAX,
    ensures
        session_verdict(Some(((issued_at + session_lifetime()) as i64, false)), at) is Ok <==> at <= issued_at
            + session_lifetime(),
{
}

/// A provider login is refused alike whether the linked account is
/// disabled, the email has a disabled account, or nothing matches.
pub proof fn law_oauth_refusals_read_alike(by_email: Option<bool>)
    ensures
        oauth_verdict(Some(true), by_email) == oauth_verdict(None, None),
        oauth_verdict(None, Some(true)) == oauth_verdict(None, None),
        oauth_verdict(None, None) == Err::<OAuthLink, AuthError>(AuthError::OAuthAccountNotLinked),
{
}

} // verus!
