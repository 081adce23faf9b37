//! What a failed account request is answered with: the status, the
//! message, and whether the client is challenged for a bearer token.
//!
//! A missing session and a wrong password read the same to the caller,
//! and a storage or provider failure is not spelled out to it.

use vstd::prelude::*;

use crate::auth::account::User;
use crate::auth::error::AuthError;
use crate::text::{
    append_str, chars_of, chars_start_with, opt_view, slice_chars, starts_with, string_of_vec,
};

verus! {

/// What an error says to a reader.
pub open spec fn auth_message(e: AuthError) -> Seq<char> {
    match e {
        AuthError::AlreadyBootstrapped => "this server already has an account; registration is closed"@,
        AuthError::InvalidEmail => "email must not be empty and must contain '@'"@,
        AuthError::PasswordTooShort => "password must be at least 8 characters"@,
        AuthError::InvalidCredentials => "invalid credentials"@,
        AuthError::InvalidSession => "invalid or expired session"@,
        AuthError::Storage(m) => "storage failure: "@ + m@,
        AuthError::OAuthStateInvalid => "invalid or expired oauth state"@,
        AuthError::OAuthProviderError(m) => "oauth provider error: "@ + m@,
        AuthError::OAuthAccountNotLinked => "no local account is available for this GitLab identity"@,
        AuthError::UserNotFound => "no such user"@,
        AuthError::CannotDisableSelf => "cannot disable your own account"@,
        AuthError::EmailAlreadyRegistered => "this email already has an account"@,
        AuthError::PasswordChangeRequired => "a password change is required before this action"@,
    }
}

fn text(s: &str) -> (r: String)
    ensures
        r@ == s@,
{
    string_of_vec(&chars_of(s))
}

fn prefixed(p: &str, s: &str) -> (r: String)
    ensures
        r@ == p@ + s@,
{
    let mut m = chars_of(p);
    append_str(&mut m, s);
    string_of_vec(&m)
}

impl AuthError {
    /// What the error says to a reader; see [`auth_message`].
    pub fn message(&self) -> (r: String)
        ensures
            r@ == auth_message(*self),
    {
        match self {
            AuthError::AlreadyBootstrapped => text("this server already has an account; registration is closed"),
            AuthError::InvalidEmail => text("email must not be empty and must contain '@'"),
            AuthError::PasswordTooShort => text("password must be at least 8 characters"),
            AuthError::InvalidCredentials => text("invalid credentials"),
            AuthError::InvalidSession => text("invalid or expired session"),
            AuthError::Storage(m) => prefixed("storage failure: ", m.as_str()),
            AuthError::OAuthStateInvalid => text("invalid or expired oauth state"),
            AuthError::OAuthProviderError(m) => prefixed("oauth provider error: ", m.as_str()),
            AuthError::OAuthAccountNotLinked => text("no local account is available for this GitLab identity"),
            AuthError::UserNotFound => text("no such user"),
            AuthError::CannotDisableSelf => text("cannot disable your own account"),
            AuthError::EmailAlreadyRegistered => text("this email already has an account"),
            AuthError::PasswordChangeRequired => text("a password change is required before this action"),
        }
    }
}

/// An error answer: an HTTP status, the message under `error`, and
/// whether a `WWW-Authenticate: Bearer` challenge goes with it.
#[derive(Debug, Clone)]
pub struct Reply {
    pub status: u16,
    pub error: String,
    pub challenge: bool,
}

/// The answer to a request without a valid session.
pub open spec fn unauthorized_spec() -> (u16, Seq<char>, bool) {
    (401, "invalid or missing session token"@, true)
}

/// The answer to each error: refusals of what the account may do are
/// 403, malformed input 400, missing or wrong credentials the same 401
/// as a missing session, a provider failure 503 with a fixed message,
/// an unknown user 404, a duplicate 409, and a storage failure 500
/// without its cause.
pub open spec fn reply_for(e: AuthError) -> (u16, Seq<char>, bool) {
    match e {
        AuthError::AlreadyBootstrapped | AuthError::OAuthAccountNotLinked
        | AuthError::PasswordChangeRequired => (403, auth_message(e), false),
        AuthError::InvalidEmail | AuthError::PasswordTooShort | AuthError::OAuthStateInvalid
        | AuthError::CannotDisableSelf => (400, auth_message(e), false),
        AuthError::InvalidCredentials | AuthError::InvalidSession => unauthorized_spec(),
        AuthError::OAuthProviderError(_) => (
            503,
            "the OAuth provider is unavailable or rejected the request"@,
            false,
        ),
        AuthError::UserNotFound => (404, auth_message(e), false),
        AuthError::EmailAlreadyRegistered => (409, auth_message(e), false),
        AuthError::Storage(_) => (500, "internal error"@, false),
    }
}

/// The answer to a request without a valid session.
pub fn unauthorized() -> (r: Reply)
    ensures
        (r.status, r.error@, r.challenge) == unauthorized_spec(),
{
    Reply { status: 401, error: text("invalid or missing session token"), challenge: true }
}

/// The answer to a failed request; see [`reply_for`].
pub fn error_response(err: &AuthError) -> (r: Reply)
    ensures
        (r.status, r.error@, r.challenge) == reply_for(*err),
{
    match err {
        AuthError::AlreadyBootstrapped | AuthError::OAuthAccountNotLinked
        | AuthError::PasswordChangeRequired => Reply { status: 403, error: err.message(), challenge: false },
        AuthError::InvalidEmail | AuthError::PasswordTooShort | AuthError::OAuthStateInvalid
        | AuthError::CannotDisableSelf => Reply { status: 400, error: err.message(), challenge: false },
        AuthError::InvalidCredentials | AuthError::InvalidSession => unauthorized(),
        AuthError::OAuthProviderError(_) => Reply {
            status: 503,
            error: text("the OAuth provider is unavailable or rejected the request"),
            challenge: false,
        },
        AuthError::UserNotFound => Reply { status: 404, error: err.message(), challenge: false },
        AuthError::EmailAlreadyRegistered => Reply { status: 409, error: err.message(), challenge: false },
        AuthError::Storage(_) => Reply { status: 500, error: text("internal error"), challenge: false },
    }
}

/// A wrong password and an unknown session are answered alike, so a
/// caller cannot tell which it was; neither says anything of storage.
pub proof fn law_credentials_and_sessions_fail_alike()
    ensures
        reply_for(AuthError::InvalidCredentials) == reply_for(AuthError::InvalidSession),
        reply_for(AuthError::InvalidCredentials) == unauthorized_spec(),
{
}

/// A storage failure's cause never reaches the caller.
pub proof fn law_storage_causes_stay_inside(a: String, b: String)
    ensures
        reply_for(AuthError::Storage(a)) == reply_for(AuthError::Storage(b)),
{
}

/// The token an `Authorization` header value carries: what follows
/// `Bearer `, exactly so spelled; nothing for any other scheme or no
/// header.
pub open spec fn bearer_of(authorization: Option<Seq<char>>) -> Option<Seq<char>> {
    match authorization {
        Some(h) => if starts_with(h, "Bearer "@) {
            Some(h.skip(7))
        } else {
            None
        },
        None => None,
    }
}

/// The bearer token of a request; see [`bearer_of`].
pub fn bearer_token(authorization: Option<&str>) -> (r: Option<String>)
    ensures
        opt_view(r) == bearer_of(match authorization {
            Some(h) => Some(h@),
            None => None,
        }),
{
    proof {
        reveal_strlit("Bearer ");
    }
    match authorization {
        None => None,
        Some(h) => {
            let c = chars_of(h);
            let p = chars_of("Bearer ");
            if chars_start_with(c.as_slice(), p.as_slice()) {
                let rest = slice_chars(c.as_slice(), 7, c.len());
                assert(rest@ =~= h@.skip(7));
                Some(string_of_vec(&rest))
            } else {
                None
            }
        },
    }
}

/// The account routes.
#[derive(Clone, Copy, Debug, PartialEq, Eq)]
pub enum Route {
    Register,
    Login,
    Me,
    Invite,
    ChangePassword,
    DisableUser,
    EnableUser,
}

/// Whether a route serves an authenticated caller. An invited account
/// that still carries its temporary password is served only `Me` and
/// `ChangePassword`, the route that lifts the restriction; the routes
/// that need no caller are not gated at all.
pub open spec fn serves(route: Route, must_change_password: bool) -> bool {
    match route {
        Route::Invite | Route::DisableUser | Route::EnableUser => !must_change_password,
        _ => true,
    }
}

/// Decides whether `route` serves `caller`; see [`serves`]. A refusal
/// is answered with [`AuthError::PasswordChangeRequired`].
pub fn route_serves(route: Route, caller: &User) -> (r: bool)
    ensures
        r == serves(route, caller.must_change_password),
{
    match route {
        Route::Invite | Route::DisableUser | Route::EnableUser => !caller.must_change_password,
        _ => true,
    }
}

/// An account with a temporary password reaches nothing but `Me` and
/// `ChangePassword` among the routes that need a caller; once the
/// password is changed, every route serves it.
pub proof fn law_temporary_password_reaches_only_me_and_change(route: Route)
    ensures
        !serves(route, true) <==> (route == Route::Invite || route == Route::DisableUser || route
            == Route::EnableUser),
        serves(Route::Me, true) && serves(Route::ChangePassword, true),
        serves(route, false),
{
}

} // verus!
