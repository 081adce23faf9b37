use atlas::auth::account::{
    account_touched, check_disable, check_invitation, check_login, check_oauth_login,
    check_password_change, check_registration, check_session, issue_session, new_account,
    new_invitation, OAuthLink, User, MICROS_PER_DAY,
};
use atlas::auth::error::AuthError;
use atlas::auth::oauth::UserId;
use atlas::auth::password::{hash_password, verify_password};
use atlas::auth::token::hash_token;

fn someone() -> User {
    User {
        id: UserId("01J0000000000000000000000A".to_string()),
        email: "a@example.com".to_string(),
        display_name: "A".to_string(),
        created_at: 5,
        updated_at: 5,
        must_change_password: false,
    }
}

#[test]
fn a_password_login_needs_the_right_password_and_an_enabled_account() {
    let stored = hash_password("correct horse").unwrap();
    let dummy = hash_password("some other value").unwrap();
    assert_eq!(check_login(Some(&stored), false, "correct horse", &dummy), Ok(()));
    assert_eq!(
        check_login(Some(&stored), false, "wrong horse", &dummy),
        Err(AuthError::InvalidCredentials)
    );
    assert_eq!(
        check_login(Some(&stored), true, "correct horse", &dummy),
        Err(AuthError::InvalidCredentials)
    );
    assert_eq!(
        check_login(None, false, "correct horse", &dummy),
        Err(AuthError::InvalidCredentials)
    );
}

#[test]
fn a_session_counts_up_to_its_expiry_and_not_after() {
    assert_eq!(check_session(Some((100, false)), 99), Ok(()));
    assert_eq!(check_session(Some((100, false)), 100), Ok(()));
    assert_eq!(check_session(Some((100, false)), 101), Err(AuthError::InvalidSession));
    assert_eq!(check_session(Some((100, true)), 50), Err(AuthError::InvalidSession));
    assert_eq!(check_session(None, 50), Err(AuthError::InvalidSession));
}

#[test]
fn an_issued_session_lasts_thirty_days_and_is_stored_by_its_digest() {
    let (session, digest) = issue_session(someone(), 1_000);
    assert_eq!(session.expires_at, 1_000 + 30 * MICROS_PER_DAY);
    assert_eq!(session.expires_at, 2_592_000_001_000);
    assert_eq!(session.token.len(), 64);
    assert_eq!(digest, hash_token(&session.token));
    assert_ne!(digest, session.token);
    assert_eq!(session.user, someone());
    assert_eq!(check_session(Some((session.expires_at, false)), session.expires_at), Ok(()));
}

#[test]
fn only_the_first_account_registers_and_input_is_checked_first() {
    assert_eq!(check_registration("a@example.com", "long enough", 0), Ok(()));
    assert_eq!(
        check_registration("a@example.com", "long enough", 1),
        Err(AuthError::AlreadyBootstrapped)
    );
    assert_eq!(
        check_registration("a@example.com", "short", 1),
        Err(AuthError::PasswordTooShort)
    );
    assert_eq!(check_registration("no-at-sign", "short", 1), Err(AuthError::InvalidEmail));
    assert_eq!(check_registration("   ", "long enough", 0), Err(AuthError::InvalidEmail));
}

#[test]
fn a_new_account_stores_a_hash_its_password_opens() {
    let (user, hash) = new_account("a@example.com", "long enough", "A", false, 7).unwrap();
    assert_eq!(user.email, "a@example.com");
    assert_eq!(user.display_name, "A");
    assert_eq!(user.created_at, 7);
    assert_eq!(user.updated_at, 7);
    assert!(!user.must_change_password);
    assert_eq!(user.id.0.len(), 26);
    assert!(verify_password("long enough", &hash));
    assert!(!verify_password("long enougH", &hash));
}

#[test]
fn an_invitation_hands_out_a_temporary_password_that_must_be_replaced() {
    assert_eq!(check_invitation("b@example.com", false), Ok(()));
    assert_eq!(
        check_invitation("b@example.com", true),
        Err(AuthError::EmailAlreadyRegistered)
    );
    assert_eq!(check_invitation("nope", true), Err(AuthError::InvalidEmail));
    let (invited, hash) = new_invitation("b@example.com", "B", 9).unwrap();
    assert!(invited.user.must_change_password);
    assert_eq!(invited.user.email, "b@example.com");
    assert_eq!(invited.temporary_password.len(), 64);
    assert!(verify_password(&invited.temporary_password, &hash));
}

#[test]
fn a_password_change_checks_the_current_password_before_the_new_one() {
    let stored = hash_password("old password").unwrap();
    assert_eq!(
        check_password_change(None, "old password", "new password"),
        Err(AuthError::UserNotFound)
    );
    assert_eq!(
        check_password_change(Some(&stored), "not it", "short"),
        Err(AuthError::InvalidCredentials)
    );
    assert_eq!(
        check_password_change(Some(&stored), "old password", "short"),
        Err(AuthError::PasswordTooShort)
    );
    assert_eq!(check_password_change(Some(&stored), "old password", "new password"), Ok(()));
}

#[test]
fn nobody_disables_themselves_and_an_unknown_id_is_reported() {
    let me = UserId("u1".to_string());
    assert_eq!(check_disable("u1", &me), Err(AuthError::CannotDisableSelf));
    assert_eq!(check_disable("u2", &me), Ok(()));
    assert_eq!(account_touched(0), Err(AuthError::UserNotFound));
    assert_eq!(account_touched(1), Ok(()));
}

#[test]
fn a_provider_login_links_but_never_creates() {
    assert_eq!(check_oauth_login(Some(false), None), Ok(OAuthLink::Returning));
    assert_eq!(check_oauth_login(Some(false), Some(true)), Ok(OAuthLink::Returning));
    assert_eq!(check_oauth_login(None, Some(false)), Ok(OAuthLink::FirstLink));
    let refused = Err(AuthError::OAuthAccountNotLinked);
    assert_eq!(check_oauth_login(Some(true), Some(false)), refused);
    assert_eq!(check_oauth_login(None, Some(true)), refused);
    assert_eq!(check_oauth_login(None, None), refused);
}
