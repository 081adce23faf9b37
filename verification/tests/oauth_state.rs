use atlas::auth::error::AuthError;
use atlas::auth::oauth_state::{sign, verify};
use atlas::auth::OAUTH_STATE_MAX_AGE_SECS;
use chrono::Utc;

#[test]
fn a_freshly_signed_state_verifies() {
    let now = Utc::now().timestamp();
    let state = sign("secret", now);
    assert!(verify("secret", &state, now).is_ok());
}

#[test]
fn a_state_signed_with_a_different_secret_is_rejected() {
    let now = Utc::now().timestamp();
    let state = sign("secret-a", now);
    assert!(matches!(verify("secret-b", &state, now), Err(AuthError::OAuthStateInvalid)));
}

#[test]
fn an_expired_state_is_rejected() {
    let signed_at = Utc::now().timestamp();
    let state = sign("secret", signed_at);
    let later = signed_at + OAUTH_STATE_MAX_AGE_SECS + 1;
    assert!(matches!(verify("secret", &state, later), Err(AuthError::OAuthStateInvalid)));
}

#[test]
fn a_state_from_the_future_is_rejected() {
    let now = Utc::now().timestamp();
    let state = sign("secret", now + 60);
    assert!(matches!(verify("secret", &state, now), Err(AuthError::OAuthStateInvalid)));
}

#[test]
fn a_malformed_state_is_rejected() {
    assert!(matches!(
        verify("secret", "not-a-valid-state", Utc::now().timestamp()),
        Err(AuthError::OAuthStateInvalid)
    ));
}

#[test]
fn a_state_reads_time_dot_tag() {
    let state = sign("secret", 1_700_000_000);
    let (time, tag) = state.split_once('.').unwrap();
    assert_eq!(time, "1700000000");
    assert_eq!(tag.len(), 64);
    assert!(tag.chars().all(|c| c.is_ascii_digit() || ('a'..='f').contains(&c)));
}

#[test]
fn the_window_is_inclusive_at_both_ends() {
    let t = 1_700_000_000;
    let state = sign("secret", t);
    assert!(verify("secret", &state, t).is_ok());
    assert!(verify("secret", &state, t + OAUTH_STATE_MAX_AGE_SECS).is_ok());
    assert!(verify("secret", &state, t + OAUTH_STATE_MAX_AGE_SECS + 1).is_err());
    assert!(verify("secret", &state, t - 1).is_err());
}

#[test]
fn a_negative_time_round_trips() {
    let state = sign("secret", -5);
    assert!(state.starts_with("-5."));
    assert!(verify("secret", &state, 0).is_ok());
}

#[test]
fn a_tampered_tag_or_time_is_rejected() {
    let t = 1_700_000_000;
    let state = sign("secret", t);
    let (time, tag) = state.split_once('.').unwrap();
    let mut flipped = tag.to_owned();
    let last = if flipped.ends_with('0') { '1' } else { '0' };
    flipped.pop();
    flipped.push(last);
    assert!(verify("secret", &format!("{time}.{flipped}"), t).is_err());
    assert!(verify("secret", &format!("{}.{tag}", t + 1), t + 1).is_err());
    assert!(verify("secret", &format!(".{tag}"), t).is_err());
    assert!(verify("secret", &format!("+{time}.{tag}"), t).is_ok());
}

#[test]
fn the_tag_is_the_hmac_sha256_of_the_decimal_time() {
    assert_eq!(
        sign("secret", 1_700_000_000),
        "1700000000.4b227f8831b3763d066901751ad4c583ed08832bf1924a4ec50c2e871b1e8586"
    );
    assert_eq!(
        sign("secret", -5),
        "-5.b23409ffad72aaef573a9bc52c97d325e19cef7e507b32780ef72d42261c6a9e"
    );
    assert_ne!(sign("secret", 1), sign("other", 1));
}
