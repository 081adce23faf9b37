use atlas::afg::live::{is_terminal, Emission, Feed, Viewer};
use atlas::afg::model::NodeEventKind;
use atlas::auth::error::AuthError;
use atlas::auth::account::User;
use atlas::auth::oauth::UserId;
use atlas::auth::reply::{bearer_token, error_response, route_serves, unauthorized, Route};
use atlas::graph::error::GraphError;

#[test]
fn errors_are_answered_with_their_status_and_message() {
    let r = error_response(&AuthError::AlreadyBootstrapped);
    assert_eq!((r.status, r.error.as_str(), r.challenge), (403, "this server already has an account; registration is closed", false));
    let r = error_response(&AuthError::PasswordTooShort);
    assert_eq!((r.status, r.error.as_str()), (400, "password must be at least 8 characters"));
    let r = error_response(&AuthError::EmailAlreadyRegistered);
    assert_eq!(r.status, 409);
    let r = error_response(&AuthError::UserNotFound);
    assert_eq!((r.status, r.error.as_str()), (404, "no such user"));
}

#[test]
fn a_wrong_password_reads_like_a_missing_session() {
    let a = error_response(&AuthError::InvalidCredentials);
    let b = error_response(&AuthError::InvalidSession);
    let c = unauthorized();
    for r in [&a, &b, &c] {
        assert_eq!((r.status, r.error.as_str(), r.challenge), (401, "invalid or missing session token", true));
    }
}

#[test]
fn internal_causes_are_not_spelled_out() {
    let r = error_response(&AuthError::Storage("disk on fire".to_owned()));
    assert_eq!((r.status, r.error.as_str()), (500, "internal error"));
    let r = error_response(&AuthError::OAuthProviderError("token endpoint said 502".to_owned()));
    assert_eq!((r.status, r.error.as_str()), (503, "the OAuth provider is unavailable or rejected the request"));
    assert_eq!(AuthError::Storage("x".to_owned()).message(), "storage failure: x");
}

#[test]
fn graph_errors_read_as_sentences() {
    assert_eq!(GraphError::EmptyProject.message(), "project must not be empty");
    assert_eq!(GraphError::RootNotADirectory("/tmp/x".to_owned()).message(), "project root \"/tmp/x\" is not a directory");
    assert_eq!(GraphError::Walk("boom".to_owned()).message(), "could not read the project tree: boom");
}

#[test]
fn completion_and_error_end_a_run() {
    assert!(is_terminal(NodeEventKind::Complete));
    assert!(is_terminal(NodeEventKind::Error));
    assert!(!is_terminal(NodeEventKind::Advance));
}

fn event(run: &str, id: &str, kind: NodeEventKind) -> Feed {
    Feed::Event { run_id: run.to_owned(), id: id.to_owned(), kind }
}

#[test]
fn a_viewer_sees_new_events_of_its_run_once_then_the_stream_ends() {
    let mut v = Viewer::new("run-1".to_owned(), vec!["e1".to_owned()]);
    v.replay(NodeEventKind::Enter);
    assert_eq!(v.on_feed(&event("run-1", "e1", NodeEventKind::Enter)), Emission::Skip);
    assert_eq!(v.on_feed(&event("run-2", "x", NodeEventKind::Enter)), Emission::Skip);
    assert_eq!(v.on_feed(&Feed::Lagged(3)), Emission::Lagged(3));
    assert_eq!(v.on_feed(&event("run-1", "e2", NodeEventKind::Advance)), Emission::Send);
    assert_eq!(v.on_feed(&event("run-1", "e3", NodeEventKind::Complete)), Emission::Send);
    assert_eq!(v.on_feed(&event("run-1", "e4", NodeEventKind::Enter)), Emission::End);
}

#[test]
fn a_history_ending_the_run_ends_the_stream() {
    let mut v = Viewer::new("r".to_owned(), vec![]);
    v.replay(NodeEventKind::Error);
    assert_eq!(v.on_feed(&event("r", "n", NodeEventKind::Enter)), Emission::End);
    let mut w = Viewer::new("r".to_owned(), vec![]);
    assert_eq!(w.on_feed(&Feed::Closed), Emission::End);
}

#[test]
fn a_bearer_token_is_what_follows_the_scheme() {
    assert_eq!(bearer_token(Some("Bearer abc123")), Some("abc123".to_string()));
    assert_eq!(bearer_token(Some("Bearer ")), Some(String::new()));
    assert_eq!(bearer_token(Some("bearer abc123")), None);
    assert_eq!(bearer_token(Some("Basic dXNlcg==")), None);
    assert_eq!(bearer_token(Some("Bearer")), None);
    assert_eq!(bearer_token(None), None);
}

#[test]
fn a_temporary_password_reaches_only_me_and_change_password() {
    let mut caller = User {
        id: UserId("u1".to_string()),
        email: "a@example.com".to_string(),
        display_name: "A".to_string(),
        created_at: 0,
        updated_at: 0,
        must_change_password: true,
    };
    assert!(route_serves(Route::Me, &caller));
    assert!(route_serves(Route::ChangePassword, &caller));
    assert!(!route_serves(Route::Invite, &caller));
    assert!(!route_serves(Route::DisableUser, &caller));
    assert!(!route_serves(Route::EnableUser, &caller));
    caller.must_change_password = false;
    for route in [Route::Me, Route::ChangePassword, Route::Invite, Route::DisableUser, Route::EnableUser] {
        assert!(route_serves(route, &caller));
    }
}
