use atlas::auth::oauth::OAuthProvider;
use atlas::auth::error::AuthError;
use atlas::auth::provider::{
    github_authorize_url, github_profile, gitlab_authorize_url, gitlab_profile, summarise, GithubEmail,
    GithubOAuthConfig, GitlabOAuthConfig, NO_PROFILE_EMAIL, NO_VERIFIED_PRIMARY,
};
use std::collections::HashMap;

#[test]
fn each_provider_has_its_own_stored_name() {
    assert_eq!(OAuthProvider::Gitlab.as_str(), "gitlab");
    assert_eq!(OAuthProvider::Github.as_str(), "github");
    assert_ne!(OAuthProvider::Gitlab.as_str(), OAuthProvider::Github.as_str());
}

#[test]
fn a_long_provider_body_is_bounded_before_it_reaches_a_log() {
    let long = "x".repeat(5_000);
    assert!(summarise(&long).len() < 260, "{}", summarise(&long).len());
    assert_eq!(summarise("  short  "), "short");
}

#[test]
fn summarising_does_not_split_a_character() {
    let body = "é".repeat(500);
    let _ = summarise(&body);
}

fn address(email: &str, primary: bool, verified: bool) -> GithubEmail {
    GithubEmail { email: email.to_string(), primary, verified }
}

#[test]
fn a_github_login_takes_only_the_verified_primary_address() {
    let emails = vec![
        address("public@example.com", false, true),
        address("unproven@example.com", true, false),
        address("main@example.com", true, true),
        address("later@example.com", true, true),
    ];
    let p = github_profile(42, None, "octo".to_string(), &emails).unwrap();
    assert_eq!(p.email, "main@example.com");
    assert_eq!(p.provider_user_id, "42");
    assert_eq!(p.name, "octo");
    let named = github_profile(-7, Some("Octo Cat".to_string()), "octo".to_string(), &emails).unwrap();
    assert_eq!(named.name, "Octo Cat");
    assert_eq!(named.provider_user_id, "-7");
}

#[test]
fn a_github_account_without_a_verified_primary_address_is_refused() {
    let emails = vec![address("a@example.com", true, false), address("b@example.com", false, true)];
    match github_profile(1, None, "x".to_string(), &emails) {
        Err(AuthError::OAuthProviderError(m)) => assert_eq!(m, NO_VERIFIED_PRIMARY),
        other => panic!("expected a refusal, got {:?}", other.map(|p| p.email)),
    }
    assert!(github_profile(1, None, "x".to_string(), &Vec::new()).is_err());
}

#[test]
fn a_gitlab_profile_needs_its_address() {
    let p = gitlab_profile(1234, Some("me@example.com".to_string()), "Me".to_string()).unwrap();
    assert_eq!(p.provider_user_id, "1234");
    assert_eq!(p.email, "me@example.com");
    assert_eq!(p.name, "Me");
    match gitlab_profile(1234, None, "Me".to_string()) {
        Err(AuthError::OAuthProviderError(m)) => assert_eq!(m, NO_PROFILE_EMAIL),
        _ => panic!("expected a refusal"),
    }
}

fn github_config() -> GithubOAuthConfig {
    GithubOAuthConfig::github_com(
        "client-id".to_owned(),
        "secret".to_owned(),
        "https://atlas.example/api/auth/oauth/github/callback".to_owned(),
        "state-secret".to_owned(),
    )
}

#[test]
fn the_authorize_url_carries_the_state_and_asks_for_no_repo_scope() {
    let url = url::Url::parse(&github_authorize_url(&github_config(), "signed-state").unwrap()).unwrap();
    let query: HashMap<_, _> = url.query_pairs().into_owned().collect();

    assert_eq!(url.path(), "/login/oauth/authorize");
    assert_eq!(query.get("state").map(String::as_str), Some("signed-state"));
    assert_eq!(query.get("client_id").map(String::as_str), Some("client-id"));

    let scope = query.get("scope").expect("no scope requested");
    assert!(scope.contains("user:email"), "{scope}");
    assert!(!scope.contains("repo"), "asked for repository access it never uses: {scope}");
}

#[test]
fn the_gitlab_authorize_url_asks_for_a_code_with_the_signed_state() {
    let config = GitlabOAuthConfig::gitlab_com(
        "gl-id".to_owned(),
        "secret".to_owned(),
        "https://atlas.example/cb?x=1 &y".to_owned(),
        "state-secret".to_owned(),
    );
    let text = gitlab_authorize_url(&config, "s.1&2").unwrap();
    assert!(text.starts_with("https://gitlab.com/oauth/authorize?client_id=gl-id&"), "{text}");
    let url = url::Url::parse(&text).unwrap();
    let pairs: Vec<(String, String)> = url.query_pairs().into_owned().collect();
    assert_eq!(
        pairs,
        vec![
            ("client_id".to_owned(), "gl-id".to_owned()),
            ("redirect_uri".to_owned(), "https://atlas.example/cb?x=1 &y".to_owned()),
            ("response_type".to_owned(), "code".to_owned()),
            ("scope".to_owned(), "read_user read_api".to_owned()),
            ("state".to_owned(), "s.1&2".to_owned()),
        ]
    );
}

#[test]
fn an_unusable_base_gives_no_authorize_url() {
    let mut config = github_config();
    config.base_url = "not a url".to_owned();
    assert_eq!(github_authorize_url(&config, "s"), None);
}
