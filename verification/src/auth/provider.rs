//! Provider configuration, the authorize URL a login is sent to, and
//! what is decided of a provider's answers: which of an account's
//! addresses may be trusted, and how a body is bounded before it
//! reaches a log.

use vstd::prelude::*;
use super::error::AuthError;
use super::oauth::OAuthProfile;
use crate::text::{
    opt_view, pair_views,
    append_chars, chars_of, chars_trim, signed_decimal, signed_decimal_chars, slice_chars, string_of_vec, trim,
};

verus! {

/// GitLab OAuth settings.
#[derive(Clone)]
pub struct GitlabOAuthConfig {
    pub client_id: String,
    pub client_secret: String,
    pub redirect_uri: String,
    pub state_secret: String,
    /// Overridable so a test can point at a local server.
    pub base_url: String,
}

impl GitlabOAuthConfig {
    /// Settings for gitlab.com.
    pub fn gitlab_com(
        client_id: String,
        client_secret: String,
        redirect_uri: String,
        state_secret: String,
    ) -> (c: Self)
        ensures
            c.client_id == client_id,
            c.client_secret == client_secret,
            c.redirect_uri == redirect_uri,
            c.state_secret == state_secret,
            c.base_url@ == "https://gitlab.com"@,
    {
        GitlabOAuthConfig {
            client_id,
            client_secret,
            redirect_uri,
            state_secret,
            base_url: String::from_str("https://gitlab.com"),
        }
    }
}

/// GitHub OAuth settings. GitHub splits its OAuth endpoints and its
/// REST API across two hosts.
#[derive(Clone)]
pub struct GithubOAuthConfig {
    pub client_id: String,
    pub client_secret: String,
    pub redirect_uri: String,
    pub state_secret: String,
    /// The OAuth endpoints.
    pub base_url: String,
    /// The REST API.
    pub api_base_url: String,
}

impl GithubOAuthConfig {
    /// Settings for github.com.
    pub fn github_com(
        client_id: String,
        client_secret: String,
        redirect_uri: String,
        state_secret: String,
    ) -> (c: Self)
        ensures
            c.client_id == client_id,
            c.client_secret == client_secret,
            c.redirect_uri == redirect_uri,
            c.state_secret == state_secret,
            c.base_url@ == "https://github.com"@,
            c.api_base_url@ == "https://api.github.com"@,
    {
        GithubOAuthConfig {
            client_id,
            client_secret,
            redirect_uri,
            state_secret,
            base_url: String::from_str("https://github.com"),
            api_base_url: String::from_str("https://api.github.com"),
        }
    }
}

/// The longest provider body, in characters, kept in a message.
pub const SUMMARY_CHARS: usize = 200;

/// A provider body trimmed and cut to [`SUMMARY_CHARS`] characters,
/// with an ellipsis when something was cut.
pub open spec fn summary_of(body: Seq<char>) -> Seq<char> {
    let t = trim(body);
    if t.len() > SUMMARY_CHARS {
        t.take(SUMMARY_CHARS as int) + "…"@
    } else {
        t
    }
}

/// Trims a provider body for an error message. Cut on a character
/// boundary, never inside one.
pub fn summarise(body: &str) -> (r: String)
    ensures
        r@ == summary_of(body@),
{
    let b = chars_of(body);
    let t = chars_trim(b.as_slice());
    if t.len() > SUMMARY_CHARS {
        let mut cut = slice_chars(t.as_slice(), 0, SUMMARY_CHARS);
        let e = chars_of("…");
        append_chars(&mut cut, e.as_slice());
        string_of_vec(&cut)
    } else {
        string_of_vec(&t)
    }
}

/// One entry of GitHub's list of an account's addresses.
#[derive(Clone, Debug)]
pub struct GithubEmail {
    pub email: String,
    pub primary: bool,
    pub verified: bool,
}

/// Whether GitHub vouches for an address: primary and verified both.
pub open spec fn trusted(e: GithubEmail) -> bool {
    e.primary && e.verified
}

/// What a refused GitHub profile says.
pub const NO_VERIFIED_PRIMARY: &'static str =
    "this GitHub account has no verified primary email; verify one on GitHub and try again";

/// What a refused GitLab profile says.
pub const NO_PROFILE_EMAIL: &'static str = "GitLab profile has no email; grant a scope that includes it";

/// The display name a GitHub profile yields: its name if it has one,
/// else its login handle.
pub open spec fn github_name(name: Option<String>, login: String) -> Seq<char> {
    match name {
        Some(n) => n@,
        None => login@,
    }
}

/// The profile of a GitHub account with the id `id`, the optional
/// display name `name`, the handle `login` and the addresses `emails`.
///
/// The address is the first one that is both primary and verified,
/// with no fallback: a primary address the account has not proven, or
/// a verified one it is not known by, would let a first login attach
/// an identity to someone else's account.
pub fn github_profile(id: i64, name: Option<String>, login: String, emails: &Vec<GithubEmail>) -> (r: Result<
    OAuthProfile,
    AuthError,
>)
    ensures
        r is Ok <==> exists|i: int| 0 <= i < emails@.len() && #[trigger] trusted(emails@[i]),
        r matches Ok(p) ==> exists|i: int|
            0 <= i < emails@.len() && #[trigger] trusted(emails@[i]) && (forall|j: int|
                0 <= j < i ==> !trusted(#[trigger] emails@[j])) && p.email@ == emails@[i].email@,
        r matches Ok(p) ==> p.provider_user_id@ == signed_decimal(id as int) && p.name@ == github_name(name, login),
        r matches Err(e) ==> e matches AuthError::OAuthProviderError(m) && m@ == NO_VERIFIED_PRIMARY@,
{
    let mut i: usize = 0;
    while i < emails.len()
        invariant
            i <= emails@.len(),
            forall|j: int| 0 <= j < i ==> !trusted(#[trigger] emails@[j]),
        decreases emails@.len() - i,
    {
        let e = &emails[i];
        if e.primary && e.verified {
            assert(trusted(emails@[i as int]));
            let display = match name {
                Some(n) => n,
                None => login,
            };
            let digits = signed_decimal_chars(id);
            return Ok(OAuthProfile { provider_user_id: string_of_vec(&digits), email: e.email.clone(), name: display });
        }
        i = i + 1;
    }
    Err(AuthError::OAuthProviderError(NO_VERIFIED_PRIMARY.to_string()))
}

/// The profile of a GitLab account. GitLab's profile address is the
/// account's primary, which GitLab requires to be confirmed; a profile
/// without one is refused.
pub fn gitlab_profile(id: i64, email: Option<String>, name: String) -> (r: Result<OAuthProfile, AuthError>)
    ensures
        r is Ok <==> email is Some,
        r matches Ok(p) ==> p.provider_user_id@ == signed_decimal(id as int) && email == Some(p.email) && p.name
            == name,
        r matches Err(e) ==> e matches AuthError::OAuthProviderError(m) && m@ == NO_PROFILE_EMAIL@,
{
    match email {
        Some(address) => {
            let digits = signed_decimal_chars(id);
            Ok(OAuthProfile { provider_user_id: string_of_vec(&digits), email: address, name })
        },
        None => Err(AuthError::OAuthProviderError(NO_PROFILE_EMAIL.to_string())),
    }
}

/// What GitLab is asked for: one grant for login and tracker reads.
pub const GITLAB_SCOPE: &'static str = "read_user read_api";

/// What GitHub is asked for: the profile and the address list, and
/// deliberately no repository access.
pub const GITHUB_SCOPE: &'static str = "read:user user:email";

/// The URL `url` makes of `base` joined with `path`, with the query
/// pairs appended in order, or `None` when `base` is not a URL or the
/// join fails.
pub uninterp spec fn url_with_query_of(base: Seq<char>, path: Seq<char>, pairs: Seq<(Seq<char>, Seq<char>)>) -> Option<
    Seq<char>,
>;

/// How many characters a list of query pairs holds, with a separator
/// for each name and each value.
pub open spec fn pairs_len(pairs: Seq<(Seq<char>, Seq<char>)>) -> nat
    decreases pairs.len(),
{
    if pairs.len() == 0 {
        0
    } else {
        pairs_len(pairs.drop_last()) + pairs.last().0.len() + pairs.last().1.len() + 2
    }
}

/// The most characters a URL is built from. `url` keeps positions in
/// a `u32` and panics past 4 GiB; with at most twelve bytes for a
/// percent-encoded character, this many characters stay below that.
pub const URL_INPUT_MAX: usize = 0x1000_0000;

/// `url::Url::parse(base)`, then `join(path)`, then
/// `query_pairs_mut().extend_pairs(pairs)`, serialized. The contract
/// names the URL and says nothing of URL syntax or encoding.
#[verifier::external_body]
fn url_with_query(base: &str, path: &str, pairs: &Vec<(String, String)>) -> (r: Option<String>)
    requires
        base@.len() + path@.len() + pairs_len(pair_views(pairs@)) <= URL_INPUT_MAX,
    ensures
        opt_view(r) == url_with_query_of(base@, path@, pair_views(pairs@)),
{
    let mut url = url::Url::parse(base).ok()?.join(path).ok()?;
    url.query_pairs_mut().extend_pairs(pairs.iter().map(|(k, v)| (k.as_str(), v.as_str())));
    Some(url.to_string())
}

/// The URL a GitLab login starts at: the configured server's
/// `/oauth/authorize`, asking for a code, with the client id, the
/// redirect URI, [`GITLAB_SCOPE`] and the signed `state`. `None` when
/// the configured base is not a URL.
pub fn gitlab_authorize_url(config: &GitlabOAuthConfig, state: &str) -> (r: Option<String>)
    requires
        config.base_url@.len() + config.client_id@.len() + config.redirect_uri@.len() + state@.len() <= 0x0fff_0000,
    ensures
        opt_view(r) == url_with_query_of(
            config.base_url@,
            "/oauth/authorize"@,
            seq![
                ("client_id"@, config.client_id@),
                ("redirect_uri"@, config.redirect_uri@),
                ("response_type"@, "code"@),
                ("scope"@, GITLAB_SCOPE@),
                ("state"@, state@),
            ],
        ),
{
    let mut pairs: Vec<(String, String)> = Vec::new();
    pairs.push(("client_id".to_string(), config.client_id.clone()));
    pairs.push(("redirect_uri".to_string(), config.redirect_uri.clone()));
    pairs.push(("response_type".to_string(), "code".to_string()));
    pairs.push(("scope".to_string(), GITLAB_SCOPE.to_string()));
    pairs.push(("state".to_string(), state.to_string()));
    let ghost want = seq![
        ("client_id"@, config.client_id@),
        ("redirect_uri"@, config.redirect_uri@),
        ("response_type"@, "code"@),
        ("scope"@, GITLAB_SCOPE@),
        ("state"@, state@),
    ];
    proof {
        assert(pair_views(pairs@) =~= want);
        reveal_strlit("/oauth/authorize");
        reveal_strlit("client_id");
        reveal_strlit("redirect_uri");
        reveal_strlit("response_type");
        reveal_strlit("code");
        reveal_strlit("scope");
        reveal_strlit("read_user read_api");
        reveal_strlit("state");
        reveal_with_fuel(pairs_len, 6);
    }
    url_with_query(config.base_url.as_str(), "/oauth/authorize", &pairs)
}

/// The URL a GitHub login starts at: the configured server's
/// `/login/oauth/authorize`, with the client id, the redirect URI,
/// [`GITHUB_SCOPE`] and the signed `state`. `None` when the configured
/// base is not a URL.
pub fn github_authorize_url(config: &GithubOAuthConfig, state: &str) -> (r: Option<String>)
    requires
        config.base_url@.len() + config.client_id@.len() + config.redirect_uri@.len() + state@.len() <= 0x0fff_0000,
    ensures
        opt_view(r) == url_with_query_of(
            config.base_url@,
            "/login/oauth/authorize"@,
            seq![
                ("client_id"@, config.client_id@),
                ("redirect_uri"@, config.redirect_uri@),
                ("scope"@, GITHUB_SCOPE@),
                ("state"@, state@),
            ],
        ),
{
    let mut pairs: Vec<(String, String)> = Vec::new();
    pairs.push(("client_id".to_string(), config.client_id.clone()));
    pairs.push(("redirect_uri".to_string(), config.redirect_uri.clone()));
    pairs.push(("scope".to_string(), GITHUB_SCOPE.to_string()));
    pairs.push(("state".to_string(), state.to_string()));
    let ghost want = seq![
        ("client_id"@, config.client_id@),
        ("redirect_uri"@, config.redirect_uri@),
        ("scope"@, GITHUB_SCOPE@),
        ("state"@, state@),
    ];
    proof {
        assert(pair_views(pairs@) =~= want);
        reveal_strlit("/login/oauth/authorize");
        reveal_strlit("client_id");
        reveal_strlit("redirect_uri");
        reveal_strlit("scope");
        reveal_strlit("read:user user:email");
        reveal_strlit("state");
        reveal_with_fuel(pairs_len, 5);
    }
    url_with_query(config.base_url.as_str(), "/login/oauth/authorize", &pairs)
}

} // verus!
