//! The identity a provider hands back, and which provider it came from.
//!
//! Linking only, never creating: a consent screen finds an account
//! that already exists, by the provider's verified email, or fails.

use vstd::prelude::*;

verus! {

/// A provider an identity can be linked from.
#[derive(Clone, Copy, Debug, PartialEq, Eq, Structural)]
pub enum OAuthProvider {
    Gitlab,
    Github,
}

/// The name stored for each provider.
pub open spec fn provider_name(p: OAuthProvider) -> Seq<char> {
    match p {
        OAuthProvider::Gitlab => "gitlab"@,
        OAuthProvider::Github => "github"@,
    }
}

impl OAuthProvider {
    /// The value stored for this provider.
    pub fn as_str(self) -> (r: &'static str)
        ensures
            r@ == provider_name(self),
    {
        match self {
            OAuthProvider::Gitlab => "gitlab",
            OAuthProvider::Github => "github",
        }
    }
}

/// No two providers share a stored name, so one provider's identities
/// can never match another's.
pub proof fn provider_names_are_distinct(a: OAuthProvider, b: OAuthProvider)
    ensures
        provider_name(a) == provider_name(b) ==> a == b,
{
    reveal_strlit("gitlab");
    reveal_strlit("github");
    assert("gitlab"@[4] == 'a');
    assert("github"@[4] == 'u');
}

/// Who a provider says just authenticated.
pub struct OAuthProfile {
    /// The provider's own stable id for the account.
    pub provider_user_id: String,
    /// An address the provider has verified; a first login links by it.
    pub email: String,
    pub name: String,
}

/// A user's identity.
#[derive(Clone, Debug, PartialEq, Eq, Hash)]
pub struct UserId(pub String);

} // verus!
