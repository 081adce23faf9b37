//! Local accounts: what a credential must look like, the providers an
//! identity can be linked from, and the signed state that protects an
//! OAuth round trip.

pub mod account;
pub mod error;
pub mod hex;
pub mod oauth;
pub mod oauth_state;
pub mod password;
pub mod provider;
pub mod reply;
pub mod token;
pub mod validation;

use vstd::prelude::*;

verus! {

/// How long an issued session stays valid, in days.
pub const SESSION_LIFETIME_DAYS: i64 = 30;

/// The shortest password accepted, in bytes.
pub const MIN_PASSWORD_LEN: usize = 8;

/// How long a signed OAuth `state` value stays acceptable, in seconds.
pub const OAUTH_STATE_MAX_AGE_SECS: i64 = 300;

} // verus!
