//! Path patterns, matched by the `globset` crate.

use vstd::prelude::*;
use crate::text::{opt_view, views};

verus! {

/// Why `globset` refuses a pattern, or `None` when it parses it.
pub uninterp spec fn glob_refusal(pattern: Seq<char>) -> Option<Seq<char>>;

/// Why `globset` refuses to build a set of these patterns, each of
/// which parses, or `None` when it builds it.
pub uninterp spec fn glob_set_refusal(patterns: Seq<Seq<char>>) -> Option<Seq<char>>;

/// Whether the set built of these patterns matches a path.
pub uninterp spec fn glob_set_matches(patterns: Seq<Seq<char>>, path: Seq<char>) -> bool;

/// Parses `pattern` with `globset::Glob::new` and reports its error
/// text, if any. The result depends on the pattern alone.
#[verifier::external_body]
pub(crate) fn glob_compile_error(pattern: &str) -> (r: Option<String>)
    ensures
        opt_view(r) == glob_refusal(pattern@),
{
    match globset::Glob::new(pattern) {
        Ok(_) => None,
        Err(e) => Some(e.to_string()),
    }
}

/// `globset::GlobSetBuilder::build` over the globs of these patterns,
/// in order, reporting its error text, if any: the step that compiles
/// the patterns' regular expressions, under the crate's size limit.
/// Each pattern must parse.
#[verifier::external_body]
pub(crate) fn glob_set_error(patterns: &Vec<String>) -> (r: Option<String>)
    requires
        forall|k: int| 0 <= k < patterns@.len() ==> (#[trigger] glob_refusal(patterns@[k]@)) is None,
    ensures
        opt_view(r) == glob_set_refusal(views(patterns@)),
{
    let mut builder = globset::GlobSetBuilder::new();
    for p in patterns {
        builder.add(globset::Glob::new(p).expect("each pattern parses"));
    }
    match builder.build() {
        Ok(_) => None,
        Err(e) => Some(e.to_string()),
    }
}

/// `globset::GlobSet::is_match` on the set `GlobSetBuilder::build`
/// makes of these patterns: whether one of them matches `path`. The
/// set must build.
#[verifier::external_body]
pub(crate) fn glob_set_is_match(patterns: &Vec<String>, path: &str) -> (r: bool)
    requires
        forall|k: int| 0 <= k < patterns@.len() ==> (#[trigger] glob_refusal(patterns@[k]@)) is None,
        glob_set_refusal(views(patterns@)) is None,
    ensures
        r == glob_set_matches(views(patterns@), path@),
{
    let mut builder = globset::GlobSetBuilder::new();
    for p in patterns {
        builder.add(globset::Glob::new(p).expect("each pattern parses"));
    }
    builder.build().expect("the set builds").is_match(path)
}

} // verus!
