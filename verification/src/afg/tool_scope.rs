//! What an agent is asked to stay within while executing a node.
//!
//! Not containment: the agent holds a terminal. A scope limits
//! accidents on the one surface the runtime controls. An empty scope
//! means "said nothing" and permits everything.

use vstd::prelude::*;
use crate::text::{chars_of, chars_eq, chars_end_with, chars_start_with, ends_with, starts_with};

verus! {

/// Whether `tool` is one an agent may always call, whatever a node
/// declares: reporting a result and reading its own run.
pub open spec fn always_allowed(tool: Seq<char>) -> bool {
    tool == "afg.submit_task_result"@ || tool == "afg.get_run"@
}

/// `prefix.*` covers `prefix.` followed by anything; any other
/// pattern is an exact name.
pub open spec fn pattern_matches(pattern: Seq<char>, tool: Seq<char>) -> bool {
    if ends_with(pattern, seq!['.', '*']) {
        let prefix = pattern.take(pattern.len() - 2);
        starts_with(tool, prefix) && tool.len() > prefix.len() && tool[prefix.len() as int] == '.'
    } else {
        pattern == tool
    }
}

/// Whether a scope of these patterns permits `tool`.
pub open spec fn scope_permits(patterns: Seq<Seq<char>>, tool: Seq<char>) -> bool {
    ||| patterns.len() == 0
    ||| always_allowed(tool)
    ||| exists|i: int| 0 <= i < patterns.len() && pattern_matches(#[trigger] patterns[i], tool)
}

/// One node's declared scope: exact tool names, or `family.*`.
#[derive(Clone, Debug, PartialEq, Eq)]
pub struct ToolScope {
    patterns: Vec<String>,
}

impl View for ToolScope {
    type V = Seq<Seq<char>>;

    closed spec fn view(&self) -> Seq<Seq<char>> {
        self.patterns@.map_values(|p: String| p@)
    }
}

impl Default for ToolScope {
    fn default() -> (s: Self)
        ensures
            s@ == Seq::<Seq<char>>::empty(),
    {
        let s = ToolScope { patterns: Vec::new() };
        assert(s@ =~= Seq::<Seq<char>>::empty());
        s
    }
}

impl ToolScope {
    pub fn new(patterns: Vec<String>) -> (s: Self)
        ensures
            s@ == patterns@.map_values(|p: String| p@),
    {
        ToolScope { patterns }
    }

    /// An empty list means "said nothing", not "permit nothing".
    pub fn is_unrestricted(&self) -> (r: bool)
        ensures
            r == (self@.len() == 0),
    {
        self.patterns.len() == 0
    }

    pub fn patterns(&self) -> (r: &[String])
        ensures
            r@.map_values(|p: String| p@) == self@,
    {
        self.patterns.as_slice()
    }

    /// Whether `tool` is within this scope.
    pub fn permits(&self, tool: &str) -> (r: bool)
        ensures
            r == scope_permits(self@, tool@),
    {
        let t = chars_of(tool);
        if self.patterns.len() == 0 {
            return true;
        }
        let a = chars_of("afg.submit_task_result");
        let b = chars_of("afg.get_run");
        if chars_eq(t.as_slice(), a.as_slice()) || chars_eq(t.as_slice(), b.as_slice()) {
            return true;
        }
        let mut i: usize = 0;
        while i < self.patterns.len()
            invariant
                i <= self.patterns@.len(),
                t@ == tool@,
                forall|j: int| 0 <= j < i ==> !pattern_matches(#[trigger] self@[j], tool@),
            decreases self.patterns@.len() - i,
        {
            if matches_pattern(self.patterns[i].as_str(), t.as_slice()) {
                assert(pattern_matches(self@[i as int], tool@));
                return true;
            }
            i = i + 1;
        }
        false
    }
}

/// `tracker.*` covers `tracker.list_issues`; everything else is an
/// exact name. The dot is part of the prefix, so `tracker.*` does not
/// reach `trackerthing.foo`.
pub fn matches_pattern(pattern: &str, tool: &[char]) -> (r: bool)
    ensures
        r == pattern_matches(pattern@, tool@),
{
    let p = chars_of(pattern);
    let star = chars_of(".*");
    proof {
        reveal_strlit(".*");
    }
    assert(star@ =~= seq!['.', '*']);
    if chars_end_with(p.as_slice(), star.as_slice()) {
        let prefix = crate::text::slice_chars(p.as_slice(), 0, p.len() - 2);
        assert(prefix@ =~= p@.take(p@.len() - 2));
        chars_start_with(tool, prefix.as_slice()) && tool.len() > prefix.len() && tool[prefix.len()]
            == '.'
    } else {
        chars_eq(p.as_slice(), tool)
    }
}

/// Whatever a node declares, its agent may still report its result
/// and read its run: a scope can strand no one mid-run.
pub proof fn law_a_result_can_always_be_reported(patterns: Seq<Seq<char>>)
    ensures
        scope_permits(patterns, "afg.submit_task_result"@),
        scope_permits(patterns, "afg.get_run"@),
{
}

} // verus!
