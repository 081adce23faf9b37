//! The shape a workflow author writes: parsed once at registration
//! and stored, so a run never re-reads the text.

use vstd::prelude::*;
use crate::text::views;

verus! {

/// A JSON value, carried through unread.
#[verifier::external_type_specification]
#[verifier::external_body]
pub struct ExJsonValue(serde_json::Value);

/// `<serde_json::Value as Clone>::clone`: a deep copy of the value;
/// nothing is claimed of it.
pub assume_specification[ <serde_json::Value as std::clone::Clone>::clone ](v: &serde_json::Value) -> serde_json::Value;

/// A workflow: named, versioned, and a list of nodes.
#[derive(Debug, Clone)]
pub struct WorkflowSpec {
    pub name: String,
    pub version: i64,
    pub description: Option<String>,
    pub nodes: Vec<WorkflowNodeSpec>,
}

/// One step of a workflow.
#[derive(Debug, Clone)]
pub struct WorkflowNodeSpec {
    /// Stable identifier, unique within the spec.
    pub id: String,
    pub title: String,
    /// Free-form instructions handed to the executing agent.
    pub instructions: String,
    /// Ids of nodes that must be completed before this one can run.
    pub depends_on: Vec<String>,
    /// Which kind of agent the node is meant for; recorded, not routed on.
    pub agent_kind: Option<String>,
    /// Every criterion must pass before the run moves past this node.
    pub acceptance_criteria: Vec<AcceptanceCriterion>,
    pub max_retries: u32,
    /// Tool names, or `family.*`, the agent is asked to stay within;
    /// empty means unrestricted.
    pub allowed_tools: Vec<String>,
}

/// A check run after the agent reports its result.
#[derive(Debug, Clone)]
pub enum AcceptanceCriterion {
    /// A shell command in the project root (or `cwd`), checked by its
    /// exit code and, optionally, a pattern its output must match.
    Shell {
        command: String,
        cwd: Option<String>,
        expect_exit: i32,
        stdout_matches: Option<String>,
        timeout_secs: u64,
    },
    /// The result's payload validated against a JSON Schema.
    SchemaValidate { schema: serde_json::Value },
}

/// The version a spec that names none has.
pub fn default_version() -> (r: i64)
    ensures
        r == 1,
{
    1
}

/// How often a failing node is retried when its spec does not say.
pub fn default_max_retries() -> (r: u32)
    ensures
        r == 3,
{
    3
}

/// The exit code a shell gate expects when its spec does not say.
pub fn default_expect_exit() -> (r: i32)
    ensures
        r == 0,
{
    0
}

/// How long a shell gate may run, in seconds, when its spec does not
/// say.
pub fn default_shell_timeout() -> (r: u64)
    ensures
        r == 60,
{
    60
}

/// The node ids of a spec, in order.
pub open spec fn node_ids(spec: WorkflowSpec) -> Seq<Seq<char>> {
    spec.nodes@.map_values(|n: WorkflowNodeSpec| n.id@)
}

/// The dependencies of each node of a spec, in order.
pub open spec fn node_deps(spec: WorkflowSpec) -> Seq<Seq<Seq<char>>> {
    spec.nodes@.map_values(|n: WorkflowNodeSpec| views(n.depends_on@))
}

} // verus!
