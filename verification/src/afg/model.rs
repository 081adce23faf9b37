//! The vocabulary a workflow run is recorded in.

use vstd::prelude::*;
use crate::text::str_eq;

verus! {

/// A registered workflow's identity.
#[derive(Clone, Debug, PartialEq, Eq, Hash)]
pub struct WorkflowId(pub String);

/// A run's identity.
#[derive(Clone, Debug, PartialEq, Eq, Hash)]
pub struct RunId(pub String);

/// Where a run stands.
#[derive(Clone, Copy, Debug, PartialEq, Eq, Structural)]
pub enum RunStatus {
    Pending,
    Running,
    Failed,
    Completed,
}

/// The stored name of each status.
pub open spec fn run_status_name(s: RunStatus) -> Seq<char> {
    match s {
        RunStatus::Pending => "pending"@,
        RunStatus::Running => "running"@,
        RunStatus::Failed => "failed"@,
        RunStatus::Completed => "completed"@,
    }
}

/// The status a stored name denotes, if any.
pub open spec fn run_status_named(s: Seq<char>) -> Option<RunStatus> {
    if s == "pending"@ {
        Some(RunStatus::Pending)
    } else if s == "running"@ {
        Some(RunStatus::Running)
    } else if s == "failed"@ {
        Some(RunStatus::Failed)
    } else if s == "completed"@ {
        Some(RunStatus::Completed)
    } else {
        None
    }
}

impl RunStatus {
    pub fn as_str(self) -> (r: &'static str)
        ensures
            r@ == run_status_name(self),
    {
        match self {
            RunStatus::Pending => "pending",
            RunStatus::Running => "running",
            RunStatus::Failed => "failed",
            RunStatus::Completed => "completed",
        }
    }

    pub fn parse(s: &str) -> (r: Option<RunStatus>)
        ensures
            r == run_status_named(s@),
    {
        if str_eq(s, "pending") {
            Some(RunStatus::Pending)
        } else if str_eq(s, "running") {
            Some(RunStatus::Running)
        } else if str_eq(s, "failed") {
            Some(RunStatus::Failed)
        } else if str_eq(s, "completed") {
            Some(RunStatus::Completed)
        } else {
            None
        }
    }
}

/// Reading back a status's stored name gives the status; and a name
/// that reads as a status is that status's name.
pub proof fn run_status_round_trip(s: RunStatus, name: Seq<char>)
    ensures
        run_status_named(run_status_name(s)) == Some(s),
        run_status_named(name) == Some(s) ==> run_status_name(s) == name,
{
    reveal_strlit("pending");
    reveal_strlit("running");
    reveal_strlit("failed");
    reveal_strlit("completed");
    assert("pending"@[0] == 'p');
    assert("running"@[0] == 'r');
    assert("failed"@[0] == 'f');
    assert("completed"@[0] == 'c');
}

/// What happened to a node during a run.
#[derive(Clone, Copy, Debug, PartialEq, Eq, Structural)]
pub enum NodeEventKind {
    /// The runtime picked this node as current and dispatched a task.
    Enter,
    /// The agent replied with a result for this node.
    Exec,
    /// A single acceptance criterion passed.
    GatePass,
    /// A single acceptance criterion failed.
    GateFail,
    /// The same node is being redispatched after a gate failure.
    Retry,
    /// The run moved on to the next node.
    Advance,
    /// The run finished successfully at this node.
    Complete,
    /// Something went wrong (retries exhausted, and the like).
    Error,
}

/// The stored name of each event kind.
pub open spec fn event_kind_name(k: NodeEventKind) -> Seq<char> {
    match k {
        NodeEventKind::Enter => "enter"@,
        NodeEventKind::Exec => "exec"@,
        NodeEventKind::GatePass => "gate_pass"@,
        NodeEventKind::GateFail => "gate_fail"@,
        NodeEventKind::Retry => "retry"@,
        NodeEventKind::Advance => "advance"@,
        NodeEventKind::Complete => "complete"@,
        NodeEventKind::Error => "error"@,
    }
}

/// The event kind a stored name denotes, if any.
pub open spec fn event_kind_named(s: Seq<char>) -> Option<NodeEventKind> {
    if s == "enter"@ {
        Some(NodeEventKind::Enter)
    } else if s == "exec"@ {
        Some(NodeEventKind::Exec)
    } else if s == "gate_pass"@ {
        Some(NodeEventKind::GatePass)
    } else if s == "gate_fail"@ {
        Some(NodeEventKind::GateFail)
    } else if s == "retry"@ {
        Some(NodeEventKind::Retry)
    } else if s == "advance"@ {
        Some(NodeEventKind::Advance)
    } else if s == "complete"@ {
        Some(NodeEventKind::Complete)
    } else if s == "error"@ {
        Some(NodeEventKind::Error)
    } else {
        None
    }
}

impl NodeEventKind {
    pub fn as_str(self) -> (r: &'static str)
        ensures
            r@ == event_kind_name(self),
    {
        match self {
            NodeEventKind::Enter => "enter",
            NodeEventKind::Exec => "exec",
            NodeEventKind::GatePass => "gate_pass",
            NodeEventKind::GateFail => "gate_fail",
            NodeEventKind::Retry => "retry",
            NodeEventKind::Advance => "advance",
            NodeEventKind::Complete => "complete",
            NodeEventKind::Error => "error",
        }
    }
}

/// Reads a stored event kind back.
pub fn parse_kind(s: &str) -> (r: Option<NodeEventKind>)
    ensures
        r == event_kind_named(s@),
{
    if str_eq(s, "enter") {
        Some(NodeEventKind::Enter)
    } else if str_eq(s, "exec") {
        Some(NodeEventKind::Exec)
    } else if str_eq(s, "gate_pass") {
        Some(NodeEventKind::GatePass)
    } else if str_eq(s, "gate_fail") {
        Some(NodeEventKind::GateFail)
    } else if str_eq(s, "retry") {
        Some(NodeEventKind::Retry)
    } else if str_eq(s, "advance") {
        Some(NodeEventKind::Advance)
    } else if str_eq(s, "complete") {
        Some(NodeEventKind::Complete)
    } else if str_eq(s, "error") {
        Some(NodeEventKind::Error)
    } else {
        None
    }
}

/// Reading back an event kind's stored name gives the kind, and a name
/// that reads as a kind is that kind's name.
pub proof fn event_kind_round_trip(k: NodeEventKind, name: Seq<char>)
    ensures
        event_kind_named(event_kind_name(k)) == Some(k),
        event_kind_named(name) == Some(k) ==> event_kind_name(k) == name,
{
    reveal_strlit("enter");
    reveal_strlit("exec");
    reveal_strlit("gate_pass");
    reveal_strlit("gate_fail");
    reveal_strlit("retry");
    reveal_strlit("advance");
    reveal_strlit("complete");
    reveal_strlit("error");
    assert("enter"@[0] == 'e' && "enter"@[1] == 'n');
    assert("exec"@[0] == 'e' && "exec"@[1] == 'x');
    assert("gate_pass"@[0] == 'g' && "gate_pass"@[5] == 'p');
    assert("gate_fail"@[0] == 'g' && "gate_fail"@[5] == 'f');
    assert("retry"@[0] == 'r');
    assert("advance"@[0] == 'a');
    assert("complete"@[0] == 'c');
    assert("error"@[0] == 'e' && "error"@[1] == 'r');
}

/// Whether an event ends a run's timeline: nothing follows a
/// completion or an error.
pub fn is_terminal(kind: NodeEventKind) -> (r: bool)
    ensures
        r == (kind == NodeEventKind::Complete || kind == NodeEventKind::Error),
{
    match kind {
        NodeEventKind::Complete | NodeEventKind::Error => true,
        _ => false,
    }
}

} // verus!
