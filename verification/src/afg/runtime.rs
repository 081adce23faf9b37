//! The decisions a workflow run makes. Storing, dispatching and
//! running gates is the application's part; whether a result is
//! accepted, and what a run does after its gates, is decided here.

use vstd::prelude::*;
use crate::afg::error::{AfgError, AfgFault};
use crate::afg::model::{run_status_name, RunStatus};
use crate::afg::parse::{next_runnable, pick_next_node};
use crate::afg::spec::{node_ids, WorkflowNodeSpec, WorkflowSpec};
use crate::afg::tool_scope::ToolScope;
use crate::text::{append_chars, append_str, chars_eq, chars_of, decimal, decimal_chars, pieces, split_pieces, str_eq, string_of_vec, views};

verus! {

/// The feedback a retried node is dispatched with.
pub open spec fn retry_feedback(reason: Seq<char>, detail: Option<Seq<char>>, attempt: nat, max: nat) -> Seq<char> {
    "Gate failed on attempt "@ + decimal(attempt) + "/"@ + decimal(max) + ". Reason: "@ + reason + (
    match detail {
        Some(d) => if d.len() > 0 {
            "\n\nDetails:\n"@ + d
        } else {
            Seq::empty()
        },
        None => Seq::empty(),
    }) + "\n\nTry again \u{2014} address the failure above before sending the next task_result."@
}

/// Executable [`retry_feedback`].
pub fn build_retry_feedback(reason: &str, detail: Option<&str>, attempt: u32, max: u32) -> (r: String)
    ensures
        r@ == retry_feedback(reason@, opt_str(detail), attempt as nat, max as nat),
{
    let mut m = chars_of("Gate failed on attempt ");
    append_chars(&mut m, decimal_chars(attempt as u64).as_slice());
    append_str(&mut m, "/");
    append_chars(&mut m, decimal_chars(max as u64).as_slice());
    append_str(&mut m, ". Reason: ");
    append_str(&mut m, reason);
    match detail {
        Some(d) => {
            let dc = chars_of(d);
            if dc.len() > 0 {
                append_str(&mut m, "\n\nDetails:\n");
                append_chars(&mut m, dc.as_slice());
            }
        },
        None => {},
    }
    append_str(&mut m, "\n\nTry again \u{2014} address the failure above before sending the next task_result.");
    string_of_vec(&m)
}

/// The view of an optional string slice.
pub open spec fn opt_str(o: Option<&str>) -> Option<Seq<char>> {
    match o {
        Some(s) => Some(s@),
        None => None,
    }
}

/// Whether a relative path stays inside the directory it is joined
/// to: it is not absolute and no segment climbs out.
pub open spec fn stays_inside(rel: Seq<char>) -> bool {
    !(rel.len() > 0 && rel[0] == '/') && !pieces(rel, '/').contains(".."@)
}

/// `root` joined with `rel`, as `Path::join` does it for a relative
/// path: a separator between them unless `root` is empty or already
/// ends in one.
pub open spec fn joined(root: Seq<char>, rel: Seq<char>) -> Seq<char> {
    if root.len() > 0 && root.last() != '/' {
        root + seq!['/'] + rel
    } else {
        root + rel
    }
}

/// A project file's path: refused if `rel` is absolute or climbs out
/// of the project; otherwise joined to the project root.
pub fn resolve_project_path(root: &str, rel: &str) -> (r: Result<String, AfgError>)
    ensures
        match r {
            Ok(p) => stays_inside(rel@) && p@ == joined(root@, rel@),
            Err(e) => !stays_inside(rel@) && e@ == AfgFault::PathOutsideProject,
        },
{
    let rc = chars_of(rel);
    if rc.len() > 0 && rc[0] == '/' {
        assert(!stays_inside(rel@));
        return Err(AfgError::PathOutsideProject);
    }
    let parts = split_pieces(rc.as_slice(), '/');
    let up = chars_of("..");
    let mut k: usize = 0;
    while k < parts.len()
        invariant
            k <= parts@.len(),
            up@ == ".."@,
            crate::text::char_views(parts@) == pieces(rel@, '/'),
            forall|j: int| 0 <= j < k ==> parts@[j]@ != ".."@,
        decreases parts@.len() - k,
    {
        if chars_eq(parts[k].as_slice(), up.as_slice()) {
            assert(crate::text::char_views(parts@)[k as int] == ".."@);
            return Err(AfgError::PathOutsideProject);
        }
        k = k + 1;
    }
    assert(!crate::text::char_views(parts@).contains(".."@)) by {
        if crate::text::char_views(parts@).contains(".."@) {
            let j = choose|j: int| 0 <= j < parts@.len() && crate::text::char_views(parts@)[j] == ".."@;
            assert(parts@[j]@ == ".."@);
        }
    }
    let mut p = chars_of(root);
    let n = p.len();
    if n > 0 && p[n - 1] != '/' {
        p.push('/');
    }
    append_chars(&mut p, rc.as_slice());
    Ok(string_of_vec(&p))
}

/// Whether a result for `node_id` from the session `caller` is
/// accepted by a run dispatched to `target`, in status `status`, on
/// node `current` — and if not, why. A caller other than the target,
/// or a run never dispatched, is answered as if the run did not exist.
pub open spec fn admission(
    target: Option<Seq<char>>,
    caller: Option<Seq<char>>,
    status: RunStatus,
    current: Option<Seq<char>>,
    node_id: Seq<char>,
) -> Option<AfgFault> {
    if target is None || caller != target {
        Some(AfgFault::NotFound("run"@))
    } else if status != RunStatus::Running {
        Some(
            AfgFault::Validation(
                "run is "@ + run_status_name(status) + ", not running \u{2014} task_result ignored"@,
            ),
        )
    } else if current is None {
        Some(AfgFault::Validation("this run has no current node \u{2014} nothing was asked for"@))
    } else if node_id != current->0 {
        Some(
            AfgFault::Validation(
                "this run is on node '"@ + current->0 + "', not '"@ + node_id
                    + "' \u{2014} a result may only answer the node that was dispatched"@,
            ),
        )
    } else {
        None
    }
}

/// Decides whether a task result is accepted; see [`admission`].
pub fn admit_task_result(
    target: Option<&str>,
    caller: Option<&str>,
    status: RunStatus,
    current: Option<&str>,
    node_id: &str,
) -> (r: Result<(), AfgError>)
    ensures
        match admission(opt_str(target), opt_str(caller), status, opt_str(current), node_id@) {
            Some(f) => r matches Err(e) && e@ == f,
            None => r is Ok,
        },
{
    let t = match target {
        Some(t) => t,
        None => {
            return Err(AfgError::NotFound("run"));
        },
    };
    match caller {
        Some(c) => {
            if !str_eq(c, t) {
                return Err(AfgError::NotFound("run"));
            }
        },
        None => {
            return Err(AfgError::NotFound("run"));
        },
    }
    if status != RunStatus::Running {
        let mut m = chars_of("run is ");
        append_str(&mut m, status.as_str());
        append_str(&mut m, ", not running \u{2014} task_result ignored");
        return Err(AfgError::Validation(string_of_vec(&m)));
    }
    let cur = match current {
        Some(c) => c,
        None => {
            return Err(AfgError::Validation(string_of_vec(&chars_of("this run has no current node \u{2014} nothing was asked for"))));
        },
    };
    if !str_eq(node_id, cur) {
        let mut m = chars_of("this run is on node '");
        append_str(&mut m, cur);
        append_str(&mut m, "', not '");
        append_str(&mut m, node_id);
        append_str(&mut m, "' \u{2014} a result may only answer the node that was dispatched");
        return Err(AfgError::Validation(string_of_vec(&m)));
    }
    Ok(())
}

/// What a run, as the store found it, shows the admission check: the
/// session its current node was dispatched to, its status and its
/// current node.
pub open spec fn run_facts(run: Option<(Option<&str>, RunStatus, Option<&str>)>) -> Option<(Option<Seq<char>>, RunStatus, Option<Seq<char>>)> {
    match run {
        Some((t, s, c)) => Some((opt_str(t), s, opt_str(c))),
        None => None,
    }
}

/// Whether a result for `node_id` from `caller` is accepted by the run
/// the store found, if it found one, and if not, why. A run that does
/// not exist is answered exactly as one the caller may not answer.
pub open spec fn admission_for(
    run: Option<(Option<Seq<char>>, RunStatus, Option<Seq<char>>)>,
    caller: Option<Seq<char>>,
    node_id: Seq<char>,
) -> Option<AfgFault> {
    match run {
        None => Some(AfgFault::NotFound("run"@)),
        Some((target, status, current)) => admission(target, caller, status, current, node_id),
    }
}

/// Decides whether a task result is accepted, given the run as the
/// store found it; see [`admission_for`].
pub fn admit_task_result_for(
    run: Option<(Option<&str>, RunStatus, Option<&str>)>,
    caller: Option<&str>,
    node_id: &str,
) -> (r: Result<(), AfgError>)
    ensures
        match admission_for(run_facts(run), opt_str(caller), node_id@) {
            Some(f) => r matches Err(e) && e@ == f,
            None => r is Ok,
        },
{
    match run {
        None => Err(AfgError::NotFound("run")),
        Some((target, status, current)) => admit_task_result(target, caller, status, current, node_id),
    }
}

/// A run that does not exist and a run the caller was not dispatched
/// are answered alike, with `NotFound("run")`, so a caller cannot learn
/// that a run it may not touch exists.
pub proof fn law_missing_and_foreign_runs_read_alike(
    target: Option<Seq<char>>,
    caller: Option<Seq<char>>,
    status: RunStatus,
    current: Option<Seq<char>>,
    node_id: Seq<char>,
)
    ensures
        admission_for(None, caller, node_id) == Some(AfgFault::NotFound("run"@)),
        (target is None || caller != target) ==> admission_for(Some((target, status, current)), caller, node_id)
            == admission_for(None, caller, node_id),
{
}

/// What a run does once a node's gates have run.
pub enum NextStep {
    /// Dispatch the same node again, with feedback.
    Retry { attempt: u32, feedback: String },
    /// Give up: the retries are spent.
    Fail { reason: String },
    /// Dispatch the next runnable node.
    Advance { to: String },
    /// Nothing is left to run.
    Complete,
}

/// A next step as a value.
pub enum NextStepV {
    Retry(nat, Seq<char>),
    Fail(Seq<char>),
    Advance(Seq<char>),
    Complete,
}

impl View for NextStep {
    type V = NextStepV;

    open spec fn view(&self) -> NextStepV {
        match self {
            NextStep::Retry { attempt, feedback } => NextStepV::Retry(*attempt as nat, feedback@),
            NextStep::Fail { reason } => NextStepV::Fail(reason@),
            NextStep::Advance { to } => NextStepV::Advance(to@),
            NextStep::Complete => NextStepV::Complete,
        }
    }
}

/// After a node's gates: a failure is retried while retries remain,
/// and otherwise ends the run; a pass advances to the next runnable
/// node once this one counts as completed, or completes the run.
pub open spec fn next_step_of(
    spec: WorkflowSpec,
    node_id: Seq<char>,
    max_retries: nat,
    failure: Option<(Seq<char>, Option<Seq<char>>)>,
    retries: nat,
    completed: Seq<Seq<char>>,
) -> NextStepV {
    match failure {
        Some((reason, detail)) => if retries < max_retries {
            NextStepV::Retry((retries + 1) as nat, retry_feedback(reason, detail, (retries + 1) as nat, max_retries))
        } else {
            NextStepV::Fail("max_retries ("@ + decimal(max_retries) + ") exhausted: "@ + reason)
        },
        None => match next_runnable(spec, completed.push(node_id)) {
            Some(i) => NextStepV::Advance(node_ids(spec)[i as int]),
            None => NextStepV::Complete,
        },
    }
}

/// Decides what a run does after a node's gates; see
/// [`next_step_of`]. `retries` is how often the node was already
/// retried; `completed` the nodes completed before it.
pub fn next_step(
    spec: &WorkflowSpec,
    node: &WorkflowNodeSpec,
    failure: Option<(&str, Option<&str>)>,
    retries: u32,
    completed: &Vec<String>,
) -> (r: NextStep)
    ensures
        r@ == next_step_of(
            *spec,
            node.id@,
            node.max_retries as nat,
            match failure {
                Some((reason, detail)) => Some((reason@, opt_str(detail))),
                None => None,
            },
            retries as nat,
            views(completed@),
        ),
{
    match failure {
        Some((reason, detail)) => {
            if retries < node.max_retries {
                let attempt = retries + 1;
                let feedback = build_retry_feedback(reason, detail, attempt, node.max_retries);
                NextStep::Retry { attempt, feedback }
            } else {
                let mut m = chars_of("max_retries (");
                append_chars(&mut m, decimal_chars(node.max_retries as u64).as_slice());
                append_str(&mut m, ") exhausted: ");
                append_str(&mut m, reason);
                NextStep::Fail { reason: string_of_vec(&m) }
            }
        },
        None => {
            let mut done: Vec<String> = Vec::new();
            let mut i: usize = 0;
            while i < completed.len()
                invariant
                    i <= completed@.len(),
                    views(done@) == views(completed@).take(i as int),
                decreases completed@.len() - i,
            {
                let ghost d0 = views(done@);
                done.push(completed[i].clone());
                assert(views(done@) =~= d0.push(completed@[i as int]@));
                assert(views(completed@).take(i + 1) =~= views(completed@).take(i as int).push(completed@[i as int]@));
                i = i + 1;
            }
            let ghost d1 = views(done@);
            done.push(node.id.clone());
            assert(views(done@) =~= views(completed@).push(node.id@)) by {
                assert(views(completed@).take(completed@.len() as int) =~= views(completed@));
                assert(views(done@) =~= d1.push(node.id@));
            }
            match pick_next_node(spec, done.as_slice()) {
                Some(next) => {
                    proof {
                        crate::afg::parse::lemma_next_runnable_bound(*spec, views(done@));
                        let i = next_runnable(*spec, views(done@))->0;
                        assert(node_ids(*spec)[i as int] == spec.nodes@[i as int].id@);
                    }
                    NextStep::Advance { to: next.id.clone() }
                },
                None => NextStep::Complete,
            }
        },
    }
}

/// The first node of a spec with the id `node_id`, if any.
pub fn node_by_id<'a>(spec: &'a WorkflowSpec, node_id: &str) -> (r: Option<&'a WorkflowNodeSpec>)
    ensures
        match r {
            Some(n) => exists|i: int|
                0 <= i < spec.nodes@.len() && #[trigger] spec.nodes@[i].id@ == node_id@ && (forall|j: int|
                    0 <= j < i ==> spec.nodes@[j].id@ != node_id@) && n == &spec.nodes@[i],
            None => forall|i: int| 0 <= i < spec.nodes@.len() ==> #[trigger] spec.nodes@[i].id@ != node_id@,
        },
{
    let mut i: usize = 0;
    while i < spec.nodes.len()
        invariant
            i <= spec.nodes@.len(),
            forall|j: int| 0 <= j < i ==> #[trigger] spec.nodes@[j].id@ != node_id@,
        decreases spec.nodes@.len() - i,
    {
        if str_eq(spec.nodes[i].id.as_str(), node_id) {
            return Some(&spec.nodes[i]);
        }
        i = i + 1;
    }
    None
}

/// The tool scope of the node `node_id` of a spec, if the spec has
/// such a node: what the session executing it may call.
pub fn scope_for_node(spec: &WorkflowSpec, node_id: &str) -> (r: Option<ToolScope>)
    ensures
        match r {
            Some(s) => exists|i: int|
                0 <= i < spec.nodes@.len() && #[trigger] spec.nodes@[i].id@ == node_id@ && (forall|j: int|
                    0 <= j < i ==> spec.nodes@[j].id@ != node_id@) && s@ == views(spec.nodes@[i].allowed_tools@),
            None => forall|i: int| 0 <= i < spec.nodes@.len() ==> #[trigger] spec.nodes@[i].id@ != node_id@,
        },
{
    let mut i: usize = 0;
    while i < spec.nodes.len()
        invariant
            i <= spec.nodes@.len(),
            forall|j: int| 0 <= j < i ==> #[trigger] spec.nodes@[j].id@ != node_id@,
        decreases spec.nodes@.len() - i,
    {
        if str_eq(spec.nodes[i].id.as_str(), node_id) {
            let n = &spec.nodes[i];
            let mut tools: Vec<String> = Vec::new();
            let mut k: usize = 0;
            while k < n.allowed_tools.len()
                invariant
                    k <= n.allowed_tools@.len(),
                    views(tools@) == views(n.allowed_tools@).take(k as int),
                decreases n.allowed_tools@.len() - k,
            {
                let ghost t0 = views(tools@);
                tools.push(n.allowed_tools[k].clone());
                assert(views(tools@) =~= t0.push(n.allowed_tools@[k as int]@));
                assert(views(n.allowed_tools@).take(k + 1) =~= views(n.allowed_tools@).take(k as int).push(
                    n.allowed_tools@[k as int]@,
                ));
                k = k + 1;
            }
            assert(views(n.allowed_tools@).take(n.allowed_tools@.len() as int) =~= views(n.allowed_tools@));
            let s = ToolScope::new(tools);
            assert(s@ == views(n.allowed_tools@));
            return Some(s);
        }
        i = i + 1;
    }
    None
}

/// A result from any session but the one the node was dispatched to
/// is answered exactly as a run that does not exist, whatever state
/// the run is in and whichever node it names.
pub proof fn law_only_the_dispatched_session_may_answer(
    target: Option<Seq<char>>,
    caller: Option<Seq<char>>,
    status: RunStatus,
    current: Option<Seq<char>>,
    node_id: Seq<char>,
)
    requires
        target is None || caller != target,
    ensures
        admission(target, caller, status, current, node_id) == Some(AfgFault::NotFound("run"@)),
{
}

/// A failing node is dispatched again at most `max_retries` times:
/// the attempt numbers run from one to `max_retries`, a failure while
/// retries remain is always retried, as attempt `retries + 1` with the
/// gate's reason in its feedback, and a failure with none left ends
/// the run.
pub proof fn law_retries_are_bounded(
    spec: WorkflowSpec,
    node_id: Seq<char>,
    max_retries: nat,
    reason: Seq<char>,
    detail: Option<Seq<char>>,
    retries: nat,
    completed: Seq<Seq<char>>,
)
    ensures
        next_step_of(spec, node_id, max_retries, Some((reason, detail)), retries, completed) matches NextStepV::Retry(
            attempt,
            _,
        ) ==> 1 <= attempt <= max_retries && attempt == retries + 1,
        retries >= max_retries ==> next_step_of(spec, node_id, max_retries, Some((reason, detail)), retries, completed)
            == NextStepV::Fail("max_retries ("@ + decimal(max_retries) + ") exhausted: "@ + reason),
        retries < max_retries ==> next_step_of(spec, node_id, max_retries, Some((reason, detail)), retries, completed)
            == NextStepV::Retry(
            (retries + 1) as nat,
            retry_feedback(reason, detail, (retries + 1) as nat, max_retries),
        ),
{
}

} // verus!
