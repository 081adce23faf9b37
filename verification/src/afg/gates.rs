//! What an acceptance check concludes.
//!
//! Running a shell command is the application's part; what its exit
//! code and output mean, and what a schema check's answer means, is
//! decided here.

use vstd::prelude::*;
use crate::text::{
    append_chars, append_str, chars_of, decimal, decimal_chars_wide, fitting, fitting_count, opt_view,
    signed_decimal, signed_decimal_chars, slice_chars, string_of_vec, utf8_len, utf8_len_wide,
};

verus! {

/// What one acceptance check concluded.
#[derive(Debug, Clone)]
pub enum GateOutcome {
    Pass {
        /// Short summary for the event timeline.
        summary: String,
    },
    Fail {
        /// One line, shown in the timeline and returned to the agent as
        /// retry feedback.
        reason: String,
        /// A longer diagnostic, kept for post-mortem.
        detail: Option<String>,
    },
}

/// An outcome as a value.
pub enum OutcomeV {
    Pass(Seq<char>),
    Fail(Seq<char>, Option<Seq<char>>),
}

impl View for GateOutcome {
    type V = OutcomeV;

    open spec fn view(&self) -> OutcomeV {
        match self {
            GateOutcome::Pass { summary } => OutcomeV::Pass(summary@),
            GateOutcome::Fail { reason, detail } => OutcomeV::Fail(reason@, opt_view(*detail)),
        }
    }
}

/// `s` cut to at most `max` bytes on a character boundary, with a note
/// of how many bytes were cut; unchanged when it fits.
pub open spec fn truncated(s: Seq<char>, max: nat) -> Seq<char> {
    if utf8_len(s) <= max {
        s
    } else {
        let k = fitting(s, max as int);
        s.take(k as int) + "\n\u{2026} (+"@ + decimal((utf8_len(s) - utf8_len(s.take(k as int))) as nat)
            + " bytes truncated)"@
    }
}

/// Cuts `s` to at most `max` bytes, on a character boundary; see
/// [`truncated`].
pub fn truncate(s: &str, max: usize) -> (r: String)
    ensures
        r@ == truncated(s@, max as nat),
{
    let c = chars_of(s);
    let k = fitting_count(c.as_slice(), max);
    let total = utf8_len_wide(c.as_slice());
    if total <= max as u128 {
        return string_of_vec(&c);
    }
    let head = slice_chars(c.as_slice(), 0, k);
    assert(head@ =~= s@.take(k as int));
    let kept = utf8_len_wide(head.as_slice());
    let mut r = slice_chars(c.as_slice(), 0, k);
    append_str(&mut r, "\n\u{2026} (+");
    let d = decimal_chars_wide(total - kept);
    append_chars(&mut r, d.as_slice());
    append_str(&mut r, " bytes truncated)");
    assert(r@ =~= truncated(s@, max as nat));
    string_of_vec(&r)
}

/// Whether `s` can be cut at byte `max` without splitting a
/// character: it fits, or a prefix of it is exactly `max` bytes.
pub open spec fn cuttable(s: Seq<char>, max: nat) -> bool {
    utf8_len(s) <= max || utf8_len(s.take(fitting(s, max as int) as int)) == max
}

/// `s`, or its first `max` bytes and an ellipsis.
pub open spec fn shortened(s: Seq<char>, max: nat) -> Seq<char> {
    if utf8_len(s) <= max {
        s
    } else {
        s.take(fitting(s, max as int) as int) + "\u{2026}"@
    }
}

/// The first `max` bytes of `s` and an ellipsis, or `s` when it fits.
/// Cutting inside a character panics, so `max` must fall on a
/// boundary when `s` is longer.
pub fn short(s: &str, max: usize) -> (r: String)
    requires
        cuttable(s@, max as nat),
    ensures
        r@ == shortened(s@, max as nat),
{
    let c = chars_of(s);
    let total = utf8_len_wide(c.as_slice());
    if total <= max as u128 {
        return string_of_vec(&c);
    }
    let k = fitting_count(c.as_slice(), max);
    let mut r = slice_chars(c.as_slice(), 0, k);
    append_str(&mut r, "\u{2026}");
    assert(r@ =~= shortened(s@, max as nat));
    string_of_vec(&r)
}

/// Why a pattern is not a regular expression, if it is not.
pub uninterp spec fn regex_refusal(pattern: Seq<char>) -> Option<Seq<char>>;

/// Whether a valid pattern matches somewhere in a text.
pub uninterp spec fn regex_finds(pattern: Seq<char>, text: Seq<char>) -> bool;

/// `regex::Regex::new(pattern)`'s error, rendered, if it fails. The
/// contract names the answer and says nothing of regex syntax.
#[verifier::external_body]
fn regex_error(pattern: &str) -> (r: Option<String>)
    ensures
        opt_view(r) == regex_refusal(pattern@),
{
    match regex::Regex::new(pattern) {
        Ok(_) => None,
        Err(e) => Some(e.to_string()),
    }
}

/// `regex::Regex::new(pattern)`, then `is_match(text)`: whether the
/// pattern matches anywhere in the text. The contract names the
/// answer; the pattern must compile.
#[verifier::external_body]
fn regex_is_match(pattern: &str, text: &str) -> (r: bool)
    requires
        regex_refusal(pattern@) is None,
    ensures
        r == regex_finds(pattern@, text@),
{
    match regex::Regex::new(pattern) {
        Ok(re) => re.is_match(text),
        Err(_) => false,
    }
}

/// The failure for an output pattern that is not a regular
/// expression.
pub open spec fn pattern_failure(refusal: Seq<char>) -> OutcomeV {
    OutcomeV::Fail("shell.stdout_matches is not a valid regex"@, Some(refusal))
}

/// A shell gate refuses to run when its output pattern does not
/// compile; this is that refusal, if any.
pub fn pattern_check(stdout_matches: Option<&str>) -> (r: Option<GateOutcome>)
    ensures
        match stdout_matches {
            Some(p) => match regex_refusal(p@) {
                Some(e) => r matches Some(o) && o@ == pattern_failure(e),
                None => r is None,
            },
            None => r is None,
        },
{
    match stdout_matches {
        Some(p) => match regex_error(p) {
            Some(e) => {
                let reason = string_of_vec(&chars_of("shell.stdout_matches is not a valid regex"));
                Some(GateOutcome::Fail { reason, detail: Some(e) })
            },
            None => None,
        },
        None => None,
    }
}

/// Whether a finished shell command passes its gate: the expected exit
/// code (a signal counts as exit -1), and output the pattern, if any,
/// matches. Only a pass writes the command into its summary.
pub open spec fn shell_passes(
    expect_exit: i32,
    stdout_matches: Option<Seq<char>>,
    exit_code: Option<i32>,
    combined: Seq<char>,
) -> bool {
    &&& (match exit_code {
        Some(c) => c as int,
        None => -1,
    }) == expect_exit as int
    &&& (stdout_matches matches Some(p) ==> regex_finds(p, combined))
}

/// The view of an optional string slice.
pub open spec fn opt_text(o: Option<&str>) -> Option<Seq<char>> {
    match o {
        Some(p) => Some(p@),
        None => None,
    }
}

/// What a finished shell command concludes: an exit code other than
/// the expected one fails, as does output the pattern does not match;
/// otherwise it passes. A command ended by a signal counts as exit -1.
pub open spec fn shell_outcome(
    command: Seq<char>,
    expect_exit: i32,
    stdout_matches: Option<Seq<char>>,
    exit_code: Option<i32>,
    combined: Seq<char>,
) -> OutcomeV {
    let code: int = match exit_code {
        Some(c) => c as int,
        None => -1,
    };
    if code != expect_exit as int {
        OutcomeV::Fail(
            "shell: exit "@ + signed_decimal(code) + " (expected "@ + signed_decimal(expect_exit as int) + ")"@,
            Some(truncated(combined, 4096)),
        )
    } else if stdout_matches matches Some(p) && !regex_finds(p, combined) {
        OutcomeV::Fail(
            "shell: stdout did not match regex '"@ + stdout_matches->0 + "'"@,
            Some(truncated(combined, 4096)),
        )
    } else {
        OutcomeV::Pass("shell '"@ + shortened(command, 60) + "' exit "@ + signed_decimal(code))
    }
}

/// Judges a finished shell command; see [`shell_outcome`]. The
/// pattern, if any, compiles (see [`pattern_check`]); when the command
/// passes, it can be cut at 60 bytes for the summary (cutting inside a
/// character panics).
pub fn shell_verdict(
    command: &str,
    expect_exit: i32,
    stdout_matches: Option<&str>,
    exit_code: Option<i32>,
    combined: &str,
) -> (r: GateOutcome)
    requires
        stdout_matches matches Some(p) ==> regex_refusal(p@) is None,
        shell_passes(expect_exit, opt_text(stdout_matches), exit_code, combined@) ==> cuttable(command@, 60),
    ensures
        r@ == shell_outcome(
            command@,
            expect_exit,
            match stdout_matches {
                Some(p) => Some(p@),
                None => None,
            },
            exit_code,
            combined@,
        ),
{
    let code: i32 = match exit_code {
        Some(c) => c,
        None => -1,
    };
    if code != expect_exit {
        let mut reason = chars_of("shell: exit ");
        append_chars(&mut reason, signed_decimal_chars(code as i64).as_slice());
        append_str(&mut reason, " (expected ");
        append_chars(&mut reason, signed_decimal_chars(expect_exit as i64).as_slice());
        append_str(&mut reason, ")");
        return GateOutcome::Fail { reason: string_of_vec(&reason), detail: Some(truncate(combined, 4096)) };
    }
    match stdout_matches {
        Some(p) => {
            if !regex_is_match(p, combined) {
                let mut reason = chars_of("shell: stdout did not match regex '");
                append_str(&mut reason, p);
                append_str(&mut reason, "'");
                return GateOutcome::Fail {
                    reason: string_of_vec(&reason),
                    detail: Some(truncate(combined, 4096)),
                };
            }
        },
        None => {},
    }
    let mut summary = chars_of("shell '");
    append_str(&mut summary, short(command, 60).as_str());
    append_str(&mut summary, "' exit ");
    append_chars(&mut summary, signed_decimal_chars(code as i64).as_slice());
    GateOutcome::Pass { summary: string_of_vec(&summary) }
}

/// Whether `s` can be cut at `max` bytes without splitting a
/// character; see [`cuttable`].
pub fn is_cuttable(s: &str, max: usize) -> (r: bool)
    ensures
        r == cuttable(s@, max as nat),
{
    let c = chars_of(s);
    let total = utf8_len_wide(c.as_slice());
    if total <= max as u128 {
        return true;
    }
    let k = fitting_count(c.as_slice(), max);
    let head = slice_chars(c.as_slice(), 0, k);
    assert(head@ =~= s@.take(k as int));
    utf8_len_wide(head.as_slice()) == max as u128
}

/// Whether a shell check succeeds as a whole: its output pattern, if
/// any, compiles, and the command passes (see [`shell_passes`]).
pub open spec fn shell_gate_passes(
    expect_exit: i32,
    stdout_matches: Option<Seq<char>>,
    exit_code: Option<i32>,
    combined: Seq<char>,
) -> bool {
    &&& (stdout_matches matches Some(p) ==> regex_refusal(p) is None)
    &&& shell_passes(expect_exit, stdout_matches, exit_code, combined)
}

/// Whether [`judge_shell`] will answer with a pass, and so write the
/// command into its summary; see [`shell_gate_passes`].
pub fn shell_gate_will_pass(
    expect_exit: i32,
    stdout_matches: Option<&str>,
    exit_code: Option<i32>,
    combined: &str,
) -> (r: bool)
    ensures
        r == shell_gate_passes(expect_exit, opt_text(stdout_matches), exit_code, combined@),
{
    let code: i32 = match exit_code {
        Some(c) => c,
        None => -1,
    };
    if code != expect_exit {
        return false;
    }
    match stdout_matches {
        Some(p) => match regex_error(p) {
            Some(_) => false,
            None => regex_is_match(p, combined),
        },
        None => true,
    }
}

/// Judges a finished shell check as a whole: an output pattern that does
/// not compile fails it with the refusal of [`pattern_check`] (the
/// command is then not worth running at all), and otherwise
/// [`shell_verdict`] decides. Only a pass cuts the command at 60
/// bytes, so only a pass needs the cut to fall between characters.
pub fn judge_shell(
    command: &str,
    expect_exit: i32,
    stdout_matches: Option<&str>,
    exit_code: Option<i32>,
    combined: &str,
) -> (r: GateOutcome)
    requires
        shell_gate_passes(expect_exit, opt_text(stdout_matches), exit_code, combined@) ==> cuttable(command@, 60),
    ensures
        match stdout_matches {
            Some(p) => match regex_refusal(p@) {
                Some(e) => r@ == pattern_failure(e),
                None => r@ == shell_outcome(command@, expect_exit, Some(p@), exit_code, combined@),
            },
            None => r@ == shell_outcome(command@, expect_exit, None, exit_code, combined@),
        },
{
    match pattern_check(stdout_matches) {
        Some(refused) => refused,
        None => shell_verdict(command, expect_exit, stdout_matches, exit_code, combined),
    }
}

/// What checking a payload against a JSON Schema found.
pub enum SchemaCheck {
    /// The schema itself is not valid; why.
    InvalidSchema(String),
    /// The payload does not satisfy the schema; the first violation.
    Invalid(String),
    Valid,
}

/// A schema check as a value.
pub enum SchemaCheckV {
    InvalidSchema(Seq<char>),
    Invalid(Seq<char>),
    Valid,
}

impl View for SchemaCheck {
    type V = SchemaCheckV;

    open spec fn view(&self) -> SchemaCheckV {
        match self {
            SchemaCheck::InvalidSchema(e) => SchemaCheckV::InvalidSchema(e@),
            SchemaCheck::Invalid(e) => SchemaCheckV::Invalid(e@),
            SchemaCheck::Valid => SchemaCheckV::Valid,
        }
    }
}

/// What `jsonschema` answers for a payload against a schema: the
/// schema's own error, the payload's first violation, or valid. Built
/// without the crate's default features, it fetches no remote `$ref`,
/// so the answer depends on the two values alone.
pub uninterp spec fn schema_check_of(schema: serde_json::Value, payload: serde_json::Value) -> SchemaCheckV;

/// `jsonschema::Validator::new(schema)`, then `validate(payload)`,
/// each error rendered. The contract names the answer and says nothing
/// of JSON Schema itself.
#[verifier::external_body]
fn check_against_schema(schema: &serde_json::Value, payload: &serde_json::Value) -> (r: SchemaCheck)
    ensures
        r@ == schema_check_of(*schema, *payload),
{
    match jsonschema::Validator::new(schema) {
        Err(e) => SchemaCheck::InvalidSchema(e.to_string()),
        Ok(v) => match v.validate(payload) {
            Ok(()) => SchemaCheck::Valid,
            Err(e) => SchemaCheck::Invalid(e.to_string()),
        },
    }
}

/// The first 200 bytes of a violation, for the one-line reason. Where
/// byte 200 falls inside a character the cut is made before it.
pub open spec fn reason_excerpt(d: Seq<char>) -> Seq<char> {
    if utf8_len(d) <= 200 {
        d
    } else {
        d.take(fitting(d, 200) as int) + "\u{2026}"@
    }
}

/// What a schema check concludes.
pub open spec fn schema_outcome(c: SchemaCheckV) -> OutcomeV {
    match c {
        SchemaCheckV::InvalidSchema(e) => OutcomeV::Fail("schema-validate: invalid schema: "@ + e, None),
        SchemaCheckV::Invalid(d) => OutcomeV::Fail("schema-validate: "@ + reason_excerpt(d), Some(d)),
        SchemaCheckV::Valid => OutcomeV::Pass("schema-validate ok"@),
    }
}

/// Judges a schema check; see [`schema_outcome`].
pub fn schema_verdict(check: SchemaCheck) -> (r: GateOutcome)
    ensures
        r@ == schema_outcome(check@),
{
    match check {
        SchemaCheck::InvalidSchema(e) => {
            let mut reason = chars_of("schema-validate: invalid schema: ");
            append_str(&mut reason, e.as_str());
            GateOutcome::Fail { reason: string_of_vec(&reason), detail: None }
        },
        SchemaCheck::Invalid(d) => {
            let c = chars_of(d.as_str());
            let mut reason = chars_of("schema-validate: ");
            let total = utf8_len_wide(c.as_slice());
            if total <= 200 {
                append_chars(&mut reason, c.as_slice());
            } else {
                let k = fitting_count(c.as_slice(), 200);
                let head = slice_chars(c.as_slice(), 0, k);
                append_chars(&mut reason, head.as_slice());
                append_str(&mut reason, "\u{2026}");
            }
            assert(reason@ =~= "schema-validate: "@ + reason_excerpt(d@));
            GateOutcome::Fail { reason: string_of_vec(&reason), detail: Some(d) }
        },
        SchemaCheck::Valid => GateOutcome::Pass { summary: string_of_vec(&chars_of("schema-validate ok")) },
    }
}

/// Validates the payload an agent sent back against a JSON Schema. No
/// payload fails; otherwise the outcome is what [`schema_verdict`]
/// makes of the validator's answer.
pub fn run_schema(schema: &serde_json::Value, payload: Option<&serde_json::Value>) -> (r: GateOutcome)
    ensures
        payload is None ==> r@ == OutcomeV::Fail("schema-validate: task_result had no payload to validate"@, None),
        payload matches Some(p) ==> r@ == schema_outcome(schema_check_of(*schema, *p)),
{
    match payload {
        None => GateOutcome::Fail {
            reason: string_of_vec(&chars_of("schema-validate: task_result had no payload to validate")),
            detail: None,
        },
        Some(p) => {
            let check = check_against_schema(schema, p);
            let ghost cv = check@;
            let r = schema_verdict(check);
            assert(r@ == schema_outcome(cv));
            r
        },
    }
}

} // verus!
