//! Policies shared by dispatch, result serializers and the operational
//! guide: exit statuses, the output guard, output modes and the fields of
//! each result document.

use vstd::prelude::*;
use crate::cli::OutputFormat;
use crate::config::RuleSeverity;
use crate::diagnostic::Finding;

verus! {

/// How a command ended.
#[derive(Clone, Copy, Debug, PartialEq, Eq, Structural)]
pub enum ExitStatus {
    Success,
    Violations,
    Failure,
}

impl ExitStatus {
    /// The process exit code: 0, 1 or 2.
    pub fn code(self) -> (r: i32)
        ensures
            r == match self {
                ExitStatus::Success => 0i32,
                ExitStatus::Violations => 1i32,
                ExitStatus::Failure => 2i32,
            },
    {
        match self {
            ExitStatus::Success => 0,
            ExitStatus::Violations => 1,
            ExitStatus::Failure => 2,
        }
    }

    /// What the status means, as the guide states it.
    pub fn meaning(self) -> (r: &'static str)
        ensures
            r@ == match self {
                ExitStatus::Success => "Command completed; check may report warnings, and impact may report warnings or errors."@,
                ExitStatus::Violations => "check found at least one finding configured as an error."@,
                ExitStatus::Failure => "Usage, configuration, path-resolution, output-budget, or runtime failure."@,
            },
    {
        match self {
            ExitStatus::Success => "Command completed; check may report warnings, and impact may report warnings or errors.",
            ExitStatus::Violations => "check found at least one finding configured as an error.",
            ExitStatus::Failure => "Usage, configuration, path-resolution, output-budget, or runtime failure.",
        }
    }
}

/// Whether some finding is configured as an error.
pub open spec fn has_error(findings: Seq<Finding>) -> bool {
    exists|i: int| 0 <= i < findings.len() && #[trigger] findings[i].severity == RuleSeverity::Error
}

/// The status of a check: violations exactly when some finding is an error;
/// warnings do not gate.
pub fn check_status(findings: &Vec<Finding>) -> (r: ExitStatus)
    ensures
        r == if has_error(findings@) {
            ExitStatus::Violations
        } else {
            ExitStatus::Success
        },
{
    let mut i: usize = 0;
    while i < findings.len()
        invariant
            i <= findings@.len(),
            forall|j: int| 0 <= j < i ==> #[trigger] findings@[j].severity != RuleSeverity::Error,
        decreases findings@.len() - i,
    {
        if findings[i].severity == RuleSeverity::Error {
            return ExitStatus::Violations;
        }
        i = i + 1;
    }
    ExitStatus::Success
}

/// The output guard: output over the byte budget is refused whole, before
/// anything reaches stdout, never truncated.
#[derive(Clone, Copy, Debug)]
pub struct OutputGuard {
    pub kind: &'static str,
    pub truncates: bool,
    pub atomic_refusal_before_stdout: bool,
    pub failure_exit: i32,
}

/// The output guard in force.
pub fn output_guard() -> (r: OutputGuard)
    ensures
        r.kind@ == "output-guard"@,
        !r.truncates,
        r.atomic_refusal_before_stdout,
        r.failure_exit == 2,
{
    OutputGuard {
        kind: "output-guard",
        truncates: false,
        atomic_refusal_before_stdout: true,
        failure_exit: ExitStatus::Failure.code(),
    }
}

impl OutputGuard {
    /// Whether `bytes` of output exceed the budget (`None`: no budget).
    pub fn exceeds(self, bytes: usize, limit: Option<usize>) -> (r: bool)
        ensures
            r == match limit {
                Some(l) => bytes > l,
                None => false,
            },
    {
        match limit {
            Some(l) => bytes > l,
            None => false,
        }
    }
}

/// The shape of a command's output.
#[derive(Clone, Copy, Debug, PartialEq, Eq, Structural)]
pub enum OutputMode {
    Silent,
    Envelope,
    BareJgf,
    RawGraphSet,
    IgnoreSources,
    Guide,
}

impl OutputMode {
    /// Whether output is JSON: always for a raw graph set, otherwise as the
    /// format says.
    pub fn is_json(self, format: OutputFormat) -> (r: bool)
        ensures
            r == (self == OutputMode::RawGraphSet || format == OutputFormat::Json),
    {
        match self {
            OutputMode::RawGraphSet => true,
            _ => match format {
                OutputFormat::Json => true,
                OutputFormat::Text => false,
            },
        }
    }

    /// Whether output may be coloured: never when it is JSON.
    pub fn allows_color(self, format: OutputFormat) -> (r: bool)
        ensures
            r == !(self == OutputMode::RawGraphSet || format == OutputFormat::Json),
    {
        !self.is_json(format)
    }

    /// Whether hints travel inside the result document.
    pub fn embeds_hints(self) -> (r: bool)
        ensures
            r == (self == OutputMode::Envelope),
    {
        match self {
            OutputMode::Envelope => true,
            _ => false,
        }
    }

    /// The document the mode writes, if any.
    pub fn document(self) -> (r: Option<&'static str>)
        ensures
            match self {
                OutputMode::Silent => r is None,
                OutputMode::Envelope => r is Some && r->0@ == "result-document"@,
                OutputMode::BareJgf => r is Some && r->0@ == "bare-jgf"@,
                OutputMode::RawGraphSet => r is Some && r->0@ == "raw-graph-set-json"@,
                OutputMode::IgnoreSources => r is Some && r->0@ == "ignore-source-report"@,
                OutputMode::Guide => r is Some && r->0@ == "this-contract"@,
            },
    {
        match self {
            OutputMode::Silent => None,
            OutputMode::Envelope => Some("result-document"),
            OutputMode::BareJgf => Some("bare-jgf"),
            OutputMode::RawGraphSet => Some("raw-graph-set-json"),
            OutputMode::IgnoreSources => Some("ignore-source-report"),
            OutputMode::Guide => Some("this-contract"),
        }
    }
}

/// The field every result document carries its hints in.
pub const HINTS_FIELD: &'static str = "hints";

/// The totals of a check.
#[derive(Clone, Copy, Debug)]
pub struct CheckSummary {
    pub errors: usize,
    pub warnings: usize,
}

/// The documents a command can answer with.
#[derive(Clone, Copy, Debug, PartialEq, Eq, Structural)]
pub enum ResultShape {
    Lock,
    Nodes,
    Edges,
    Impact,
    Check,
}

/// The fields of each result document, hints last.
pub open spec fn fields_spec(shape: ResultShape) -> Seq<Seq<char>> {
    match shape {
        ResultShape::Lock => seq!["locked"@, "dropped"@, "hints"@],
        ResultShape::Nodes => seq!["total"@, "nodes"@, "hints"@],
        ResultShape::Edges => seq!["total"@, "edges"@, "hints"@],
        ResultShape::Impact => seq!["seeds"@, "total"@, "impacted"@, "diagnostics"@, "hints"@],
        ResultShape::Check => seq!["diagnostics"@, "summary"@, "hints"@],
    }
}

impl ResultShape {
    /// The document's field names, in serialization order, ending with the
    /// hints field.
    pub fn fields(self) -> (r: Vec<&'static str>)
        ensures
            r@.len() == fields_spec(self).len(),
            forall|i: int| 0 <= i < r@.len() ==> (#[trigger] r@[i])@ == fields_spec(self)[i],
    {
        let mut fields: Vec<&'static str> = match self {
            ResultShape::Lock => vec!["locked", "dropped"],
            ResultShape::Nodes => vec!["total", "nodes"],
            ResultShape::Edges => vec!["total", "edges"],
            ResultShape::Impact => vec!["seeds", "total", "impacted", "diagnostics"],
            ResultShape::Check => vec!["diagnostics", "summary"],
        };
        fields.push(HINTS_FIELD);
        fields
    }
}

} // verus!
