//! Findings: statements about an item in the graph, and how they render as text.

use vstd::prelude::*;
use crate::ansi::{
    esc, is_sgr, lemma_comma_numbers_no_escape, lemma_no_escape_concat, lemma_one_line_no_escape,
    lemma_sgr_run_escape, lemma_strip_settled, lemma_strip_then_escape, lemma_strip_then_plain,
    no_escape, sgr_run, strip_sgr, SgrState,
};
use crate::config::RuleSeverity;
use crate::text::{
    comma_numbers, count_breaks, lemma_comma_numbers_single_line, lemma_count_breaks_concat,
    lemma_one_line_is_single_line, lemma_single_line_concat, lemma_single_line_count, one_line_spec,
    owned, push_all, push_chars, push_comma_numbers, push_one_line, single_line,
};

verus! {

/// A check finding. `subject` is the implicated path (the source node for
/// edge-level findings); `target` is what an edge-level finding's link points
/// at; `lines` are the source lines where that link appears; `graphs` carries
/// the provenance of the node or edge; `cause` names the likely reason when the
/// finding is correct but reads as the wrong problem.
#[derive(Debug, Clone)]
pub struct Finding {
    pub name: String,
    pub severity: RuleSeverity,
    pub subject: String,
    pub target: Option<String>,
    pub lines: Vec<usize>,
    pub graphs: Vec<String>,
    pub message: String,
    pub cause: Option<String>,
}

/// The text label of a severity.
pub open spec fn severity_label_spec(s: RuleSeverity) -> Seq<char> {
    match s {
        RuleSeverity::Error => seq!['e', 'r', 'r', 'o', 'r'],
        RuleSeverity::Warn => seq!['w', 'a', 'r', 'n'],
        RuleSeverity::Off => seq!['o', 'f', 'f'],
    }
}

/// The view of an optional string.
pub open spec fn opt_view(o: Option<String>) -> Option<Seq<char>> {
    match o {
        Some(s) => Some(s@),
        None => None,
    }
}

/// The locus of a finding as rendered: `subject:lines → target` for an edge
/// finding with known lines, `subject → target` for one without, and just
/// `subject` for a node finding. Subject and target are escaped onto one line.
pub open spec fn subject_display_spec(
    subject: Seq<char>,
    lines: Seq<usize>,
    target: Option<Seq<char>>,
) -> Seq<char> {
    let head = if lines.len() == 0 {
        one_line_spec(subject)
    } else {
        one_line_spec(subject) + seq![':'] + comma_numbers(lines)
    };
    match target {
        Some(t) => head + seq![' ', '→', ' '] + one_line_spec(t),
        None => head,
    }
}

/// The plain text rendering of a finding:
/// `severity[name]: locus (message)`, then `\n  cause: …` when a cause is set.
pub open spec fn finding_text_spec(f: Finding) -> Seq<char> {
    let head = severity_label_spec(f.severity) + seq!['['] + f.name@ + seq![']', ':', ' ']
        + subject_display_spec(f.subject@, f.lines@, opt_view(f.target)) + seq![' ', '(']
        + f.message@ + seq![')'];
    match f.cause {
        Some(c) => head + seq!['\n', ' ', ' ', 'c', 'a', 'u', 's', 'e', ':', ' '] + one_line_spec(
            c@,
        ),
        None => head,
    }
}

/// The colour codes a severity's label is drawn in.
pub open spec fn severity_color_spec(s: RuleSeverity) -> Seq<char> {
    match s {
        RuleSeverity::Error => seq!['\x1b', '[', '1', ';', '3', '1', 'm'],
        RuleSeverity::Warn => seq!['\x1b', '[', '1', ';', '3', '3', 'm'],
        RuleSeverity::Off => seq!['\x1b', '[', '0', 'm'],
    }
}

/// Reset all terminal attributes.
pub open spec fn ansi_reset() -> Seq<char> {
    seq!['\x1b', '[', '0', 'm']
}

/// Bold.
pub open spec fn ansi_bold() -> Seq<char> {
    seq!['\x1b', '[', '1', 'm']
}

/// Cyan.
pub open spec fn ansi_cyan() -> Seq<char> {
    seq!['\x1b', '[', '3', '6', 'm']
}

/// The coloured rendering of a finding: the same facts as
/// [`finding_text_spec`], with the label, name and locus wrapped in escapes.
pub open spec fn finding_color_spec(f: Finding) -> Seq<char> {
    let head = severity_color_spec(f.severity) + severity_label_spec(f.severity) + ansi_reset()
        + seq!['['] + ansi_bold() + f.name@ + ansi_reset() + seq![']', ':', ' '] + ansi_cyan()
        + subject_display_spec(f.subject@, f.lines@, opt_view(f.target)) + ansi_reset() + seq![
        ' ',
        '(',
    ] + f.message@ + seq![')'];
    match f.cause {
        Some(c) => head + seq!['\n', ' ', ' '] + ansi_bold() + seq!['c', 'a', 'u', 's', 'e']
            + ansi_reset() + seq![':', ' '] + one_line_spec(c@),
        None => head,
    }
}

/// The rendered locus of a finding never breaks a line.
pub proof fn lemma_subject_display_single_line(
    subject: Seq<char>,
    lines: Seq<usize>,
    target: Option<Seq<char>>,
)
    ensures
        single_line(subject_display_spec(subject, lines, target)),
{
    lemma_one_line_is_single_line(subject);
    let s1 = one_line_spec(subject);
    let head = if lines.len() == 0 {
        s1
    } else {
        lemma_comma_numbers_single_line(lines);
        lemma_single_line_concat(s1, seq![':']);
        lemma_single_line_concat(s1 + seq![':'], comma_numbers(lines));
        s1 + seq![':'] + comma_numbers(lines)
    };
    match target {
        Some(t) => {
            lemma_one_line_is_single_line(t);
            lemma_single_line_concat(head, seq![' ', '→', ' ']);
            lemma_single_line_concat(head + seq![' ', '→', ' '], one_line_spec(t));
        },
        None => {},
    }
}

/// One finding is one line: with a name and message that hold no line break,
/// the plain rendering breaks a line only before its cause, and the coloured
/// one likewise.
pub proof fn lemma_finding_is_one_line(f: Finding)
    requires
        single_line(f.name@),
        single_line(f.message@),
    ensures
        count_breaks(finding_text_spec(f)) == if f.cause is Some { 1nat } else { 0nat },
        count_breaks(finding_color_spec(f)) == if f.cause is Some { 1nat } else { 0nat },
{
    lemma_subject_display_single_line(f.subject@, f.lines@, opt_view(f.target));
    let locus = subject_display_spec(f.subject@, f.lines@, opt_view(f.target));
    let label = severity_label_spec(f.severity);
    let p1 = label + seq!['['];
    lemma_single_line_concat(label, seq!['[']);
    lemma_single_line_concat(p1, f.name@);
    lemma_single_line_concat(p1 + f.name@, seq![']', ':', ' ']);
    lemma_single_line_concat(p1 + f.name@ + seq![']', ':', ' '], locus);
    let p2 = p1 + f.name@ + seq![']', ':', ' '] + locus;
    lemma_single_line_concat(p2, seq![' ', '(']);
    lemma_single_line_concat(p2 + seq![' ', '('], f.message@);
    lemma_single_line_concat(p2 + seq![' ', '('] + f.message@, seq![')']);
    let head = p2 + seq![' ', '('] + f.message@ + seq![')'];
    lemma_single_line_count(head);

    let c0 = severity_color_spec(f.severity);
    let q = c0 + label;
    lemma_single_line_concat(c0, label);
    lemma_single_line_concat(q, ansi_reset());
    lemma_single_line_concat(q + ansi_reset(), seq!['[']);
    lemma_single_line_concat(q + ansi_reset() + seq!['['], ansi_bold());
    let q1 = q + ansi_reset() + seq!['['] + ansi_bold();
    lemma_single_line_concat(q1, f.name@);
    lemma_single_line_concat(q1 + f.name@, ansi_reset());
    lemma_single_line_concat(q1 + f.name@ + ansi_reset(), seq![']', ':', ' ']);
    lemma_single_line_concat(q1 + f.name@ + ansi_reset() + seq![']', ':', ' '], ansi_cyan());
    let q2 = q1 + f.name@ + ansi_reset() + seq![']', ':', ' '] + ansi_cyan();
    lemma_single_line_concat(q2, locus);
    lemma_single_line_concat(q2 + locus, ansi_reset());
    lemma_single_line_concat(q2 + locus + ansi_reset(), seq![' ', '(']);
    lemma_single_line_concat(q2 + locus + ansi_reset() + seq![' ', '('], f.message@);
    lemma_single_line_concat(q2 + locus + ansi_reset() + seq![' ', '('] + f.message@, seq![')']);
    let chead = q2 + locus + ansi_reset() + seq![' ', '('] + f.message@ + seq![')'];
    lemma_single_line_count(chead);
    assert(finding_text_spec(f) == match f.cause {
        Some(c) => head + seq!['\n', ' ', ' ', 'c', 'a', 'u', 's', 'e', ':', ' '] + one_line_spec(c@),
        None => head,
    });
    match f.cause {
        Some(c) => {
            lemma_one_line_is_single_line(c@);
            let tail = seq![' ', ' ', 'c', 'a', 'u', 's', 'e', ':', ' '];
            lemma_single_line_concat(tail, one_line_spec(c@));
            lemma_single_line_count(tail + one_line_spec(c@));
            assert(count_breaks(seq!['\n']) == 1) by {
                assert(seq!['\n'].drop_last() =~= Seq::<char>::empty());
                assert(count_breaks(Seq::<char>::empty()) == 0);
                assert(seq!['\n'].last() == '\n');
            }
            lemma_count_breaks_concat(head, seq!['\n']);
            lemma_count_breaks_concat(head + seq!['\n'], tail + one_line_spec(c@));
            assert(head + seq!['\n', ' ', ' ', 'c', 'a', 'u', 's', 'e', ':', ' '] + one_line_spec(c@)
                =~= (head + seq!['\n']) + (tail + one_line_spec(c@)));

            let ctail = seq![' ', ' '] + ansi_bold() + seq!['c', 'a', 'u', 's', 'e'] + ansi_reset()
                + seq![':', ' '] + one_line_spec(c@);
            lemma_single_line_concat(seq![' ', ' '], ansi_bold());
            lemma_single_line_concat(seq![' ', ' '] + ansi_bold(), seq!['c', 'a', 'u', 's', 'e']);
            lemma_single_line_concat(seq![' ', ' '] + ansi_bold() + seq!['c', 'a', 'u', 's', 'e'], ansi_reset());
            lemma_single_line_concat(seq![' ', ' '] + ansi_bold() + seq!['c', 'a', 'u', 's', 'e'] + ansi_reset(), seq![':', ' ']);
            lemma_single_line_concat(seq![' ', ' '] + ansi_bold() + seq!['c', 'a', 'u', 's', 'e'] + ansi_reset() + seq![':', ' '], one_line_spec(c@));
            lemma_single_line_count(ctail);
            lemma_count_breaks_concat(chead, seq!['\n']);
            lemma_count_breaks_concat(chead + seq!['\n'], ctail);
            assert(finding_color_spec(f) =~= (chead + seq!['\n']) + ctail);
        },
        None => {
            assert(finding_color_spec(f) == chead);
        },
    }
}

/// Whether no field of a finding holds an escape character.
pub open spec fn finding_fields_plain(f: Finding) -> bool {
    &&& no_escape(f.name@)
    &&& no_escape(f.subject@)
    &&& no_escape(f.message@)
    &&& (f.target matches Some(t) ==> no_escape(t@))
    &&& (f.cause matches Some(c) ==> no_escape(c@))
}

/// The rendered locus of a finding holds no escape when its subject and
/// target hold none.
proof fn lemma_subject_display_no_escape(
    subject: Seq<char>,
    lines: Seq<usize>,
    target: Option<Seq<char>>,
)
    requires
        no_escape(subject),
        target matches Some(t) ==> no_escape(t),
    ensures
        no_escape(subject_display_spec(subject, lines, target)),
{
    lemma_one_line_no_escape(subject);
    let s1 = one_line_spec(subject);
    assert(no_escape(seq![':']));
    assert(no_escape(seq![' ', '→', ' ']));
    let head = if lines.len() == 0 {
        s1
    } else {
        lemma_comma_numbers_no_escape(lines);
        lemma_no_escape_concat(s1, seq![':']);
        lemma_no_escape_concat(s1 + seq![':'], comma_numbers(lines));
        s1 + seq![':'] + comma_numbers(lines)
    };
    match target {
        Some(t) => {
            lemma_one_line_no_escape(t);
            lemma_no_escape_concat(head, seq![' ', '→', ' ']);
            lemma_no_escape_concat(head + seq![' ', '→', ' '], one_line_spec(t));
        },
        None => {},
    }
}

/// The coloured rendering of a finding carries the same content as the plain
/// one: deleting its escape sequences gives the plain text back, which holds
/// none, while the coloured text opens with one. Stated for findings whose
/// fields hold no escape character of their own.
#[verifier::rlimit(60)]
#[verifier::spinoff_prover]
pub proof fn lemma_finding_color_strips_to_text(f: Finding)
    requires
        finding_fields_plain(f),
    ensures
        strip_sgr(finding_color_spec(f)) == finding_text_spec(f),
        no_escape(finding_text_spec(f)),
        finding_color_spec(f).len() >= 2,
        finding_color_spec(f)[0] == esc(),
        finding_color_spec(f)[1] == '[',
{
    let sev = severity_color_spec(f.severity);
    assert(is_sgr(sev));
    assert(is_sgr(ansi_reset()));
    assert(is_sgr(ansi_bold()));
    assert(is_sgr(ansi_cyan()));
    let label = severity_label_spec(f.severity);
    assert(no_escape(label));
    let w_open = seq!['['];
    let w_close = seq![']', ':', ' '];
    let w_paren = seq![' ', '('];
    let w_end = seq![')'];
    assert(no_escape(w_open));
    assert(no_escape(w_close));
    assert(no_escape(w_paren));
    assert(no_escape(w_end));
    lemma_subject_display_no_escape(f.subject@, f.lines@, opt_view(f.target));
    let locus = subject_display_spec(f.subject@, f.lines@, opt_view(f.target));
    lemma_sgr_run_escape(sev);
    let a1 = sev + label;
    lemma_strip_then_plain(sev, label);
    let a2 = a1 + ansi_reset();
    lemma_strip_then_escape(a1, ansi_reset());
    let a3 = a2 + w_open;
    lemma_strip_then_plain(a2, w_open);
    let a4 = a3 + ansi_bold();
    lemma_strip_then_escape(a3, ansi_bold());
    let a5 = a4 + f.name@;
    lemma_strip_then_plain(a4, f.name@);
    let a6 = a5 + ansi_reset();
    lemma_strip_then_escape(a5, ansi_reset());
    let a7 = a6 + w_close;
    lemma_strip_then_plain(a6, w_close);
    let a8 = a7 + ansi_cyan();
    lemma_strip_then_escape(a7, ansi_cyan());
    let a9 = a8 + locus;
    lemma_strip_then_plain(a8, locus);
    let a10 = a9 + ansi_reset();
    lemma_strip_then_escape(a9, ansi_reset());
    let a11 = a10 + w_paren;
    lemma_strip_then_plain(a10, w_paren);
    let a12 = a11 + f.message@;
    lemma_strip_then_plain(a11, f.message@);
    let chead = a12 + w_end;
    lemma_strip_then_plain(a12, w_end);
    let head = label + w_open + f.name@ + w_close + locus + w_paren + f.message@ + w_end;
    assert(sgr_run(chead, SgrState::Text).0 =~= head);
    lemma_no_escape_concat(label, w_open);
    lemma_no_escape_concat(label + w_open, f.name@);
    lemma_no_escape_concat(label + w_open + f.name@, w_close);
    lemma_no_escape_concat(label + w_open + f.name@ + w_close, locus);
    lemma_no_escape_concat(label + w_open + f.name@ + w_close + locus, w_paren);
    lemma_no_escape_concat(label + w_open + f.name@ + w_close + locus + w_paren, f.message@);
    lemma_no_escape_concat(label + w_open + f.name@ + w_close + locus + w_paren + f.message@, w_end);
    assert(chead[0] == sev[0]);
    assert(chead[1] == sev[1]);
    match f.cause {
        Some(c) => {
            lemma_one_line_no_escape(c@);
            let co = one_line_spec(c@);
            let w_nl = seq!['\n', ' ', ' '];
            let w_cause = seq!['c', 'a', 'u', 's', 'e'];
            let w_colon = seq![':', ' '];
            assert(no_escape(w_nl));
            assert(no_escape(w_cause));
            assert(no_escape(w_colon));
            let c1 = chead + w_nl;
            lemma_strip_then_plain(chead, w_nl);
            let c2 = c1 + ansi_bold();
            lemma_strip_then_escape(c1, ansi_bold());
            let c3 = c2 + w_cause;
            lemma_strip_then_plain(c2, w_cause);
            let c4 = c3 + ansi_reset();
            lemma_strip_then_escape(c3, ansi_reset());
            let c5 = c4 + w_colon;
            lemma_strip_then_plain(c4, w_colon);
            let c6 = c5 + co;
            lemma_strip_then_plain(c5, co);
            assert(c6 == finding_color_spec(f));
            assert(sgr_run(c6, SgrState::Text).0 =~= finding_text_spec(f));
            lemma_strip_settled(c6);
            lemma_no_escape_concat(w_nl, w_cause);
            lemma_no_escape_concat(w_nl + w_cause, w_colon);
            lemma_no_escape_concat(head, w_nl + w_cause + w_colon);
            lemma_no_escape_concat(head + (w_nl + w_cause + w_colon), co);
            assert(finding_text_spec(f) =~= head + (w_nl + w_cause + w_colon) + co);
            assert(finding_color_spec(f)[0] == chead[0]);
            assert(finding_color_spec(f)[1] == chead[1]);
        },
        None => {
            assert(chead == finding_color_spec(f));
            assert(head =~= finding_text_spec(f));
            lemma_strip_settled(chead);
        },
    }
}

impl Finding {
    /// A finding at the default `warn` severity, with no target, lines or cause.
    pub fn warn(name: &str, subject: &str, graphs: Vec<String>, message: &str) -> (f: Finding)
        ensures
            f.name@ == name@,
            f.severity == RuleSeverity::Warn,
            f.subject@ == subject@,
            f.target is None,
            f.lines@ == Seq::<usize>::empty(),
            f.graphs == graphs,
            f.message@ == message@,
            f.cause is None,
    {
        Finding {
            name: owned(name),
            severity: RuleSeverity::Warn,
            subject: owned(subject),
            target: None,
            lines: Vec::new(),
            graphs,
            message: owned(message),
            cause: None,
        }
    }

    /// Attach a cause line rendered beneath the finding.
    pub fn with_cause(self, cause: &str) -> (f: Finding)
        ensures
            opt_view(f.cause) == Some(cause@),
            f.name == self.name,
            f.severity == self.severity,
            f.subject == self.subject,
            f.target == self.target,
            f.lines == self.lines,
            f.graphs == self.graphs,
            f.message == self.message,
    {
        let mut f = self;
        f.cause = Some(owned(cause));
        f
    }

    /// Attach the destination of an edge-level finding.
    pub fn with_target(self, target: &str) -> (f: Finding)
        ensures
            opt_view(f.target) == Some(target@),
            f.name == self.name,
            f.severity == self.severity,
            f.subject == self.subject,
            f.cause == self.cause,
            f.lines == self.lines,
            f.graphs == self.graphs,
            f.message == self.message,
    {
        let mut f = self;
        f.target = Some(owned(target));
        f
    }

    /// Attach the source line(s) where an edge finding's link appears.
    pub fn with_lines(self, lines: Vec<usize>) -> (f: Finding)
        ensures
            f.lines == lines,
            f.name == self.name,
            f.severity == self.severity,
            f.subject == self.subject,
            f.target == self.target,
            f.cause == self.cause,
            f.graphs == self.graphs,
            f.message == self.message,
    {
        let mut f = self;
        f.lines = lines;
        f
    }

    /// The locus as rendered in text.
    pub fn subject_display(&self) -> (out: String)
        ensures
            out@ == subject_display_spec(self.subject@, self.lines@, opt_view(self.target)),
    {
        let mut out = String::new();
        push_one_line(&mut out, self.subject.as_str());
        if self.lines.len() > 0 {
            out.push(':');
            push_comma_numbers(&mut out, &self.lines);
        }
        match &self.target {
            Some(t) => {
                push_chars(&mut out, &[' ', '→', ' ']);
                push_one_line(&mut out, t.as_str());
            },
            None => {},
        }
        assert(out@ =~= subject_display_spec(self.subject@, self.lines@, opt_view(self.target)));
        out
    }

    /// The severity's text label.
    pub fn severity_label(&self) -> (out: String)
        ensures
            out@ == severity_label_spec(self.severity),
    {
        let mut out = String::new();
        match self.severity {
            RuleSeverity::Error => push_chars(&mut out, &['e', 'r', 'r', 'o', 'r']),
            RuleSeverity::Warn => push_chars(&mut out, &['w', 'a', 'r', 'n']),
            RuleSeverity::Off => push_chars(&mut out, &['o', 'f', 'f']),
        }
        assert(out@ =~= severity_label_spec(self.severity));
        out
    }

    /// `severity[name]: locus (message)`, with an indented `cause:` line beneath
    /// it when a cause is set.
    pub fn format_text(&self) -> (out: String)
        ensures
            out@ == finding_text_spec(*self),
    {
        let mut out = self.severity_label();
        out.push('[');
        push_all(&mut out, self.name.as_str());
        push_chars(&mut out, &[']', ':', ' ']);
        let locus = self.subject_display();
        push_all(&mut out, locus.as_str());
        push_chars(&mut out, &[' ', '(']);
        push_all(&mut out, self.message.as_str());
        out.push(')');
        match &self.cause {
            Some(c) => {
                push_chars(&mut out, &['\n', ' ', ' ', 'c', 'a', 'u', 's', 'e', ':', ' ']);
                push_one_line(&mut out, c.as_str());
            },
            None => {},
        }
        assert(out@ =~= finding_text_spec(*self));
        out
    }

    /// The coloured rendering: the plain rendering's facts wrapped in terminal
    /// escapes.
    pub fn format_text_color(&self) -> (out: String)
        ensures
            out@ == finding_color_spec(*self),
    {
        let mut out = String::new();
        match self.severity {
            RuleSeverity::Error => push_chars(&mut out, &['\x1b', '[', '1', ';', '3', '1', 'm']),
            RuleSeverity::Warn => push_chars(&mut out, &['\x1b', '[', '1', ';', '3', '3', 'm']),
            RuleSeverity::Off => push_chars(&mut out, &['\x1b', '[', '0', 'm']),
        }
        assert(out@ =~= severity_color_spec(self.severity));
        let label = self.severity_label();
        push_all(&mut out, label.as_str());
        push_chars(&mut out, &['\x1b', '[', '0', 'm', '[', '\x1b', '[', '1', 'm']);
        let ghost p1 = out@;
        assert(p1 =~= severity_color_spec(self.severity) + severity_label_spec(self.severity) + ansi_reset()
            + seq!['['] + ansi_bold());
        push_all(&mut out, self.name.as_str());
        push_chars(&mut out, &['\x1b', '[', '0', 'm', ']', ':', ' ', '\x1b', '[', '3', '6', 'm']);
        let ghost p2 = out@;
        assert(p2 =~= p1 + self.name@ + ansi_reset() + seq![']', ':', ' '] + ansi_cyan());
        let locus = self.subject_display();
        push_all(&mut out, locus.as_str());
        push_chars(&mut out, &['\x1b', '[', '0', 'm', ' ', '(']);
        let ghost p3 = out@;
        assert(p3 =~= p2 + locus@ + ansi_reset() + seq![' ', '(']);
        push_all(&mut out, self.message.as_str());
        out.push(')');
        let ghost head = out@;
        assert(head =~= p3 + self.message@ + seq![')']);
        match &self.cause {
            Some(c) => {
                push_chars(&mut out, &['\n', ' ', ' ', '\x1b', '[', '1', 'm', 'c', 'a', 'u', 's', 'e', '\x1b', '[', '0', 'm', ':', ' ']);
                let ghost p4 = out@;
                assert(p4 =~= head + seq!['\n', ' ', ' '] + ansi_bold() + seq!['c', 'a', 'u', 's', 'e']
                    + ansi_reset() + seq![':', ' ']);
                push_one_line(&mut out, c.as_str());
            },
            None => {},
        }
        assert(out@ =~= finding_color_spec(*self));
        out
    }
}

} // verus!
