use drft::config::RuleSeverity;
use drft::diagnostic::Finding;

#[test]
fn node_finding_has_no_arrow() {
    let f = Finding::warn("detached-node", "orphan.md", vec![], "no connections");
    assert_eq!(
        f.format_text(),
        "warn[detached-node]: orphan.md (no connections)"
    );
}

#[test]
fn edge_finding_with_lines_annotates_subject() {
    let f = Finding::warn("stale-edge", "README.md", vec![], "hash a ≠ locked b")
        .with_target("src/lib.rs")
        .with_lines(vec![12, 49]);
    assert_eq!(
        f.format_text(),
        "warn[stale-edge]: README.md:12,49 → src/lib.rs (hash a ≠ locked b)"
    );
    // The subject path stays bare; lines are a separate field.
    assert_eq!(f.subject, "README.md");
    assert_eq!(f.lines, vec![12, 49]);
}

#[test]
fn edge_finding_renders_arrow_and_target() {
    let f = Finding::warn("unresolved-edge", "index.md", vec![], "no defining node")
        .with_target("gone.md");
    assert_eq!(
        f.format_text(),
        "warn[unresolved-edge]: index.md → gone.md (no defining node)"
    );
    assert_eq!(f.subject, "index.md");
    assert_eq!(f.target.as_deref(), Some("gone.md"));
}

#[test]
fn a_node_findings_subject_stays_on_one_line() {
    let f = Finding::warn("detached-node", "we\nird.md", vec![], "no connections");
    assert_eq!(
        f.format_text(),
        "warn[detached-node]: we\\nird.md (no connections)"
    );
}

#[test]
fn an_edge_findings_subject_and_lines_stay_on_one_line() {
    let f = Finding::warn("unresolved-edge", "we\nird.md", vec![], "no defining node")
        .with_lines(vec![2])
        .with_target("t\nt.md");
    assert_eq!(
        f.format_text(),
        "warn[unresolved-edge]: we\\nird.md:2 → t\\nt.md (no defining node)"
    );
}

#[test]
fn a_cause_is_escaped_when_rendered_and_kept_raw_on_the_finding() {
    let f = Finding::warn("unresolved-edge", "a.md", vec![], "no defining node")
        .with_lines(vec![1])
        .with_target("docs/b.md")
        .with_cause("`we\nird.md` resolves from the graph root");
    let text = f.format_text();
    assert!(
        text.lines().count() == 2,
        "head plus one cause line: {text:?}"
    );
    assert!(text.contains("`we\\nird.md`"), "{text:?}");
    assert!(f.cause.as_deref().unwrap().contains('\n'));
    assert!(!f.cause.as_deref().unwrap().contains("\\n"));
}

#[test]
fn the_colour_renderer_escapes_everything_the_plain_one_does() {
    let f = Finding::warn("unresolved-edge", "we\nird.md", vec![], "no defining node")
        .with_lines(vec![2])
        .with_target("t\nt.md")
        .with_cause("`we\nird.md` resolves from the graph root");
    let colored = f.format_text_color();
    assert!(
        !colored.contains('\n') || colored.lines().count() == 2,
        "{colored:?}"
    );
    for fragment in ["we\\nird.md", "t\\nt.md"] {
        assert!(
            colored.contains(fragment),
            "missing {fragment}: {colored:?}"
        );
    }
    assert_eq!(colored.lines().count(), 2, "{colored:?}");
}

#[test]
fn a_finding_starts_as_a_warning_with_its_graphs() {
    let f = Finding::warn("stale-node", "src/graph.rs", vec!["@fs".to_string()], "hash b3:444 ≠ locked b3:222");
    assert_eq!(f.severity, RuleSeverity::Warn);
    assert_eq!(f.graphs, vec!["@fs".to_string()]);
    assert!(f.target.is_none());
    assert_eq!(f.severity_label(), "warn");
}

fn strip_escapes(s: &str) -> String {
    let mut out = String::new();
    let mut chars = s.chars().peekable();
    while let Some(c) = chars.next() {
        if c == '\x1b' && chars.peek() == Some(&'[') {
            chars.next();
            for d in chars.by_ref() {
                if d == 'm' {
                    break;
                }
            }
        } else {
            out.push(c);
        }
    }
    out
}

#[test]
fn stripping_the_colour_gives_the_plain_finding_back() {
    let findings = [
        Finding::warn("unresolved-edge", "we\nird.md", vec![], "no defining node")
            .with_lines(vec![2, 14])
            .with_target("t\nt.md")
            .with_cause("`we\nird.md` resolves from the graph root"),
        Finding::warn("orphan-node", "a.md", vec!["docs".to_string()], "no edges"),
        Finding::warn("stale", "b.md", vec![], "changed").with_target("c.md"),
    ];
    for f in findings {
        let colored = f.format_text_color();
        assert!(colored.starts_with("\x1b["));
        assert!(!f.format_text().contains('\x1b'));
        assert_eq!(strip_escapes(&colored), f.format_text());
    }
}
