use drft::analyses::change_propagation::{ChangePropagationResult, DirectChange, TransitiveStale};
use drft::config::{Config, RawConfig, RawRuleValue, RawRules, RuleSeverity};
use drft::diagnostic::Finding;
use drft::graph::{Edge, Graph, Node, NodeType};
use drft::lockfile::{Lockfile, LockfileNode};
use drft::policy::{check_status, ExitStatus};
use drft::rules::{check_findings, impact_diagnostics};

fn file(path: &str) -> Node {
    Node { path: path.into(), node_type: Some(NodeType::File), included: true, hash: Some("b3:x".into()) }
}

fn edge(s: &str, t: &str, lines: Vec<usize>) -> Edge {
    Edge { source: s.into(), target: t.into(), link: None, parser: "@markdown".into(), lines }
}

/// a -> b -> c, a -> ghost (included, untyped), and a lone d.
fn project() -> Graph {
    let mut g = Graph::new();
    for p in ["a.md", "b.md", "c.md", "d.md"] {
        g.add_node(file(p));
    }
    g.add_node(Node { path: "ghost.md".into(), node_type: None, included: true, hash: None });
    g.add_edge(edge("a.md", "b.md", vec![3]));
    g.add_edge(edge("b.md", "c.md", vec![7, 9]));
    g.add_edge(edge("a.md", "ghost.md", vec![5]));
    g
}

fn lock(paths: &[&str]) -> Lockfile {
    Lockfile {
        lockfile_version: 2,
        nodes: paths.iter().map(|p| (p.to_string(), LockfileNode { hash: Some("b3:x".into()) })).collect(),
    }
}

fn propagation() -> ChangePropagationResult {
    ChangePropagationResult {
        has_lockfile: true,
        directly_changed: vec![
            DirectChange { node: "c.md".into(), reason: "content changed".into() },
            DirectChange { node: "gone.md".into(), reason: "file deleted".into() },
        ],
        transitively_stale: vec![TransitiveStale { node: "b.md".into(), via: "c.md".into() }],
    }
}

fn config(rules: Vec<(&str, RawRuleValue)>, ignore: Vec<&str>) -> Config {
    let raw = RawConfig {
        ignore: None,
        graphs: None,
        rules: Some(RawRules {
            ignore: ignore.into_iter().map(String::from).collect(),
            rules: rules.into_iter().map(|(n, v)| (n.to_string(), v)).collect(),
        }),
        usage_enabled: false,
    };
    Config::from_raw(&raw, "/repo", "").unwrap()
}

fn names(fs: &[Finding]) -> Vec<(String, String)> {
    fs.iter().map(|f| (f.name.clone(), f.subject.clone())).collect()
}

#[test]
fn every_rule_reports_at_warn_by_default() {
    let g = project();
    let l = lock(&["a.md", "b.md", "c.md", "gone.md"]);
    let fs = check_findings(&g, &propagation(), Some(&l), &config(vec![], vec![]), &vec![]);
    let got = names(&fs);
    let want: Vec<(String, String)> = [
        ("stale-node", "c.md"),
        ("stale-edge", "b.md"),
        ("unresolved-edge", "a.md"),
        ("removed-node", "gone.md"),
        ("detached-node", "d.md"),
        ("detached-node", "ghost.md"),
    ]
    .iter()
    .map(|(a, b)| (a.to_string(), b.to_string()))
    .collect();
    // ghost.md is the target of an edge, so it is not detached.
    let want: Vec<(String, String)> = want.into_iter().filter(|(_, s)| s != "ghost.md").collect();
    assert_eq!(got, want);
    assert!(fs.iter().all(|f| f.severity == RuleSeverity::Warn));
    assert_eq!(fs[1].target.as_deref(), Some("c.md"));
    assert_eq!(fs[1].lines, vec![7, 9]);
    assert_eq!(fs[2].target.as_deref(), Some("ghost.md"));
    assert_eq!(fs[2].lines, vec![5]);
    assert_eq!(check_status(&fs), ExitStatus::Success);
}

#[test]
fn an_error_rule_gates_and_off_or_ignored_rules_say_nothing() {
    let g = project();
    let l = lock(&["a.md", "b.md", "c.md", "gone.md"]);
    let cfg = config(
        vec![
            ("stale-node", RawRuleValue::Severity(RuleSeverity::Error)),
            ("detached-node", RawRuleValue::Severity(RuleSeverity::Off)),
            (
                "removed-node",
                RawRuleValue::Table { severity: RuleSeverity::Warn, ignore: vec!["gone.md".into()], unknown: vec![] },
            ),
        ],
        vec!["a.md"],
    );
    let fs = check_findings(&g, &propagation(), Some(&l), &cfg, &vec![]);
    assert_eq!(
        names(&fs),
        vec![("stale-node".to_string(), "c.md".to_string()), ("stale-edge".to_string(), "b.md".to_string())]
    );
    assert_eq!(fs[0].severity, RuleSeverity::Error);
    assert_eq!(check_status(&fs), ExitStatus::Violations);
}

#[test]
fn no_lock_is_a_finding_and_build_findings_pass_through_the_rules() {
    let g = project();
    let none = ChangePropagationResult { has_lockfile: false, directly_changed: vec![], transitively_stale: vec![] };
    let build = vec![Finding::warn("unreadable-text", "bin.md", vec!["@markdown".into()], "not UTF-8")];
    let cfg = config(vec![("unreadable-text", RawRuleValue::Severity(RuleSeverity::Error))], vec![]);
    let fs = check_findings(&g, &none, None, &cfg, &build);
    assert_eq!(fs[0].name, "no-baseline");
    assert_eq!(fs[0].message, "no lock file yet, so drift cannot be measured");
    let last = fs.last().unwrap();
    assert_eq!(last.name, "unreadable-text");
    assert_eq!(last.severity, RuleSeverity::Error);
    let empty = lock(&[]);
    let fs = check_findings(&g, &none, Some(&empty), &config(vec![("no-baseline", RawRuleValue::Severity(RuleSeverity::Off))], vec![]), &vec![]);
    assert!(fs.iter().all(|f| f.name != "no-baseline"));
}

#[test]
fn impact_reports_construction_findings_broken_links_and_removed_nodes() {
    let g = project();
    let l = lock(&["a.md", "gone.md"]);
    let build = vec![Finding::warn("unreadable-text", "bin.md", vec![], "not UTF-8")];
    let fs = impact_diagnostics(&g, Some(&l), &config(vec![], vec![]), &build);
    assert_eq!(
        names(&fs),
        vec![
            ("unreadable-text".to_string(), "bin.md".to_string()),
            ("unresolved-edge".to_string(), "a.md".to_string()),
            ("removed-node".to_string(), "gone.md".to_string()),
        ]
    );
    let quiet = config(vec![("unresolved-edge", RawRuleValue::Severity(RuleSeverity::Off))], vec![]);
    assert_eq!(impact_diagnostics(&g, None, &quiet, &vec![]).len(), 0);
}
