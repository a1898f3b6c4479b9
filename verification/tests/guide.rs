use drft::cli::{Commands, Depth, Direction};
use drft::guide::{check_guide_coverage, operational};

#[test]
fn check_is_the_only_command_with_the_violations_status() {
    let check = operational(&Commands::Check, "drft check --format json");
    assert_eq!(check.role, "gate");
    assert_eq!(check.exit_codes, vec![0, 1, 2]);
    assert_eq!(check.reads, vec!["composed-graph", "configuration", "drft.lock"]);
    let doc = check.success_document.unwrap();
    assert_eq!(doc.kind, "check-result");
    assert_eq!(doc.fields, vec!["diagnostics", "summary", "hints"]);
    let init = operational(&Commands::Init, "drft init");
    assert_eq!(init.exit_codes, vec![0, 2]);
    assert_eq!(init.writes, vec!["drft.toml"]);
    assert!(init.reads.is_empty());
    assert!(init.success_document.is_none());
}

#[test]
fn read_commands_with_large_output_are_guarded() {
    let nodes = operational(
        &Commands::Nodes { selectors: vec![], namespaces: vec![], fields: vec![] },
        "drft nodes docs/",
    );
    assert_eq!(nodes.role, "project-nodes");
    assert!(nodes.output_guard.is_some());
    let names: Vec<&str> = nodes.controls.iter().map(|c| c.argument).collect();
    assert_eq!(names, vec!["all", "namespaces", "fields", "max_bytes"]);
    assert_eq!(nodes.boundary.last().copied(), Some("The output byte guard refuses atomically before stdout."));
    let edges = operational(
        &Commands::Edges { selectors: vec![], namespaces: vec![], fields: vec![] },
        "drft edges docs/",
    );
    assert!(edges.boundary.contains(&"Selectors match edge sources, not targets."));
    let impact = operational(
        &Commands::Impact { paths: vec![], depth: Depth::Hops(1), direction: Direction::Inbound },
        "drft impact a.md",
    );
    assert_eq!(impact.operands[0].argument, "paths");
    assert!(impact.output_guard.is_some());
    let lock = operational(&Commands::Lock { paths: vec![] }, "drft lock a.md");
    assert!(lock.output_guard.is_none());
    assert_eq!(lock.capability, "write-baseline");
    let guide = operational(&Commands::Guide, "drft guide");
    assert_eq!(guide.example, "drft guide");
    assert!(guide.controls.is_empty());
    let config = operational(&Commands::Config { show_ignores: true }, "drft config --show-ignores");
    assert_eq!(config.controls[0].argument, "show_ignores");
}

#[test]
fn the_guide_covers_every_visible_command_exactly_once() {
    let v = |xs: &[&str]| xs.iter().map(|s| s.to_string()).collect::<Vec<String>>();
    assert!(check_guide_coverage(&v(&["init", "check"]), &v(&["check", "init"])).is_ok());
    let missing = check_guide_coverage(&v(&["init"]), &v(&["check", "init"])).unwrap_err();
    assert_eq!(missing, "guide operational records must cover every visible command exactly once");
    assert!(check_guide_coverage(&v(&["init", "init", "check"]), &v(&["check", "init"])).is_err());
    assert!(check_guide_coverage(&v(&["init", "future"]), &v(&["init"])).is_err());
}
