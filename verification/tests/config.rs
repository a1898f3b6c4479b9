use drft::config::{compile_globs, default_warn, is_builtin_rule, Config, RawConfig, RawGraph, RawRuleValue, RawRules, RuleSeverity};
use drft::paths::hash_bytes;

fn graph(parser: &str, files: Option<Vec<&str>>, edge_keys: Option<Vec<&str>>) -> RawGraph {
    RawGraph {
        files: files.map(|f| f.into_iter().map(String::from).collect()),
        parser: parser.to_string(),
        edge_keys: edge_keys.map(|k| k.into_iter().map(String::from).collect()),
    }
}

fn with_graphs(graphs: Vec<(&str, RawGraph)>) -> RawConfig {
    RawConfig {
        ignore: None,
        graphs: Some(graphs.into_iter().map(|(n, g)| (n.to_string(), g)).collect()),
        rules: None,
        usage_enabled: false,
    }
}

fn with_rules(ignore: Vec<&str>, rules: Vec<(&str, RawRuleValue)>) -> RawConfig {
    RawConfig {
        ignore: None,
        graphs: None,
        rules: Some(RawRules {
            ignore: ignore.into_iter().map(String::from).collect(),
            rules: rules.into_iter().map(|(n, v)| (n.to_string(), v)).collect(),
        }),
        usage_enabled: false,
    }
}

fn table(severity: RuleSeverity, ignore: Vec<&str>, unknown: Vec<&str>) -> RawRuleValue {
    RawRuleValue::Table {
        severity,
        ignore: ignore.into_iter().map(String::from).collect(),
        unknown: unknown.into_iter().map(String::from).collect(),
    }
}

fn load(raw: &RawConfig) -> Result<Config, String> {
    Config::from_raw(raw, "/repo", "")
}

#[test]
fn defaults_have_no_graphs() {
    assert!(Config::defaults().graphs.is_empty());
    assert!(!Config::defaults().usage_enabled);
    assert!(Config::defaults().usage_config_fingerprint.is_none());
}

#[test]
fn usage_is_disabled_when_setting_is_absent_or_false() {
    let config = load(&with_graphs(vec![])).unwrap();
    assert!(!config.usage_enabled);
    assert!(config.usage_config_fingerprint.is_none());
}

#[test]
fn usage_enabled_fingerprints_exact_config_bytes() {
    let contents = "# opt in\r\n[experimental.usage]\r\nenabled = true\r\n \r\n";
    let mut raw = with_graphs(vec![]);
    raw.usage_enabled = true;
    let config = Config::from_raw(&raw, "/repo", contents).unwrap();
    assert!(config.usage_enabled);
    assert_eq!(config.usage_config_fingerprint, Some(format!("b3:{}", blake3::hash(contents.as_bytes()).to_hex())));
    assert_eq!(config.usage_config_fingerprint, Some(hash_bytes(contents.as_bytes())));
}

#[test]
fn invalid_config_cannot_return_enabled_config() {
    let mut raw = with_graphs(vec![("bad", graph("unknown", None, None))]);
    raw.usage_enabled = true;
    assert!(load(&raw).is_err());
}

#[test]
fn loads_ignore() {
    let mut raw = with_graphs(vec![]);
    raw.ignore = Some(vec!["target/**".to_string()]);
    let config = load(&raw).unwrap();
    assert_eq!(config.ignore, vec!["target/**"]);
    assert_eq!(config.ignore_patterns(), &["target/**".to_string()]);
}

#[test]
fn declares_graphs() {
    let config = load(&with_graphs(vec![("docs", graph("markdown", Some(vec!["docs/**/*.md"]), None))])).unwrap();
    assert_eq!(config.graphs.len(), 1);
    assert_eq!(config.graphs[0].0, "docs");
    assert_eq!(config.graphs[0].1.parser, "markdown");
    assert_eq!(config.graphs[0].1.files, vec!["docs/**/*.md"]);
    assert_eq!(config.config_dir.as_deref(), Some("/repo"));
}

#[test]
fn files_defaults_to_markdown_when_omitted() {
    let config = load(&with_graphs(vec![("markdown", graph("markdown", None, None))])).unwrap();
    assert_eq!(config.graphs[0].1.files, vec!["**/*.md"]);
}

#[test]
fn unknown_parser_errors() {
    let err = load(&with_graphs(vec![("x", graph("markdwn", None, None))])).unwrap_err();
    assert!(err.contains("unknown parser"), "got: {err}");
    assert_eq!(err, "unknown parser \"markdwn\" for graph \"x\" (known: markdown, frontmatter)");
}

#[test]
fn parser_fs_value_errors() {
    assert!(load(&with_graphs(vec![("x", graph("fs", None, None))])).is_err());
}

#[test]
fn reserved_graph_name_fs_errors() {
    let err = load(&with_graphs(vec![("fs", graph("markdown", None, None))])).unwrap_err();
    assert!(err.contains("reserved"), "got: {err}");
    assert_eq!(err, "graph name \"fs\" is reserved (the implicit base graph)");
}

#[test]
fn invalid_graph_name_errors() {
    let err = load(&with_graphs(vec![("_internal", graph("markdown", None, None))])).unwrap_err();
    assert_eq!(
        err,
        "invalid graph name in .drft/config.toml: graph label '_internal' must not contain '@' or start with '_'"
    );
}

#[test]
fn the_first_refused_graph_is_the_one_reported() {
    let raw = with_graphs(vec![
        ("a", graph("markdown", None, None)),
        ("b", graph("nope", None, None)),
        ("fs", graph("markdown", None, None)),
    ]);
    assert_eq!(load(&raw).unwrap_err(), "unknown parser \"nope\" for graph \"b\" (known: markdown, frontmatter)");
}

#[test]
fn loads_rule_severity_and_ignore() {
    let raw = with_rules(
        vec![],
        vec![
            ("stale-node", RawRuleValue::Severity(RuleSeverity::Error)),
            ("detached-node", table(RuleSeverity::Warn, vec!["README.md"], vec![])),
        ],
    );
    let config = load(&raw).unwrap();
    assert_eq!(config.rules[0].0, "stale-node");
    assert_eq!(config.rules[0].1.severity, RuleSeverity::Error);
    assert!(config.is_rule_ignored("detached-node", "README.md"));
    assert!(!config.is_rule_ignored("detached-node", "other.md"));
}

#[test]
fn global_rule_ignore_applies_to_every_rule() {
    let raw = with_rules(vec!["vendor/**"], vec![("stale-node", table(RuleSeverity::Error, vec![], vec![]))]);
    let config = load(&raw).unwrap();
    assert_eq!(config.rules[0].1.severity, RuleSeverity::Error);
    assert!(config.is_rule_ignored("stale-node", "vendor/x.md"));
    assert!(config.is_rule_ignored("unresolved-edge", "vendor/x.md"));
    assert!(!config.is_rule_ignored("stale-node", "yours.md"));
}

#[test]
fn frontmatter_graph_accepts_edge_keys() {
    let config = load(&with_graphs(vec![("fm", graph("frontmatter", None, Some(vec!["sources"])))])).unwrap();
    assert_eq!(config.graphs[0].1.edge_keys, vec!["sources".to_string()]);
}

#[test]
fn declaring_edge_keys_raises_no_hint() {
    let config = load(&with_graphs(vec![("fm", graph("frontmatter", None, Some(vec!["sources"])))])).unwrap();
    assert!(config.hints.is_empty());
}

#[test]
fn omitting_edge_keys_is_a_metadata_only_graph() {
    let config = load(&with_graphs(vec![("fm", graph("frontmatter", None, None))])).unwrap();
    assert!(config.graphs[0].1.edge_keys.is_empty());
    assert!(config.hints.is_empty());
}

#[test]
fn edge_keys_on_markdown_parser_errors() {
    let err = load(&with_graphs(vec![("md", graph("markdown", None, Some(vec!["sources"])))])).unwrap_err();
    assert!(err.contains("not supported by the \"markdown\" parser"), "got: {err}");
    assert_eq!(err, "`edge_keys` is not supported by the \"markdown\" parser in graph \"md\" (supported: frontmatter)");
}

#[test]
fn empty_edge_keys_is_the_same_state_as_omitting_it() {
    let config = load(&with_graphs(vec![("fm", graph("frontmatter", None, Some(vec![])))])).unwrap();
    assert!(config.graphs[0].1.edge_keys.is_empty());
    assert!(config.hints.is_empty());
}

#[test]
fn unknown_rule_table_key_errors() {
    let raw = with_rules(vec![], vec![("stale-node", table(RuleSeverity::Warn, vec![], vec!["severty"]))]);
    let err = load(&raw).unwrap_err();
    assert!(err.contains("unknown field `severty`"), "got: {err}");
    assert!(err.contains("rules.stale-node"), "got: {err}");
    assert_eq!(
        err,
        "failed to parse /repo/.drft/config.toml: unknown field `severty` in rules.stale-node, expected `severity` or `ignore`"
    );
}

#[test]
fn known_rule_table_keys_still_parse() {
    let raw = with_rules(vec![], vec![("detached-node", table(RuleSeverity::Error, vec!["README.md"], vec![]))]);
    let config = load(&raw).unwrap();
    assert_eq!(config.rules[0].1.severity, RuleSeverity::Error);
    assert!(config.is_rule_ignored("detached-node", "README.md"));
}

#[test]
fn unknown_rule_name_becomes_a_hint_on_the_config() {
    let raw = with_rules(vec![], vec![("stale-nodes", RawRuleValue::Severity(RuleSeverity::Error))]);
    let config = load(&raw).unwrap();
    assert!(config.rules.iter().any(|(name, _)| name == "stale-nodes"));
    let hint = config.hints.first().expect("expected a hint");
    assert_eq!(hint.name, "unknown-rule");
    assert_eq!(hint.locus.as_deref(), Some("rules.stale-nodes"));
    assert_eq!(hint.message, "not a built-in rule, so this severity configures nothing");
    assert_eq!(
        hint.next.as_deref(),
        Some(
            "correct the spelling or remove it — built-in rules are stale-node, stale-edge, new-edge, removed-edge, removed-node, unresolved-edge, unresolved-fragment, detached-node, unlocked-node, no-baseline, unreadable-frontmatter, unreadable-text"
        )
    );
}

#[test]
fn a_valid_config_raises_no_hints() {
    let raw = with_rules(vec![], vec![("stale-node", RawRuleValue::Severity(RuleSeverity::Error))]);
    assert!(load(&raw).unwrap().hints.is_empty());
}

#[test]
fn a_bad_rule_glob_refuses_the_config() {
    let raw = with_rules(vec![], vec![("stale-node", table(RuleSeverity::Warn, vec!["a[b"], vec![]))]);
    let err = load(&raw).unwrap_err();
    assert!(err.starts_with("invalid globs in rules.stale-node: failed to compile ignore globs: "), "got: {err}");
    let raw = with_rules(vec!["a[b"], vec![]);
    assert!(load(&raw).unwrap_err().starts_with("failed to compile [rules].ignore globs: "));
}

#[test]
fn compile_globs_is_none_without_patterns() {
    assert!(matches!(compile_globs(&vec![]), Ok(None)));
    let set = compile_globs(&vec!["docs/*.md".to_string()]).unwrap().unwrap();
    assert!(set.is_match("docs/a.md"));
    assert!(!set.is_match("docs/sub/a.md"));
    let deep = compile_globs(&vec!["**/*.md".to_string()]).unwrap().unwrap();
    assert!(deep.is_match("docs/sub/a.md"));
    assert!(compile_globs(&vec!["a[b".to_string()]).is_err());
}

#[test]
fn anchor_namespaces_name_only_markdown_graphs() {
    let raw = with_graphs(vec![
        ("docs", graph("markdown", None, None)),
        ("fm", graph("frontmatter", None, None)),
        ("notes", graph("markdown", None, None)),
    ]);
    assert_eq!(load(&raw).unwrap().anchor_namespaces(), vec!["@docs".to_string(), "@notes".to_string()]);
}

#[test]
fn builtin_rules_are_recognized() {
    assert!(is_builtin_rule("stale-node"));
    assert!(is_builtin_rule("unreadable-text"));
    assert!(!is_builtin_rule("stale-nodes"));
    assert_eq!(default_warn(), RuleSeverity::Warn);
}
