use drft::commands::resolve_selectors;
use drft::commands::{has_glob_meta, large_projection_hint, lock_report, not_found_message, resolve_namespaces, LARGE_PROJECTION_BYTES};
use drft::builders::{link_edges, occurrence, LinkEdge, LinkPolicy, Occurrence};
use drft::cli::OutputFormat;
use drft::config::RuleSeverity;
use drft::diagnostic::Finding;
use drft::graph::{Edge, Graph, Node, NodeType};
use drft::impact::{compute, lines_suffix, Direction};
use drft::layout::{reject_legacy, LayoutState, StateDirKind};
use drft::lockfile::{check_lock_request, lock_all, lock_paths, lookup, refuse_directory_lock, resolve_lock_paths, scoped_lock_changed, scoped_lock_hints, Lockfile, LockfileNode};
use drft::parsers::Link;
use drft::policy::{check_status, output_guard, ExitStatus, OutputMode, ResultShape};

fn make_node(path: &str) -> Node {
    Node { path: path.into(), node_type: Some(NodeType::File), included: true, hash: Some("b3:x".into()) }
}

fn graph_from(edges: &[(&str, &str)]) -> Graph {
    let mut g = Graph::new();
    for (s, t) in edges {
        g.add_node(make_node(s));
        g.add_node(make_node(t));
    }
    for (s, t) in edges {
        g.add_edge(Edge { source: (*s).into(), target: (*t).into(), link: None, parser: "fs".into(), lines: vec![] });
    }
    g
}

fn link(target: &str, line: Option<usize>) -> Link {
    Link { target: target.into(), line }
}

// impact

#[test]
fn inbound_finds_transitive_dependents() {
    let graph = graph_from(&[("a.md", "b.md"), ("b.md", "c.md")]);
    let impacted = compute(&graph, &vec!["c.md".to_string()], Direction::Inbound, None);
    let nodes: Vec<&str> = impacted.iter().map(|i| i.node.as_str()).collect();
    assert!(nodes.contains(&"b.md"));
    assert!(nodes.contains(&"a.md"));
    let b = impacted.iter().find(|i| i.node == "b.md").unwrap();
    assert_eq!(b.depth, 1);
    assert_eq!(b.via, "c.md");
    let a = impacted.iter().find(|i| i.node == "a.md").unwrap();
    assert_eq!(a.depth, 2);
}

#[test]
fn inbound_surfaces_link_lines() {
    let mut g = Graph::new();
    g.add_node(make_node("dependent.md"));
    g.add_node(make_node("dep.md"));
    g.add_edge(Edge {
        source: "dependent.md".into(),
        target: "dep.md".into(),
        link: None,
        parser: "markdown".into(),
        lines: vec![12, 49],
    });
    let inbound = compute(&g, &vec!["dep.md".to_string()], Direction::Inbound, None);
    let d = inbound.iter().find(|i| i.node == "dependent.md").unwrap();
    assert_eq!(d.lines, vec![12, 49], "sorted, deduped");
    assert_eq!(d.location(), "dependent.md:12,49");
    assert!(d.fix.contains("review dependent.md:12,49"), "got: {}", d.fix);
    let outbound = compute(&g, &vec!["dependent.md".to_string()], Direction::Outbound, None);
    let dep = outbound.iter().find(|i| i.node == "dep.md").unwrap();
    assert!(dep.lines.is_empty());
}

#[test]
fn cycle_terminates() {
    let graph = graph_from(&[("a.md", "b.md"), ("b.md", "c.md"), ("c.md", "a.md")]);
    let impacted = compute(&graph, &vec!["a.md".to_string()], Direction::Inbound, None);
    let nodes: Vec<&str> = impacted.iter().map(|i| i.node.as_str()).collect();
    assert_eq!(nodes.len(), 2, "seed excluded, others reached once");
    assert!(nodes.contains(&"b.md") && nodes.contains(&"c.md"));
}

#[test]
fn depth_limit_truncates() {
    let graph = graph_from(&[("a.md", "b.md"), ("b.md", "c.md")]);
    let impacted = compute(&graph, &vec!["c.md".to_string()], Direction::Inbound, Some(1));
    let nodes: Vec<&str> = impacted.iter().map(|i| i.node.as_str()).collect();
    assert_eq!(nodes, vec!["b.md"], "depth 1 stops before a.md");
}

#[test]
fn outbound_finds_dependencies() {
    let graph = graph_from(&[("a.md", "b.md"), ("b.md", "c.md")]);
    let impacted = compute(&graph, &vec!["a.md".to_string()], Direction::Outbound, None);
    let nodes: Vec<&str> = impacted.iter().map(|i| i.node.as_str()).collect();
    assert!(nodes.contains(&"b.md") && nodes.contains(&"c.md"));
}

#[test]
fn radius_counts_transitive_dependents() {
    let graph = graph_from(&[("a.md", "b.md"), ("b.md", "c.md")]);
    let impacted = compute(&graph, &vec!["c.md".to_string()], Direction::Inbound, None);
    let b = impacted.iter().find(|i| i.node == "b.md").unwrap();
    assert_eq!(b.impact_radius, 1);
}

#[test]
fn the_fix_names_the_neighbour_and_the_node() {
    let graph = graph_from(&[("a.md", "b.md")]);
    let impacted = compute(&graph, &vec!["b.md".to_string(), "nowhere.md".to_string()], Direction::Both, None);
    assert_eq!(impacted.len(), 1);
    assert_eq!(
        impacted[0].fix,
        "b.md may change — review a.md to ensure it still accurately reflects b.md"
    );
    assert_eq!(lines_suffix(&vec![]), "");
    assert_eq!(lines_suffix(&vec![3, 10]), ":3,10");
    let none = compute(&graph, &vec!["b.md".to_string()], Direction::Inbound, Some(0));
    assert!(none.is_empty());
}

// lockfile

fn lock_graph() -> Graph {
    let mut g = Graph::new();
    g.add_node(Node { path: "index.md".into(), node_type: Some(NodeType::File), included: true, hash: Some("b3:aaa".into()) });
    g.add_node(Node { path: "setup.md".into(), node_type: Some(NodeType::File), included: true, hash: Some("b3:bbb".into()) });
    g
}

#[test]
fn from_graph_produces_sorted_nodes() {
    let lf = Lockfile::from_graph(&lock_graph());
    let keys: Vec<&String> = lf.nodes.iter().map(|(k, _)| k).collect();
    assert_eq!(keys, vec!["index.md", "setup.md"]);
}

#[test]
fn only_included_nodes_are_locked() {
    let mut g = lock_graph();
    g.add_node(Node { path: "https://x.org".into(), node_type: Some(NodeType::Uri), included: false, hash: None });
    let lf = Lockfile::from_graph(&g);
    assert_eq!(lf.lockfile_version, 2);
    assert_eq!(lf.nodes.len(), 2);
    assert_eq!(lf.nodes[1].1.hash.as_deref(), Some("b3:bbb"));
}

fn lock_of(entries: &[(&str, &str)]) -> Lockfile {
    let mut l = Lockfile { lockfile_version: 2, nodes: Vec::new() };
    for (p, h) in entries {
        l.set(p.to_string(), LockfileNode { hash: Some(h.to_string()) });
    }
    l
}

#[test]
fn a_scoped_lock_changes_only_the_named_entries() {
    let existing = lock_of(&[("a.md", "b3:old-a"), ("b.md", "b3:old-b"), ("gone.md", "b3:old-g")]);
    let snapshot = lock_of(&[("a.md", "b3:new-a"), ("b.md", "b3:new-b"), ("c.md", "b3:new-c")]);
    let named = vec!["a.md".to_string(), "gone.md".to_string(), "a.md".to_string(), "c.md".to_string()];
    let out = lock_paths(existing, &snapshot, &named);
    assert_eq!(out.locked, vec!["a.md", "c.md"]);
    assert_eq!(out.dropped, vec!["gone.md"]);
    assert_eq!(lookup(&out.lock, "a.md").unwrap().hash.as_deref(), Some("b3:new-a"));
    assert_eq!(lookup(&out.lock, "b.md").unwrap().hash.as_deref(), Some("b3:old-b"));
    assert_eq!(lookup(&out.lock, "c.md").unwrap().hash.as_deref(), Some("b3:new-c"));
    assert!(lookup(&out.lock, "gone.md").is_none());
    let keys: Vec<&str> = out.lock.nodes.iter().map(|(k, _)| k.as_str()).collect();
    assert_eq!(keys, vec!["a.md", "b.md", "c.md"]);
}

#[test]
fn a_full_lock_rebuilds_and_reports_what_it_dropped() {
    let existing = lock_of(&[("a.md", "b3:1"), ("old.md", "b3:2")]);
    let snapshot = lock_of(&[("a.md", "b3:3"), ("b.md", "b3:4")]);
    let (out, write) = lock_all(Some(&existing), snapshot.clone(), true);
    assert_eq!(out.lock, snapshot);
    assert_eq!(out.locked, vec!["a.md", "b.md"]);
    assert_eq!(out.dropped, vec!["old.md"]);
    assert!(write);
    let empty = Lockfile { lockfile_version: 2, nodes: Vec::new() };
    let (_, write) = lock_all(None, empty, false);
    assert!(!write, "nothing to record and no lock file: nothing is written");
}

#[test]
fn a_lock_request_names_paths_or_all_but_not_both() {
    assert!(check_lock_request(2, false).is_ok());
    assert!(check_lock_request(0, true).is_ok());
    assert!(check_lock_request(0, false).unwrap_err().starts_with("no paths given"));
    assert!(check_lock_request(1, true).unwrap_err().starts_with("`--all` locks every node"));
}

#[test]
fn removing_an_entry_reports_whether_it_was_there() {
    let mut l = lock_of(&[("a.md", "b3:1")]);
    assert!(l.remove("a.md"));
    assert!(!l.remove("a.md"));
    assert!(!l.contains("a.md"));
}

// layout

#[test]
fn current_layout_is_accepted() {
    let s = LayoutState { current_config: true, current_lock: true, legacy_config: false, legacy_lock: false };
    reject_legacy(StateDirKind::Directory, s).unwrap();
}

#[test]
fn legacy_files_are_all_named_in_one_migration_error() {
    let s = LayoutState { current_config: false, current_lock: false, legacy_config: true, legacy_lock: true };
    let error = reject_legacy(StateDirKind::Directory, s).unwrap_err();
    assert!(error.contains("`drft.toml` to `.drft/config.toml`"));
    assert!(error.contains("`drft.lock` to `.drft/lock.toml`"));
    assert!(error.contains("did not modify"));
}

#[test]
fn coexistence_reports_every_conflict() {
    let s = LayoutState { current_config: true, current_lock: true, legacy_config: true, legacy_lock: true };
    let error = reject_legacy(StateDirKind::Directory, s).unwrap_err();
    assert!(error.contains("both `drft.toml` and `.drft/config.toml` exist"));
    assert!(error.contains("both `drft.lock` and `.drft/lock.toml` exist"));
}

#[test]
fn a_lone_legacy_lock_names_one_step() {
    let s = LayoutState { current_config: false, current_lock: false, legacy_config: false, legacy_lock: true };
    assert_eq!(
        reject_legacy(StateDirKind::Directory, s).unwrap_err(),
        "legacy drft project files require manual migration:\n- move `drft.lock` to `.drft/lock.toml` (create `.drft` first)\ndrft did not modify any files; rerun the command after resolving every item"
    );
}

#[test]
fn an_unsafe_state_directory_is_refused_before_any_legacy_file() {
    let s = LayoutState { current_config: false, current_lock: false, legacy_config: true, legacy_lock: false };
    let error = reject_legacy(StateDirKind::Other, s).unwrap_err();
    assert!(error.starts_with("unsafe drft state path"));
    let clean = LayoutState { current_config: false, current_lock: false, legacy_config: false, legacy_lock: false };
    assert!(reject_legacy(StateDirKind::Other, clean).is_err());
    assert!(reject_legacy(StateDirKind::Absent, clean).is_ok());
}

// policy

#[test]
fn warnings_do_not_gate_but_errors_do() {
    let mut finding = Finding::warn("test", "a", vec![], "test");
    assert_eq!(check_status(&vec![]).code(), 0);
    assert_eq!(check_status(&vec![finding.clone()]).code(), 0);
    finding.severity = RuleSeverity::Error;
    assert_eq!(check_status(&vec![finding]).code(), 1);
    assert_eq!(ExitStatus::Failure.code(), 2);
}

#[test]
fn output_policies_follow_the_mode() {
    let guard = output_guard();
    assert!(!guard.truncates);
    assert_eq!(guard.failure_exit, 2);
    assert!(guard.exceeds(11, Some(10)));
    assert!(!guard.exceeds(10, Some(10)));
    assert!(!guard.exceeds(usize::MAX, None));
    assert!(OutputMode::RawGraphSet.is_json(OutputFormat::Text));
    assert!(!OutputMode::Envelope.is_json(OutputFormat::Text));
    assert!(!OutputMode::Envelope.allows_color(OutputFormat::Json));
    assert!(OutputMode::Envelope.embeds_hints());
    assert_eq!(OutputMode::Silent.document(), None);
    assert_eq!(OutputMode::BareJgf.document(), Some("bare-jgf"));
    assert_eq!(ResultShape::Check.fields(), vec!["diagnostics", "summary", "hints"]);
    assert_eq!(ResultShape::Impact.fields(), vec!["seeds", "total", "impacted", "diagnostics", "hints"]);
    assert!(ExitStatus::Violations.meaning().starts_with("check found"));
}

// occurrences

/// The single edge `link_edges` produces for one link.
fn one(source: &str, target: &str) -> Option<LinkEdge> {
    link_edges(source, &vec![link(target, Some(1))], LinkPolicy::Body).pop()
}

fn occ(line: Option<usize>, link: Option<&str>, raw: Option<&str>) -> Occurrence {
    Occurrence { line, link: link.map(String::from), raw: raw.map(String::from) }
}

#[test]
fn resolves_relative_target() {
    let edge = one("docs/guide.md", "setup.md").unwrap();
    assert_eq!(edge.source, "docs/guide.md");
    assert_eq!(edge.target, "docs/setup.md");
    assert_eq!(edge.occurrences, vec![occ(Some(1), None, Some("setup.md"))]);
}

#[test]
fn no_raw_metadata_when_resolution_is_identity() {
    let edge = one("guide.md", "setup.md").unwrap();
    assert_eq!(edge.target, "setup.md");
    assert_eq!(edge.occurrences, vec![occ(Some(1), None, None)]);
}

#[test]
fn strips_fragment_into_link_metadata() {
    let edge = one("a.md", "b.md#heading").unwrap();
    assert_eq!(edge.target, "b.md");
    assert_eq!(edge.occurrences, vec![occ(Some(1), Some("b.md#heading"), None)]);
}

#[test]
fn passes_through_uris() {
    let edge = one("a.md", "https://example.com/x").unwrap();
    assert_eq!(edge.target, "https://example.com/x");
}

#[test]
fn drops_anchor_only_and_empty() {
    assert!(one("a.md", "#section").is_none());
    assert!(one("a.md", "   ").is_none());
}

#[test]
fn aggregates_occurrences_per_target() {
    let links = vec![link("b.md", Some(6)), link("b.md", Some(2)), link("b.md", Some(6)), link("c.md", Some(3))];
    let edges = link_edges("a.md", &links, LinkPolicy::Body);
    let b = edges.iter().find(|e| e.target == "b.md").unwrap();
    assert_eq!(b.occurrences, vec![occ(Some(2), None, None), occ(Some(6), None, None)]);
    let c = edges.iter().find(|e| e.target == "c.md").unwrap();
    assert_eq!(c.occurrences, vec![occ(Some(3), None, None)]);
}

#[test]
fn each_occurrence_keeps_its_own_fragment() {
    let links = vec![
        link("./owners.md#security-console", Some(53)),
        link("./owners.md#ngwaf-edge", Some(77)),
        link("./owners.md#security-console", Some(89)),
    ];
    let edges = link_edges("registers/work-items.md", &links, LinkPolicy::Body);
    assert_eq!(edges.len(), 1, "one edge, three occurrences");
    assert_eq!(
        edges[0].occurrences,
        vec![
            occ(Some(53), Some("registers/owners.md#security-console"), Some("./owners.md")),
            occ(Some(77), Some("registers/owners.md#ngwaf-edge"), Some("./owners.md")),
            occ(Some(89), Some("registers/owners.md#security-console"), Some("./owners.md")),
        ]
    );
}

#[test]
fn each_occurrence_keeps_its_own_spelling() {
    let links = vec![link("./b.md", Some(4)), link("b.md", Some(9))];
    let edges = link_edges("a.md", &links, LinkPolicy::Body);
    assert_eq!(edges.len(), 1);
    assert_eq!(edges[0].occurrences, vec![occ(Some(4), None, Some("./b.md")), occ(Some(9), None, None)]);
}

#[test]
fn two_spellings_both_moved_by_resolution_keep_both_raws() {
    let links = vec![link("./config.md", Some(3)), link("config.md", Some(5))];
    let edges = link_edges("docs/guide.md", &links, LinkPolicy::Body);
    assert_eq!(edges.len(), 1);
    assert_eq!(edges[0].target, "docs/config.md");
    assert_eq!(edges[0].occurrences, vec![occ(Some(3), None, Some("./config.md")), occ(Some(5), None, Some("config.md"))]);
}

#[test]
fn omits_occurrences_when_nothing_is_known() {
    let edges = link_edges("a.md", &vec![link("b.md", None)], LinkPolicy::Body);
    assert_eq!(edges.len(), 1);
    assert!(edges[0].occurrences.is_empty());
}

#[test]
fn a_body_link_naming_only_a_fragment_is_not_an_edge() {
    let edges = link_edges("doc.md", &vec![link("#section", Some(1))], LinkPolicy::Body);
    assert!(edges.is_empty(), "got: {edges:?}");
}

#[test]
fn a_declared_value_naming_only_a_fragment_is_an_edge() {
    let edges = link_edges("doc.md", &vec![link("#section", Some(1))], LinkPolicy::Declared);
    assert_eq!(edges.len(), 1, "got: {edges:?}");
    assert_eq!(edges[0].target, "#section");
}

#[test]
fn a_declared_fragment_on_a_document_still_splits() {
    for policy in [LinkPolicy::Body, LinkPolicy::Declared] {
        let edges = link_edges("doc.md", &vec![link("other.md#section", Some(1))], policy);
        assert_eq!(edges.len(), 1, "{policy:?}: {edges:?}");
        assert_eq!(edges[0].target, "other.md", "{policy:?}");
    }
}

#[test]
fn a_target_resolving_to_the_graph_root_is_named_dot() {
    for (source, raw) in [("docs/a.md", ".."), ("a.md", "."), ("a.md", "sub/..")] {
        let edges = link_edges(source, &vec![link(raw, Some(1))], LinkPolicy::Body);
        assert_eq!(edges.len(), 1, "{source} → {raw}");
        assert_eq!(edges[0].target, ".", "{source} → {raw}");
    }
}

#[test]
fn the_root_and_the_level_above_it_stay_distinct() {
    let edges = link_edges("docs/a.md", &vec![link("..", Some(1)), link("../..", Some(3))], LinkPolicy::Body);
    let targets: Vec<&str> = edges.iter().map(|e| e.target.as_str()).collect();
    assert_eq!(targets, vec![".", ".."], "got: {edges:?}");
    for (edge, expected) in edges.iter().zip(["..", "../.."]) {
        assert_eq!(edge.occurrences[0].raw.as_deref(), Some(expected), "{edge:?}");
    }
}

#[test]
fn an_occurrence_resolves_one_link() {
    let (target, o) = occurrence("docs/guide.md", &link("setup.md#intro", Some(7)), LinkPolicy::Body).unwrap();
    assert_eq!(target, "docs/setup.md");
    assert_eq!(o, occ(Some(7), Some("docs/setup.md#intro"), Some("setup.md")));
}

#[test]
fn line_less_occurrences_sort_last() {
    let links = vec![link("b.md#x", None), link("b.md", Some(3))];
    let edges = link_edges("a.md", &links, LinkPolicy::Body);
    assert_eq!(edges[0].occurrences, vec![occ(Some(3), None, None), occ(None, Some("b.md#x"), None)]);
}

fn strings(v: &[&str]) -> Vec<String> {
    v.iter().map(|s| s.to_string()).collect()
}

#[test]
fn a_scoped_lock_report_names_every_node() {
    let text = lock_report(false, &strings(&["a.md", "b.md"]), &strings(&["gone.md"]));
    assert_eq!(text, "locked 2 nodes, dropped 1 entry\n  locked  a.md\n  locked  b.md\n  dropped gone.md");
}

#[test]
fn a_full_lock_report_counts_without_listing() {
    assert_eq!(lock_report(true, &strings(&["a.md"]), &vec![]), "locked 1 node");
    assert_eq!(
        lock_report(true, &strings(&["a.md", "b.md"]), &strings(&["x.md", "y.md"])),
        "locked 2 nodes, dropped 2 entries\n  dropped x.md\n  dropped y.md"
    );
    assert_eq!(lock_report(false, &vec![], &vec![]), "locked 0 nodes");
}

#[test]
fn a_lock_report_keeps_each_node_on_one_line() {
    let text = lock_report(false, &strings(&["a\nb.md"]), &vec![]);
    assert_eq!(text.lines().count(), 2);
}

#[test]
fn large_projections_are_flagged_from_the_threshold() {
    assert!(large_projection_hint(10, LARGE_PROJECTION_BYTES - 1, "narrow").is_none());
    let h = large_projection_hint(300, 70000, "narrow").unwrap();
    assert_eq!(h.name, "large-projection");
    assert_eq!(h.message, "300 nodes rendered to 68KB of output");
    assert_eq!(h.next.as_deref(), Some("narrow"));
    assert!(h.locus.is_none());
}

#[test]
fn glob_metacharacters_make_a_pattern() {
    assert!(has_glob_meta("docs/*.md"));
    assert!(has_glob_meta("a?"));
    assert!(has_glob_meta("{a,b}"));
    assert!(!has_glob_meta("docs/guide.md"));
    assert!(!has_glob_meta("docs/"));
}

#[test]
fn namespaces_normalize_once_each_in_order() {
    let graphs = strings(&["markdown", "frontmatter"]);
    let keys = resolve_namespaces(&graphs, &strings(&["frontmatter", "@fs", "@frontmatter"])).unwrap();
    assert_eq!(keys, strings(&["@frontmatter", "@fs"]));
    assert_eq!(resolve_namespaces(&graphs, &vec![]).unwrap(), Vec::<String>::new());
}

#[test]
fn an_unknown_namespace_lists_the_declared_graphs() {
    let graphs = strings(&["markdown", "frontmatter"]);
    let err = resolve_namespaces(&graphs, &strings(&["fs", "@frontmater"])).unwrap_err();
    assert_eq!(err, "unknown namespace \"@frontmater\" — declared graphs: frontmatter, fs, markdown");
}

#[test]
fn a_missed_path_with_no_near_key_is_reported_plainly() {
    let keys = strings(&["a.md", "docs/b.md"]);
    assert_eq!(not_found_message(&keys, "zzz.md", Some("zzz.md")), "node not found: \"zzz.md\"");
}

#[test]
fn a_missed_path_suggests_the_key_with_the_right_file() {
    let keys = strings(&["a.md", "docs/guide.md"]);
    assert_eq!(
        not_found_message(&keys, "guide.md", Some("guide.md")),
        "node not found: \"guide.md\" — did you mean \"docs/guide.md\"?"
    );
    assert_eq!(
        not_found_message(&keys, "guide", Some("guide")),
        "node not found: \"guide\" — did you mean \"docs/guide.md\"?"
    );
    assert_eq!(not_found_message(&keys, "/outside", None), "node not found: \"/outside\"");
}

#[test]
fn many_suggestions_show_five_and_count_the_rest() {
    let keys = strings(&["g/a.md", "f/a.md", "e/a.md", "d/a.md", "c/a.md", "b/a.md", "a.txt"]);
    assert_eq!(
        not_found_message(&keys, "a.md", Some("a.md")),
        "node not found: \"a.md\" — multiple matches: \"b/a.md\", \"c/a.md\", \"d/a.md\", \"e/a.md\", \"f/a.md\", and 1 more"
    );
    let two = strings(&["y/a.md", "x/a.md", "x/a.md"]);
    assert_eq!(
        not_found_message(&two, "a.md", Some("a.md")),
        "node not found: \"a.md\" — multiple matches: \"x/a.md\", \"y/a.md\""
    );
}

#[test]
fn selectors_pick_paths_subtrees_and_patterns() {
    let keys = strings(&["a.md", "docs", "docs/b.md", "docs/sub/c.md", "docs.md"]);
    let dirs = strings(&["docs"]);
    let (all, hints) = resolve_selectors(&keys, &dirs, &vec![]).unwrap();
    assert_eq!(all, keys);
    assert!(hints.is_empty());
    let (sub, _) = resolve_selectors(&keys, &dirs, &strings(&["docs"])).unwrap();
    assert_eq!(sub, strings(&["docs/b.md", "docs/sub/c.md"]));
    let (exact, _) = resolve_selectors(&keys, &dirs, &strings(&["docs.md", "a.md", "a.md"])).unwrap();
    assert_eq!(exact, strings(&["a.md", "docs.md"]));
    let (glob, _) = resolve_selectors(&keys, &dirs, &strings(&["docs/*.md"])).unwrap();
    assert_eq!(glob, strings(&["docs/b.md"]));
}

#[test]
fn selectors_that_pick_nothing_raise_hints_or_errors() {
    let keys = strings(&["a.md", "empty", "docs/guide.md"]);
    let dirs = strings(&["empty"]);
    let (none, hints) = resolve_selectors(&keys, &dirs, &strings(&["*.txt", "*.txt"])).unwrap();
    assert!(none.is_empty());
    assert_eq!(hints.len(), 1);
    assert_eq!(hints[0].name, "zero-match-selector");
    assert_eq!(hints[0].message, "matched no nodes");
    assert_eq!(hints[0].locus.as_deref(), Some("*.txt"));
    let (_, hints) = resolve_selectors(&keys, &dirs, &strings(&["empty"])).unwrap();
    assert_eq!(hints[0].message, "is a directory with no files in the graph");
    assert!(hints[0].next.is_none());
    let err = resolve_selectors(&keys, &dirs, &strings(&["guide.md"])).unwrap_err();
    assert_eq!(err, "node not found: \"guide.md\" — did you mean \"docs/guide.md\"?");
    assert!(resolve_selectors(&keys, &dirs, &strings(&["a[b*"])).is_err());
}

fn lock_with(keys: &[&str]) -> Lockfile {
    Lockfile {
        lockfile_version: 2,
        nodes: keys.iter().map(|k| (k.to_string(), LockfileNode { hash: Some("b3:00".to_string()) })).collect(),
    }
}

#[test]
fn a_directory_named_to_a_scoped_lock_is_refused_before_anything_is_locked() {
    let snapshot = lock_with(&["docs/a.md", "docs/b.md"]);
    let existing = lock_with(&[]);
    let named = vec!["docs/a.md".to_string(), "./docs".to_string()];
    let resolved = vec!["docs/a.md".to_string(), "docs".to_string()];
    let error = refuse_directory_lock(&named, &resolved, &vec![false, true], &snapshot, &existing).unwrap_err();
    assert_eq!(
        error,
        "cannot lock directory node \"./docs\" — directories carry no content to snapshot. Name the files you reviewed, or pass `--all` to lock every node."
    );
    // A directory that still has a stale entry may be named: that drops it.
    let stale = lock_with(&["docs"]);
    assert!(refuse_directory_lock(&named, &resolved, &vec![false, true], &snapshot, &stale).is_ok());
}

#[test]
fn a_scoped_lock_says_why_a_named_node_locked_nothing() {
    let snapshot = lock_with(&["docs/a.md", "docs/b.md", "x.md"]);
    let existing = lock_with(&["gone.md"]);
    let resolved = vec!["docs".to_string(), "link".to_string(), "gone.md".to_string(), "x.md".to_string()];
    let kinds = vec![Some(NodeType::Directory), Some(NodeType::Symlink), Some(NodeType::File), Some(NodeType::File)];
    let hints = scoped_lock_hints(&resolved, &kinds, &snapshot, &existing);
    assert_eq!(hints.len(), 2);
    assert_eq!(hints[0].name, "directory-lock");
    assert_eq!(hints[0].locus.as_deref(), Some("docs"));
    assert_eq!(
        hints[0].message,
        "is a directory, which carries no content to snapshot — this run locked none of the 2 lockable nodes beneath it"
    );
    assert_eq!(hints[1].name, "nothing-to-lock");
    assert_eq!(hints[1].locus.as_deref(), Some("link"));
    assert_eq!(hints[1].next.as_deref(), Some("name a file whose content drft can hash"));
}

#[test]
fn every_lock_path_resolves_before_anything_is_written() {
    let g = graph_from(&[("a.md", "b.md")]);
    let lock = lock_with(&["gone.md"]);
    let ok = resolve_lock_paths(&vec!["./a.md".to_string(), "gone.md".to_string()], &g, &lock).unwrap();
    assert_eq!(ok, vec!["a.md".to_string(), "gone.md".to_string()]);
    let err = resolve_lock_paths(&vec!["a.md".to_string(), "typo.md".to_string(), "nope.md".to_string()], &g, &lock).unwrap_err();
    assert!(err.contains("typo.md"), "{err}");
    assert!(!err.contains("nope.md"), "{err}");
}

#[test]
fn a_scoped_lock_writes_only_when_it_changed_something() {
    let existing = lock_with(&["a.md"]);
    let snapshot = lock_with(&["a.md"]);
    let out = lock_paths(existing, &snapshot, &vec!["a.md".to_string()]);
    assert!(scoped_lock_changed(&out));
    let out = lock_paths(lock_with(&[]), &lock_with(&[]), &vec!["dir".to_string()]);
    assert!(!scoped_lock_changed(&out));
}
