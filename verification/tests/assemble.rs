use drft::assemble::{assemble_graph, escapes_root, link_target, referenced_node, symlink_edge_target, symlink_hashed, SymlinkLink, TargetFacts};
use drft::config::compile_globs;
use drft::graph::{Edge, Node, NodeType};

#[test]
fn a_link_resolves_against_its_source_and_keeps_its_fragment() {
    assert_eq!(
        link_target("guides/intro.md", "../config.md#setup"),
        Some(("config.md".to_string(), Some("config.md#setup".to_string())))
    );
    assert_eq!(link_target("a.md", "b.md"), Some(("b.md".to_string(), None)));
    assert_eq!(
        link_target("docs/a.md", "https://example.com/x#y"),
        Some(("https://example.com/x".to_string(), Some("https://example.com/x#y".to_string())))
    );
    assert_eq!(link_target("a.md", "#only"), None);
    assert_eq!(link_target("a.md", "   "), None);
}

#[test]
fn referenced_targets_become_nodes_by_the_inclusion_rules() {
    let uri = referenced_node("https://example.com", Some(NodeType::File), true, false);
    assert_eq!(uri.node_type, Some(NodeType::Uri));
    assert!(!uri.included);

    let broken = referenced_node("docs/missing.md", None, true, false);
    assert!(broken.included, "a missing file in scope is a broken link in scope");
    assert_eq!(broken.node_type, None);

    let excluded = referenced_node("docs/x.md", Some(NodeType::File), true, true);
    assert!(!excluded.included);
    assert_eq!(excluded.node_type, Some(NodeType::File));

    let escaping = referenced_node("../outside.md", Some(NodeType::File), true, false);
    assert!(!escaping.included);
    assert_eq!(escaping.node_type, None);

    let absolute = referenced_node("/etc/passwd", Some(NodeType::File), true, false);
    assert!(!absolute.included);
    assert_eq!(absolute.node_type, None);
    assert!(absolute.hash.is_none());
}

#[test]
fn only_a_leading_parent_component_escapes() {
    assert!(escapes_root(".."));
    assert!(escapes_root("../a"));
    assert!(!escapes_root("..a/b"));
    assert!(!escapes_root("a/../b"));
    assert!(!escapes_root("./a"));
}

#[test]
fn every_edge_target_becomes_a_node() {
    let file = |p: &str| Node { path: p.into(), node_type: Some(NodeType::File), included: true, hash: Some("b3:0".into()) };
    let edge = |s: &str, t: &str| Edge { source: s.into(), target: t.into(), link: None, parser: "markdown".into(), lines: vec![1] };
    let files = vec![file("b.md"), file("a.md")];
    let edges = vec![edge("a.md", "b.md"), edge("a.md", "missing.md"), edge("b.md", "https://example.com"), edge("a.md", "../out.md")];
    let facts = vec![TargetFacts { target: "missing.md".into(), stat: None, include_match: true, exclude_match: false }];
    let g = assemble_graph(&files, &edges, &facts);
    let paths: Vec<&str> = g.nodes.iter().map(|n| n.path.as_str()).collect();
    assert_eq!(paths, vec!["../out.md", "a.md", "b.md", "https://example.com", "missing.md"]);
    assert_eq!(g.edges.len(), 4);
    let missing = &g.nodes[g.index_of("missing.md").unwrap()];
    assert!(missing.included && missing.node_type.is_none() && missing.hash.is_none());
    let uri = &g.nodes[g.index_of("https://example.com").unwrap()];
    assert_eq!(uri.node_type, Some(NodeType::Uri));
    assert!(!uri.included);
    let outside = &g.nodes[g.index_of("../out.md").unwrap()];
    assert!(!outside.included && outside.node_type.is_none());
    for e in &g.edges {
        assert!(g.index_of(&e.target).is_some());
    }
}

#[test]
fn a_symlink_edge_points_where_the_link_resolves_inside_the_root() {
    assert_eq!(
        symlink_edge_target("docs/link.md", &SymlinkLink::Relative("../README.md".to_string())),
        Some("README.md".to_string())
    );
    assert_eq!(symlink_edge_target("docs/link.md", &SymlinkLink::Relative("../../out.md".to_string())), None);
    assert_eq!(
        symlink_edge_target("a.md", &SymlinkLink::Absolute(Some("guides/b.md".to_string()))),
        Some("guides/b.md".to_string())
    );
    assert_eq!(symlink_edge_target("a.md", &SymlinkLink::Absolute(None)), None);
}

#[test]
fn a_symlink_is_hashed_only_when_it_resolves_to_an_included_path_in_the_root() {
    let scope = compile_globs(&vec!["docs/**/*.md".to_string()]).unwrap();
    assert!(symlink_hashed(Some("docs/a.md"), scope.as_ref()));
    assert!(!symlink_hashed(Some("src/lib.rs"), scope.as_ref()));
    assert!(!symlink_hashed(None, scope.as_ref()));
    assert!(!symlink_hashed(Some("docs/a.md"), None));
}
