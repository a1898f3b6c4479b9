use drft::paths::{is_uri, normalize_link_target, normalize_relative_path, resolve_link, uri_verdict, hash_bytes};

#[test]
fn normalize_simple() {
    assert_eq!(normalize_relative_path("a/b/c"), "a/b/c");
}

#[test]
fn normalize_dot() {
    assert_eq!(normalize_relative_path("./a/./b"), "a/b");
}

#[test]
fn normalize_dotdot() {
    assert_eq!(normalize_relative_path("a/b/../c"), "a/c");
}

#[test]
fn normalize_preserves_leading_dotdot() {
    assert_eq!(normalize_relative_path("../a"), "../a");
}

#[test]
fn normalize_deep_escape() {
    assert_eq!(normalize_relative_path("../../a"), "../../a");
}

#[test]
fn normalize_escape_after_descent() {
    assert_eq!(
        normalize_relative_path("guides/../../README.md"),
        "../README.md"
    );
}

#[test]
fn resolve_same_dir() {
    assert_eq!(resolve_link("index.md", "setup.md"), "setup.md");
}

#[test]
fn resolve_subdir() {
    assert_eq!(
        resolve_link("guides/intro.md", "setup.md"),
        "guides/setup.md"
    );
}

#[test]
fn resolve_parent() {
    assert_eq!(resolve_link("guides/intro.md", "../config.md"), "config.md");
}

#[test]
fn is_uri_detects_schemes() {
    assert!(is_uri("http://example.com"));
    assert!(is_uri("https://example.com"));
    assert!(is_uri("mailto:user@example.com"));
    assert!(is_uri("ftp://files.example.com"));
    assert!(is_uri("tel:+1234567890"));
    assert!(is_uri("ssh://git@github.com"));
    assert!(is_uri("custom+scheme://foo"));
}

#[test]
fn is_uri_rejects_paths() {
    assert!(!is_uri("setup.md"));
    assert!(!is_uri("./relative/path.md"));
    assert!(!is_uri("../parent.md"));
    assert!(!is_uri("#heading"));
    assert!(!is_uri(""));
    assert!(!is_uri("path/with:colon.md"));
}

#[test]
fn is_uri_rejects_bare_schemes() {
    assert!(!is_uri("name: foo bar bazz"));
    assert!(!is_uri("status: draft"));
    assert!(!is_uri("title: My Document"));
    assert!(!is_uri("name:foo"));
    assert!(!is_uri("x:y"));
}

#[test]
fn normalize_strips_fragment() {
    let n = normalize_link_target("file.md#heading").unwrap();
    assert_eq!(n.target, "file.md");
    assert_eq!(n.fragment.as_deref(), Some("#heading"));
}

#[test]
fn normalize_strips_uri_fragment() {
    let n = normalize_link_target("https://example.com/page#section").unwrap();
    assert_eq!(n.target, "https://example.com/page");
    assert_eq!(n.fragment.as_deref(), Some("#section"));
}

#[test]
fn normalize_drops_anchor_only() {
    assert!(normalize_link_target("#heading").is_none());
}

#[test]
fn normalize_drops_empty() {
    assert!(normalize_link_target("").is_none());
    assert!(normalize_link_target("  ").is_none());
}

#[test]
fn normalize_preserves_mailto() {
    let n = normalize_link_target("mailto:user@example.com").unwrap();
    assert_eq!(n.target, "mailto:user@example.com");
    assert!(n.fragment.is_none());
}

#[test]
fn normalize_is_idempotent_on_examples() {
    for p in ["a/b/../c", "./x/./y", "../../a", "guides/../../README.md", "a//b"] {
        let once = normalize_relative_path(p);
        assert_eq!(normalize_relative_path(&once), once);
    }
}

#[test]
fn resolve_absolute_target_stands_alone() {
    assert_eq!(resolve_link("guides/intro.md", "/docs/a.md"), "docs/a.md");
}

#[test]
fn uri_verdict_follows_authority_and_opaque_schemes() {
    assert!(uri_verdict(Some((true, "https".to_string()))));
    assert!(uri_verdict(Some((false, "mailto".to_string()))));
    assert!(!uri_verdict(Some((false, "name".to_string()))));
    assert!(!uri_verdict(None));
}

#[test]
fn hash_is_prefixed_blake3_hex() {
    let h = hash_bytes(b"hello");
    assert!(h.starts_with("b3:"));
    assert_eq!(h.len(), 3 + 64);
    assert_eq!(h, format!("b3:{}", blake3::hash(b"hello").to_hex()));
    assert_ne!(hash_bytes(b"hello"), hash_bytes(b"hellp"));
}

// ---------------------------------------------------------------------------
// The graph model

use drft::graph::{Edge, Graph, Node, NodeType};

fn node(path: &str) -> Node {
    Node { path: path.into(), node_type: Some(NodeType::File), included: true, hash: None }
}

fn edge(source: &str, target: &str) -> Edge {
    Edge { source: source.into(), target: target.into(), link: None, parser: "markdown".into(), lines: Vec::new() }
}

fn edge_with_parser(source: &str, target: &str, parser: &str) -> Edge {
    Edge { source: source.into(), target: target.into(), link: None, parser: parser.into(), lines: Vec::new() }
}

fn has_node(g: &Graph, path: &str) -> bool {
    g.index_of(path).is_some()
}

#[test]
fn graph_adjacency() {
    let mut g = Graph::new();
    g.add_node(node("a.md"));
    g.add_node(node("b.md"));
    g.add_edge(edge("a.md", "b.md"));
    assert_eq!(g.forward("a.md"), vec![0]);
    assert_eq!(g.reverse("b.md"), vec![0]);
    assert!(g.forward("b.md").is_empty());
}

#[test]
fn fragment_edge_resolves_to_node() {
    let mut g = Graph::new();
    g.add_node(node("a.md"));
    g.add_node(node("b.md"));
    g.add_edge(Edge {
        source: "a.md".into(),
        target: "b.md".into(),
        link: Some("b.md#heading".into()),
        parser: "markdown".into(),
        lines: Vec::new(),
    });
    assert_eq!(g.edges[0].target, "b.md");
    assert_eq!(g.edges[0].link.as_deref(), Some("b.md#heading"));
    assert_eq!(g.reverse("b.md"), vec![0]);
}

#[test]
fn filter_by_single_parser() {
    let mut g = Graph::new();
    g.add_node(node("a.md"));
    g.add_node(node("b.md"));
    g.add_node(node("c.md"));
    g.add_edge(edge_with_parser("a.md", "b.md", "markdown"));
    g.add_edge(edge_with_parser("a.md", "c.md", "frontmatter"));
    let filtered = g.filter_by_parsers(&vec!["frontmatter".into()]);
    assert_eq!(filtered.edges.len(), 1);
    assert_eq!(filtered.edges[0].target, "c.md");
    assert_eq!(filtered.edges[0].parser, "frontmatter");
}

#[test]
fn filter_preserves_all_nodes() {
    let mut g = Graph::new();
    g.add_node(node("a.md"));
    g.add_node(node("b.md"));
    g.add_edge(edge_with_parser("a.md", "b.md", "markdown"));
    let filtered = g.filter_by_parsers(&vec!["frontmatter".into()]);
    assert_eq!(filtered.nodes.len(), 2);
    assert!(has_node(&filtered, "a.md"));
    assert!(has_node(&filtered, "b.md"));
    assert!(filtered.edges.is_empty());
}

#[test]
fn filter_rebuilds_adjacency_maps() {
    let mut g = Graph::new();
    g.add_node(node("a.md"));
    g.add_node(node("b.md"));
    g.add_node(node("c.md"));
    g.add_edge(edge_with_parser("a.md", "b.md", "markdown"));
    g.add_edge(edge_with_parser("a.md", "c.md", "frontmatter"));
    let filtered = g.filter_by_parsers(&vec!["frontmatter".into()]);
    assert_eq!(filtered.forward("a.md"), vec![0]);
    assert_eq!(filtered.reverse("c.md"), vec![0]);
    assert!(filtered.reverse("b.md").is_empty());
}

#[test]
fn filter_by_multiple_parsers() {
    let mut g = Graph::new();
    g.add_node(node("a.md"));
    g.add_node(node("b.md"));
    g.add_node(node("c.md"));
    g.add_edge(edge_with_parser("a.md", "b.md", "markdown"));
    g.add_edge(edge_with_parser("a.md", "c.md", "frontmatter"));
    let filtered = g.filter_by_parsers(&vec!["markdown".into(), "frontmatter".into()]);
    assert_eq!(filtered.edges.len(), 2);
}

#[test]
fn filter_empty_parsers_removes_all_edges() {
    let mut g = Graph::new();
    g.add_node(node("a.md"));
    g.add_node(node("b.md"));
    g.add_edge(edge("a.md", "b.md"));
    let filtered = g.filter_by_parsers(&Vec::new());
    assert!(filtered.edges.is_empty());
    assert_eq!(filtered.nodes.len(), 2);
}

#[test]
fn included_nodes_lists_only_included_paths_in_order() {
    let mut g = Graph::new();
    g.add_node(node("b.md"));
    g.add_node(Node { path: "https://x.dev".into(), node_type: Some(NodeType::Uri), included: false, hash: None });
    g.add_node(node("a.md"));
    assert_eq!(g.included_nodes(), vec!["a.md", "b.md"]);
}

#[test]
fn a_normalized_path_is_in_normal_form() {
    for p in ["a/b/../c", "./x/./y", "../../a", "guides/../../README.md", "a//b", "/a/./", "..", ".", "", "a/../.."] {
        let n = normalize_relative_path(p);
        if n.is_empty() {
            continue;
        }
        let segments: Vec<&str> = n.split('/').collect();
        let mut past_escapes = false;
        for s in &segments {
            assert!(!s.is_empty() && *s != ".", "{p:?} -> {n:?}");
            if *s == ".." {
                assert!(!past_escapes, "{p:?} -> {n:?}");
            } else {
                past_escapes = true;
            }
        }
        assert_eq!(normalize_relative_path(&n), n);
    }
}
