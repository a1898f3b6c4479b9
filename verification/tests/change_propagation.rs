use drft::analyses::change_propagation::{ChangePropagation, LockedNow};
use drft::graph::{Edge, Graph, Node, NodeType};
use drft::paths::hash_bytes;

fn node(path: &str, content: &[u8]) -> Node {
    Node { path: path.into(), node_type: Some(NodeType::File), included: true, hash: Some(hash_bytes(content)) }
}

fn locked_graph() -> Graph {
    let mut graph = Graph::new();
    graph.add_node(node("index.md", b"[setup](setup.md)"));
    graph.add_node(node("setup.md", b"# Setup"));
    graph.add_edge(Edge { source: "index.md".into(), target: "setup.md".into(), link: None, parser: "markdown".into(), lines: vec![] });
    graph
}

fn entry(path: &str, locked: &[u8], now: Option<&[u8]>) -> LockedNow {
    LockedNow { node: path.into(), locked: Some(hash_bytes(locked)), content: now.map(|c| c.to_vec()) }
}

#[test]
fn change_propagation_no_changes_when_unchanged() {
    let graph = Graph::new();
    let lock = vec![
        entry("index.md", b"[setup](setup.md)", Some(b"[setup](setup.md)")),
        entry("setup.md", b"# Setup", Some(b"# Setup")),
    ];
    let result = ChangePropagation.run(&graph, Some(&lock));
    assert!(result.has_lockfile);
    assert!(result.directly_changed.is_empty());
    assert!(result.transitively_stale.is_empty());
}

#[test]
fn change_propagation_detects_direct_and_transitive() {
    let graph = locked_graph();
    let lock = vec![
        entry("index.md", b"[setup](setup.md)", Some(b"[setup](setup.md)")),
        entry("setup.md", b"# Setup", Some(b"# Setup (edited)")),
    ];
    let result = ChangePropagation.run(&graph, Some(&lock));
    assert_eq!(result.directly_changed.len(), 1);
    assert_eq!(result.directly_changed[0].node, "setup.md");
    assert_eq!(result.directly_changed[0].reason, "content changed");
    assert_eq!(result.transitively_stale.len(), 1);
    assert_eq!(result.transitively_stale[0].node, "index.md");
    assert_eq!(result.transitively_stale[0].via, "setup.md");
}

#[test]
fn change_propagation_no_lockfile_returns_empty() {
    let graph = Graph::new();
    let result = ChangePropagation.run(&graph, None);
    assert!(!result.has_lockfile);
    assert!(result.directly_changed.is_empty());
}

#[test]
fn change_propagation_detects_deleted_file() {
    let graph = Graph::new();
    let lock = vec![
        entry("index.md", b"[setup](setup.md)", Some(b"[setup](setup.md)")),
        entry("setup.md", b"# Setup", None),
    ];
    let result = ChangePropagation.run(&graph, Some(&lock));
    assert_eq!(result.directly_changed.len(), 1);
    assert_eq!(result.directly_changed[0].reason, "file deleted");
}

#[test]
fn staleness_travels_the_whole_chain_but_not_through_hashless_entries() {
    // a → b → c, c changed: b and a are stale, each via the node one link closer.
    let mut graph = Graph::new();
    graph.add_node(node("a.md", b"a"));
    graph.add_node(node("b.md", b"b"));
    graph.add_node(node("c.md", b"c"));
    graph.add_edge(Edge { source: "a.md".into(), target: "b.md".into(), link: None, parser: "markdown".into(), lines: vec![] });
    graph.add_edge(Edge { source: "b.md".into(), target: "c.md".into(), link: None, parser: "markdown".into(), lines: vec![] });
    let lock = vec![
        LockedNow { node: "a.md".into(), locked: None, content: None },
        entry("c.md", b"c", Some(b"c2")),
    ];
    let result = ChangePropagation.run(&graph, Some(&lock));
    assert_eq!(result.directly_changed.len(), 1);
    let stale: Vec<(&str, &str)> = result.transitively_stale.iter().map(|t| (t.node.as_str(), t.via.as_str())).collect();
    assert_eq!(stale, vec![("a.md", "b.md"), ("b.md", "c.md")]);
}
