use drft::compose::{compose, Composed, Fragment, FragmentEdge, FragmentNode};

fn fields(fs: &[(&str, &str)]) -> Vec<(String, String)> {
    fs.iter().map(|(k, v)| (k.to_string(), v.to_string())).collect()
}

fn fragment_with_node(label: &str, path: &str, meta: &[(&str, &str)]) -> Fragment {
    Fragment {
        label: Some(label.to_string()),
        nodes: vec![FragmentNode { path: path.to_string(), metadata: fields(meta) }],
        edges: vec![],
    }
}

fn edge(source: &str, target: &str, meta: &[(&str, &str)]) -> FragmentEdge {
    FragmentEdge { source: source.to_string(), target: target.to_string(), metadata: fields(meta) }
}

fn block<'a>(c: &'a Composed, path: &str, ns: &str) -> &'a Vec<(String, String)> {
    let node = c.nodes.iter().find(|n| n.path == path).unwrap();
    &node.blocks.iter().find(|(k, _)| k == ns).unwrap().1
}

#[test]
fn single_graph_namespaces_metadata() {
    let fs = fragment_with_node("fs", "a.md", &[("type", "file"), ("hash", "b3:1")]);
    let composed = compose(&vec![fs]);
    assert_eq!(block(&composed, "a.md", "@fs"), &fields(&[("type", "file"), ("hash", "b3:1")]));
    assert_eq!(composed.nodes[0].graphs, vec!["@fs".to_string()]);
}

#[test]
fn multiple_graphs_merge_by_path() {
    let fs = fragment_with_node("fs", "a.md", &[("type", "file"), ("hash", "b3:1")]);
    let frontmatter = fragment_with_node("frontmatter", "a.md", &[("title", "A"), ("status", "draft")]);
    let composed = compose(&vec![fs, frontmatter]);
    assert_eq!(composed.nodes.len(), 1);
    assert_eq!(block(&composed, "a.md", "@fs")[0], ("type".to_string(), "file".to_string()));
    assert_eq!(block(&composed, "a.md", "@frontmatter")[0], ("title".to_string(), "A".to_string()));
    assert_eq!(composed.nodes[0].graphs, vec!["@frontmatter".to_string(), "@fs".to_string()]);
}

#[test]
fn edges_dedup_and_collect_provenance() {
    let markdown = Fragment { label: Some("markdown".into()), nodes: vec![], edges: vec![edge("a.md", "b.md", &[])] };
    let frontmatter = Fragment { label: Some("frontmatter".into()), nodes: vec![], edges: vec![edge("a.md", "b.md", &[])] };
    let composed = compose(&vec![markdown, frontmatter]);
    assert_eq!(composed.edges.len(), 1);
    assert_eq!(composed.edges[0].graphs, vec!["@frontmatter".to_string(), "@markdown".to_string()]);
    assert!(composed.edges[0].blocks.is_empty());
}

#[test]
fn edge_metadata_nests_under_namespace() {
    let markdown = Fragment {
        label: Some("markdown".into()),
        nodes: vec![],
        edges: vec![edge("a.md", "b.md", &[("occurrences", "[{\"line\":4,\"link\":\"b.md#x\"}]")])],
    };
    let composed = compose(&vec![markdown]);
    assert_eq!(composed.edges[0].blocks.len(), 1);
    assert_eq!(composed.edges[0].blocks[0].0, "@markdown");
    assert_eq!(composed.edges[0].blocks[0].1, fields(&[("occurrences", "[{\"line\":4,\"link\":\"b.md#x\"}]")]));
}

#[test]
fn composed_edges_come_in_source_then_target_order() {
    let a = Fragment {
        label: Some("markdown".into()),
        nodes: vec![],
        edges: vec![edge("b.md", "a.md", &[]), edge("a.md", "c.md", &[]), edge("a.md", "b.md", &[]), edge("a.md", "c.md", &[])],
    };
    let composed = compose(&vec![a]);
    let keys: Vec<(String, String)> = composed.edges.iter().map(|e| (e.source.clone(), e.target.clone())).collect();
    assert_eq!(
        keys,
        vec![
            ("a.md".to_string(), "b.md".to_string()),
            ("a.md".to_string(), "c.md".to_string()),
            ("b.md".to_string(), "a.md".to_string())
        ]
    );
}

#[test]
fn the_last_graph_of_a_namespace_decides_its_block() {
    let first = fragment_with_node("fs", "a.md", &[("hash", "b3:1")]);
    let second = fragment_with_node("fs", "a.md", &[("hash", "b3:2")]);
    let unlabeled = Fragment { label: None, nodes: vec![FragmentNode { path: "a.md".into(), metadata: vec![] }], edges: vec![] };
    let composed = compose(&vec![first, second, unlabeled]);
    assert_eq!(block(&composed, "a.md", "@fs"), &fields(&[("hash", "b3:2")]));
    assert_eq!(composed.nodes[0].graphs, vec!["@fs".to_string(), "@graph".to_string()]);
}
