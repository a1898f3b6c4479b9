use drft::edges::{self, EdgeProjection};
use drft::nodes::{self, NodeProjection};
use drft::projection::{filter_metadata, filtered_out, join_blocks, join_sections, push_metadata_lines, MetaBlock};

#[test]
fn join_blocks_envelope() {
    assert_eq!(join_blocks(vec![]), "");
    assert_eq!(join_blocks(vec!["a".into(), "b".into()]), "a\n\nb\n");
}

#[test]
fn join_sections_labels_both_and_separates_with_a_blank_line() {
    let nodes = join_blocks(vec!["docs/a.md".into()]);
    let edges = join_blocks(vec!["docs/a.md → docs/b.md".into()]);
    assert_eq!(
        join_sections(&[("nodes", &nodes), ("edges", &edges)]),
        "# nodes\n\ndocs/a.md\n\n# edges\n\ndocs/a.md → docs/b.md\n"
    );
}

#[test]
fn join_sections_keeps_an_empty_section_as_its_header() {
    let nodes = join_blocks(vec!["docs/a.md".into()]);
    let edges = join_blocks(vec![]);
    assert_eq!(
        join_sections(&[("nodes", &nodes), ("edges", &edges)]),
        "# nodes\n\ndocs/a.md\n\n# edges\n"
    );
}

#[test]
fn join_sections_empty_graph_is_both_headers() {
    assert_eq!(
        join_sections(&[("nodes", ""), ("edges", "")]),
        "# nodes\n\n# edges\n"
    );
}

#[test]
fn join_sections_empty_nodes_with_edges() {
    let edges = join_blocks(vec!["a.md → b.md".into()]);
    assert_eq!(
        join_sections(&[("nodes", ""), ("edges", &edges)]),
        "# nodes\n\n# edges\n\na.md → b.md\n"
    );
}

#[test]
fn nodes_format_text_empty_is_blank() {
    assert_eq!(nodes::format_text(&[]), "");
}

#[test]
fn edges_format_text_empty_is_blank() {
    assert_eq!(edges::format_text(&[]), "");
}

#[test]
fn metadata_lines_indent_namespaces_and_fields() {
    let mut lines = vec!["a.md".to_string()];
    push_metadata_lines(
        &mut lines,
        &vec![
            ("@frontmatter".to_string(), MetaBlock::Fields(vec![("purpose".to_string(), "\"line one\\nline two\"".to_string())])),
            ("@x".to_string(), MetaBlock::Value("3".to_string())),
        ],
    );
    assert_eq!(
        lines,
        vec!["a.md", "  @frontmatter", "    purpose: \"line one\\nline two\"", "  @x", "    3"]
    );
}

#[test]
fn node_and_edge_blocks_render() {
    let n = NodeProjection {
        id: "docs/a.md".to_string(),
        metadata: vec![("@frontmatter".to_string(), MetaBlock::Fields(vec![("purpose".to_string(), "\"line one\\nline two\"".to_string())]))],
    };
    assert_eq!(
        nodes::format_text(&[n]),
        "docs/a.md\n  @frontmatter\n    purpose: \"line one\\nline two\"\n"
    );
    let e1 = EdgeProjection { source: "a.md".into(), target: "b.md".into(), metadata: vec![] };
    let e2 = EdgeProjection { source: "a.md".into(), target: "c.md".into(), metadata: vec![] };
    assert_eq!(edges::format_text(&[e1, e2]), "a.md → b.md\n\na.md → c.md\n");
}

fn fields_block(fs: &[(&str, &str)]) -> MetaBlock {
    MetaBlock::Fields(fs.iter().map(|(k, v)| (k.to_string(), v.to_string())).collect())
}

#[test]
fn filter_drops_provenance_and_keeps_all_by_default() {
    let m = vec![
        ("@markdown".to_string(), fields_block(&[("lines", "[4]")])),
        ("_graphs".to_string(), MetaBlock::Value("[\"@markdown\"]".to_string())),
    ];
    let out = filter_metadata(&m, &vec![], &vec![]);
    assert_eq!(out.iter().map(|(k, _)| k.as_str()).collect::<Vec<_>>(), vec!["@markdown"]);
}

#[test]
fn filter_by_namespace_and_field() {
    let m = vec![
        ("@frontmatter".to_string(), fields_block(&[("lines", "[2]")])),
        ("@markdown".to_string(), fields_block(&[("lines", "[4]"), ("raw", "./b.md")])),
        ("_graphs".to_string(), MetaBlock::Value("[\"@frontmatter\",\"@markdown\"]".to_string())),
    ];
    let out = filter_metadata(&m, &vec!["@markdown".to_string()], &vec!["lines".to_string()]);
    assert_eq!(out.len(), 1);
    assert_eq!(out[0].0, "@markdown");
    match &out[0].1 {
        MetaBlock::Fields(fs) => assert_eq!(fs, &vec![("lines".to_string(), "[4]".to_string())]),
        MetaBlock::Value(_) => panic!("expected fields"),
    }
}

#[test]
fn filtered_out_only_when_a_filter_is_set() {
    let empty: Vec<(String, MetaBlock)> = vec![];
    assert!(!filtered_out(&empty, &vec![], &vec![]));
    assert!(filtered_out(&empty, &vec!["@markdown".to_string()], &vec![]));
    assert!(filtered_out(&empty, &vec![], &vec!["lines".to_string()]));
}

#[test]
fn a_field_filter_drops_a_block_that_is_not_an_object() {
    let m = vec![("@fs".to_string(), MetaBlock::Value("file".to_string()))];
    assert!(filter_metadata(&m, &vec![], &vec!["type".to_string()]).is_empty());
    assert_eq!(filter_metadata(&m, &vec![], &vec![]).len(), 1);
}

#[test]
fn filter_keeps_every_selected_block_narrowed_in_order() {
    let m = vec![
        ("@b".to_string(), fields_block(&[("x", "1"), ("y", "2")])),
        ("@a".to_string(), fields_block(&[("y", "3")])),
        ("@c".to_string(), fields_block(&[("z", "4")])),
        ("plain".to_string(), fields_block(&[("y", "5")])),
    ];
    let out = filter_metadata(&m, &vec![], &vec!["y".to_string()]);
    assert_eq!(out.iter().map(|(k, _)| k.as_str()).collect::<Vec<_>>(), vec!["@b", "@a"]);
    match &out[0].1 {
        MetaBlock::Fields(fs) => assert_eq!(fs, &vec![("y".to_string(), "2".to_string())]),
        MetaBlock::Value(_) => panic!("expected fields"),
    }
}
