use drft::parsers::html::html_anchor_ids;
use drft::parsers::markdown::{extract, leading_metadata_block, mask_before};
use drft::parsers::MarkdownParser;

fn parse(content: &str) -> Vec<String> {
    let parser = MarkdownParser { file_filter: None };
    parser.parse("test.md", content).links.into_iter().map(|l| l.target).collect()
}

fn anchors(content: &str) -> Vec<String> {
    let parser = MarkdownParser { file_filter: None };
    parser.parse("test.md", content).anchors
}

#[test]
fn collects_anchors_from_atx_and_setext_headings() {
    assert_eq!(anchors("# Title\n\n## OBS-92\n\nSetext\n------\n"), vec!["title", "obs-92", "setext"]);
}

#[test]
fn a_hash_inside_a_code_fence_is_not_a_heading() {
    let content = "# Real\n\n```sh\n# not a heading\n```\n";
    assert_eq!(anchors(content), vec!["real"]);
}

#[test]
fn heading_text_is_the_rendered_text() {
    assert_eq!(anchors("## The **fs** graph\n"), vec!["the-fs-graph"]);
    assert_eq!(anchors("## The `fs` graph\n"), vec!["the-fs-graph"]);
}

#[test]
fn a_link_in_a_heading_contributes_its_text_and_its_edge() {
    let parser = MarkdownParser { file_filter: None };
    let result = parser.parse("t.md", "## See [config](config.md)\n");
    assert_eq!(result.anchors, vec!["see-config"]);
    assert_eq!(result.links[0].target, "config.md");
}

#[test]
fn inline_html_in_a_heading_is_not_part_of_the_slug() {
    assert_eq!(anchors("## <a id=\"obs-92\"></a>OBS-92\n"), vec!["obs-92"]);
    assert_eq!(anchors("## <a id=\"legacy\"></a>OBS-92\n"), vec!["legacy", "obs-92"]);
}

#[test]
fn html_anchors_outside_headings_are_addresses_too() {
    assert_eq!(
        anchors("<a id=\"faq\"></a>\n\n## Questions\n\n<a name=\"legacy\"></a>\n"),
        vec!["faq", "questions", "legacy"]
    );
}

#[test]
fn html_anchor_ids_keep_their_case_and_reject_lookalikes() {
    assert_eq!(anchors("<a id=\"FAQ\"></a>\n"), vec!["FAQ"]);
    assert!(anchors("<abbr id=\"x\">a</abbr>\n").is_empty());
    assert!(anchors("<a data-id=\"x\"></a>\n").is_empty());
}

#[test]
fn a_quoted_angle_bracket_does_not_end_the_tag() {
    assert_eq!(anchors("<a title=\"a > b\" id=\"kept\"></a>\n"), vec!["kept"]);
}

#[test]
fn an_attribute_value_is_not_rescanned_for_attribute_names() {
    assert_eq!(anchors("<a title=\"name=x\" id=\"only\"></a>\n"), vec!["only"]);
}

#[test]
fn a_bare_attribute_and_an_empty_value_are_skipped() {
    assert_eq!(anchors("<a hidden id=\"after-bare\"></a>\n"), vec!["after-bare"]);
    assert!(anchors("<a id=\"\"></a>\n").is_empty(), "empty is not an address");
}

#[test]
fn a_malformed_tag_mints_nothing() {
    assert!(anchors("<a id=\"unclosed name=\"real\"></a>\n").is_empty());
    assert!(anchors("<a id=\"never closed\n").is_empty());
}

#[test]
fn a_repeated_attribute_names_one_address() {
    assert_eq!(anchors("<a id=\"first\" id=\"second\" name=\"nm\" name=\"nm2\"></a>\n"), vec!["first", "nm"]);
}

#[test]
fn a_code_span_in_frontmatter_does_not_leak_an_anchor() {
    let content = "---\npurpose: use `a: b` here\n---\n\n# Real\n";
    assert_eq!(anchors(content), vec!["real"]);
}

#[test]
fn a_comment_only_block_is_read_as_content() {
    assert_eq!(anchors("---\n# just a comment\n---\n\n# Real\n"), vec!["just-a-comment", "real"]);
}

#[test]
fn a_leading_thematic_break_is_not_frontmatter() {
    let parser = MarkdownParser { file_filter: None };
    let content = "---\n\n# First\n\nSee [a](t.md).\n\n---\n\n# Second\n";
    let result = parser.parse("hr.md", content);
    assert_eq!(result.anchors, vec!["first", "second"]);
    assert_eq!(result.links[0].target, "t.md");
    assert_eq!(result.links[0].line, Some(5));
}

#[test]
fn a_rule_above_a_setext_title_is_not_frontmatter() {
    assert_eq!(anchors("---\nMy Title\n---\n\nBody\n"), vec!["my-title"]);
}

#[test]
fn frontmatter_is_not_a_setext_heading() {
    let content = "---\npurpose: the design of the widget\n---\n\n# Real\n";
    assert_eq!(anchors(content), vec!["real"]);
}

#[test]
fn masking_frontmatter_keeps_link_lines_accurate() {
    let parser = MarkdownParser { file_filter: None };
    let content = "---\ntitle: Doc\n---\n\n# T\n\nSee [setup](setup.md).\n";
    let links = parser.parse("t.md", content).links;
    assert_eq!(links[0].line, Some(7), "masking must not shift line numbers");
}

#[test]
fn image_alt_text_is_not_part_of_the_slug() {
    let parser = MarkdownParser { file_filter: None };
    let result = parser.parse("t.md", "# ![logo](logo.png) Project\n");
    assert_eq!(result.anchors, vec!["-project"]);
    assert_eq!(result.links[0].target, "logo.png", "the image is still an edge");
}

#[test]
fn a_line_break_in_a_setext_heading_contributes_no_character() {
    assert_eq!(anchors("Line one\nline two\n---\n"), vec!["line-oneline-two"]);
}

#[test]
fn a_repeated_heading_takes_the_disambiguator() {
    assert_eq!(anchors("## Notes\n\ntext\n\n## Notes\n"), vec!["notes", "notes-1"]);
}

#[test]
fn a_curly_id_attribute_is_ignored() {
    assert_eq!(anchors("## OBS-92 {#custom}\n"), vec!["obs-92-custom"]);
}

#[test]
fn markdown_records_link_line_numbers() {
    let parser = MarkdownParser { file_filter: None };
    let content = "# Title\n\nSee [setup](setup.md).\n\nThen [faq](faq.md).\n";
    let links = parser.parse("t.md", content).links;
    assert_eq!(links[0].target, "setup.md");
    assert_eq!(links[0].line, Some(3));
    assert_eq!(links[1].target, "faq.md");
    assert_eq!(links[1].line, Some(5));
}

#[test]
fn markdown_extracts_inline_links() {
    let links = parse("[setup](setup.md) and [faq](faq.md)");
    assert_eq!(links.len(), 2);
    assert_eq!(links[0], "setup.md");
    assert_eq!(links[1], "faq.md");
}

#[test]
fn preserves_fragments() {
    let links = parse("[setup](setup.md#installation)");
    assert_eq!(links.len(), 1);
    assert_eq!(links[0], "setup.md#installation");
}

#[test]
fn emits_external_urls() {
    let links = parse("[google](https://google.com) and [local](setup.md)");
    assert_eq!(links.len(), 2);
    assert_eq!(links[0], "https://google.com");
    assert_eq!(links[1], "setup.md");
}

#[test]
fn emits_anchor_only() {
    let links = parse("[section](#heading) and [local](setup.md)");
    assert_eq!(links.len(), 2);
    assert_eq!(links[0], "#heading");
    assert_eq!(links[1], "setup.md");
}

#[test]
fn markdown_skips_email_links() {
    let links = parse("Contact (<user@example.com>)");
    assert!(links.is_empty());
}

#[test]
fn emits_mailto_links() {
    let links = parse("[email](mailto:user@example.com) and [local](setup.md)");
    assert_eq!(links.len(), 2);
    assert_eq!(links[0], "mailto:user@example.com");
    assert_eq!(links[1], "setup.md");
}

#[test]
fn markdown_extracts_image_links() {
    let links = parse("![diagram](assets/arch.png)");
    assert_eq!(links.len(), 1);
    assert_eq!(links[0], "assets/arch.png");
}

#[test]
fn markdown_extracts_reference_links() {
    let links = parse("[setup][ref]\n\n[ref]: setup.md\n");
    assert_eq!(links.len(), 1);
    assert_eq!(links[0], "setup.md");
}

#[test]
fn markdown_no_filter_matches_everything() {
    let parser = MarkdownParser { file_filter: None };
    assert!(parser.matches("index.md"));
    assert!(parser.matches("main.rs"));
    assert!(parser.matches("docs/guide.md"));
}

#[test]
fn markdown_file_filter_restricts_matching() {
    let filter = drft::config::compile_globs(&vec!["*.md".to_string(), "*.mdx".to_string()]).unwrap();
    let parser = MarkdownParser { file_filter: filter };
    assert!(parser.matches("index.md"));
    assert!(parser.matches("page.mdx"));
    assert!(!parser.matches("main.rs"));
}

#[test]
fn anchor_ids_are_read_from_raw_html() {
    assert_eq!(html_anchor_ids("<a id=\"x\" name='y'>"), vec!["x", "y"]);
    assert_eq!(html_anchor_ids("<A ID=bare>"), vec!["bare"]);
    assert!(html_anchor_ids("<a id=\"open").is_empty());
    assert!(html_anchor_ids("<a").is_empty());
}

#[test]
fn a_block_at_byte_zero_is_found_and_one_lower_is_not() {
    assert_eq!(leading_metadata_block("---\ntitle: x\n---\n\nbody\n"), Some(16));
    assert_eq!(leading_metadata_block("\n---\ntitle: x\n---\n"), None);
    assert_eq!(leading_metadata_block("plain text\n"), None);
}

#[test]
fn masking_blanks_everything_before_the_close_but_line_breaks() {
    assert_eq!(mask_before("ab\ncd\r\nef", 5), "  \n  \r\nef");
    assert_eq!(mask_before("é\nx", 2), " \nx");
    assert_eq!(mask_before("abc", 0), "abc");
}

#[test]
fn duplicate_addresses_keep_their_first_place() {
    let (_, anchors) = extract("<a id=\"intro\"></a>\n\n# Intro\n\n# Intro\n");
    assert_eq!(anchors, vec!["intro", "intro-1"]);
}
