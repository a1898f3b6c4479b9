use drft::parsers::frontmatter::{frontmatter_metadata, MetaValue};
use drft::graphs::{edge_keys_hint, render_keys, strip_marks, unreadable_text_finding};
use drft::parsers::frontmatter::{frontmatter_block, mapping_block_end, YamlNode, UNREADABLE_FRONTMATTER};
use drft::parsers::{FrontmatterParser, ParseResult};
use drft::parsers::frontmatter::{line_table, opens_line, source_line_in};
use drft::parsers::slug::{anchors, slug};

#[test]
fn a_line_the_table_does_not_hold_falls_back() {
    let lines = line_table("a: b\n");
    assert_eq!(source_line_in(&lines, 0), 0);
    assert_eq!(source_line_in(&lines, 99), 99);
}

#[test]
fn a_row_resolves_to_the_source_line_it_opened_on() {
    let lines = line_table("a: b\rc: d\n");
    assert_eq!(lines, vec![1, 1, 2]);
    assert_eq!(source_line_in(&lines, 2), 1);
    assert_eq!(source_line_in(&lines, 3), 2);
}

#[test]
fn a_lone_carriage_return_opens_a_row_without_advancing_the_source_line() {
    assert_eq!(line_table("a: one\rb: two\nc: three\n"), vec![1, 1, 2, 3]);
}

#[test]
fn a_carriage_return_before_a_newline_opens_one_row_not_two() {
    assert_eq!(line_table("a: one\r\r\nb: two\n"), vec![1, 1, 2, 3]);
    assert_eq!(line_table("a: one\r\nb: two\n"), vec![1, 2, 3]);
}

#[test]
fn a_newline_before_a_carriage_return_opens_two_rows() {
    assert_eq!(
        line_table("a: 1\n\rb: 2\n"),
        vec![1, 2, 2, 3],
        "the newline ends source line 1; the carriage return opens a second \
         row on source line 2 without advancing it"
    );
}

#[test]
fn unicode_separators_do_not_open_a_row() {
    for separator in ['\u{2028}', '\u{0085}', '\u{000c}', '\u{2029}', '\u{000b}'] {
        assert_eq!(
            line_table(&format!("a: 1{separator}b: 2\n")),
            vec![1, 2],
            "{separator:?} is not a line break to this parser"
        );
    }
}

#[test]
fn opens_line_pairs_crlf() {
    let cs: Vec<char> = "a\r\nb\rc\n".chars().collect();
    assert!(!opens_line(&cs, 0));
    assert!(!opens_line(&cs, 1));
    assert!(opens_line(&cs, 2));
    assert!(opens_line(&cs, 4));
    assert!(opens_line(&cs, 6));
}

#[test]
fn a_bare_id_heading_slugs_to_itself_lowercased() {
    assert_eq!(slug("OBS-92"), "obs-92");
    assert_eq!(slug("W-01"), "w-01");
}

#[test]
fn a_title_joins_with_hyphens() {
    assert_eq!(slug("OBS-92: Sampling gap"), "obs-92-sampling-gap");
    assert_eq!(slug("Reading the graph"), "reading-the-graph");
}

#[test]
fn punctuation_is_removed_not_replaced() {
    assert_eq!(slug("Sizing — notes"), "sizing--notes");
    assert_eq!(slug("What now?"), "what-now");
    assert_eq!(slug("a.b.c"), "abc");
    assert_eq!(slug("50% done"), "50-done");
}

#[test]
fn underscores_and_hyphens_survive() {
    assert_eq!(
        slug("snake_case and kebab-case"),
        "snake_case-and-kebab-case"
    );
}

#[test]
fn a_stripped_leading_character_leaves_a_leading_hyphen() {
    assert_eq!(slug("🚀 Launch"), "-launch");
}

#[test]
fn non_ascii_letters_and_digits_are_kept() {
    assert_eq!(slug("Café Ω 42"), "café-ω-42");
}

#[test]
fn empty_and_punctuation_only_headings_slug_to_nothing() {
    assert_eq!(slug(""), "");
    assert_eq!(slug("!!!"), "");
}

#[test]
fn a_repeated_slug_takes_the_github_disambiguator() {
    assert_eq!(
        anchors(&vec!["Notes", "Notes", "Other", "Notes"]),
        vec!["notes", "notes-1", "other", "notes-2"]
    );
}

#[test]
fn headings_differing_only_in_case_collide() {
    assert_eq!(anchors(&vec!["Setup", "SETUP"]), vec!["setup", "setup-1"]);
}

#[test]
fn a_tenth_repeat_takes_a_two_digit_suffix() {
    let headings = vec!["x"; 12];
    let out = anchors(&headings);
    assert_eq!(out[0], "x");
    assert_eq!(out[10], "x-10");
    assert_eq!(out[11], "x-11");
}

// ---------------------------------------------------------------------------
// The frontmatter parser


fn fm_parse(content: &str) -> ParseResult {
    fm_parse_with(content, &["sources"])
}

fn fm_parse_with(content: &str, edge_keys: &[&str]) -> ParseResult {
    let parser = FrontmatterParser { file_filter: None, edge_keys: edge_keys.iter().map(|k| k.to_string()).collect() };
    parser.parse("test.md", content)
}

/// The text of a string scalar.
fn text(node: Option<&YamlNode>) -> Option<String> {
    match node {
        Some(YamlNode::Str(s, _)) => Some(s.clone()),
        _ => None,
    }
}

fn scoped(content: &str, edge_keys: &[&str]) -> Vec<String> {
    let parser = FrontmatterParser { file_filter: None, edge_keys: edge_keys.iter().map(|k| k.to_string()).collect() };
    parser.parse("doc.md", content).links.into_iter().map(|l| l.target).collect()
}

#[test]
fn a_code_span_crossing_the_fence_does_not_move_the_block() {
    let content = "---\npurpose: `a: b\n---\nc: d` tail\nkey: v\n---\n\n# Body\n";
    assert!(fm_parse(content).metadata.is_none());
    assert!(
        !fm_parse(content).diagnostics.is_empty(),
        "the block is the first fence pair, and it is reported rather than dropped"
    );
}

#[test]
fn a_longer_closing_fence_does_not_close_the_block() {
    assert!(fm_parse("---\ntitle: Doc\n----\n\nBody\n").metadata.is_none());
    assert!(fm_parse("---\ntitle: Doc\n---x\n\nBody\n").metadata.is_none());
}

#[test]
fn a_closing_fence_takes_trailing_spaces_but_not_a_tab() {
    assert!(fm_parse("---\ntitle: Doc\n---  \n\nBody\n").metadata.is_some());
    assert!(fm_parse("---\ntitle: Doc\n---\t\n\nBody\n").metadata.is_none());
}

#[test]
fn a_document_end_marker_closes_the_block() {
    let content = "---\ntitle: Doc\n...\npurpose: below\n---\n\nBody\n";
    let metadata = fm_parse(content).metadata.expect("the block above `...` is read");
    assert!(metadata.get("title").is_some());
    assert!(metadata.get("purpose").is_none());
}

#[test]
fn an_opening_fence_is_exactly_three_dashes() {
    assert!(fm_parse("----\ntitle: Doc\n----\n\nBody\n").metadata.is_none());
    assert!(fm_parse("----\ntitle: Doc\n---\n\nBody\n").metadata.is_none());
}

#[test]
fn an_opening_fence_may_carry_trailing_whitespace() {
    assert!(fm_parse("--- \ntitle: Doc\n---\n\nBody\n").metadata.is_some());
    assert!(fm_parse("---\t\ntitle: Doc\n---\n\nBody\n").metadata.is_some());
}

#[test]
fn a_first_line_of_exotic_whitespace_is_still_blank() {
    for whitespace in ["\u{0b}", "\u{0c}", " ", "\t"] {
        let content = format!("---\n{whitespace}\nkey: value\n---\n\nBody\n");
        assert!(
            fm_parse(&content).metadata.is_none(),
            "a first line of {whitespace:?} is blank, so this is a thematic break"
        );
        assert!(fm_parse(&content).diagnostics.is_empty(), "and a thematic break is not an unreadable block");
    }
}

#[test]
fn a_blank_first_line_makes_it_a_thematic_break() {
    assert!(fm_parse("---\n\nkey: v\n---\n\nBody\n").metadata.is_none());
    assert!(fm_parse("---\nkey: v\n\nother: w\n---\n\nBody\n").metadata.is_some());
}

#[test]
fn an_unreadable_block_is_reported_rather_than_dropped() {
    let result = fm_parse("---\nJust A Title\n---\n\nBody\n");
    assert!(result.metadata.is_none());
    let diagnostic = result.diagnostics.first().expect("a claimed block that is not a mapping is reported");
    assert_eq!(diagnostic.rule, UNREADABLE_FRONTMATTER);
    assert_eq!(diagnostic.line, Some(1));
    assert!(fm_parse("# Body\n\ntext\n").diagnostics.is_empty());
    assert!(fm_parse("---\ntitle: Doc\n---\n\nBody\n").diagnostics.is_empty());
}

#[test]
fn a_literal_nul_makes_the_whole_recognized_block_unreadable() {
    for block in [
        "\0\nsources: ./target.md",
        "note: \0\nsources: ./target.md",
        "note: before\0after\nsources: ./target.md",
        "note: ok # before\0after\nsources: ./target.md",
        "note: |\n  before\0after\nsources: ./target.md",
        "sour\0ces: ./target.md",
        "sources: ./target.md\n\0",
        "{sources: ./target.md}\0",
    ] {
        let result = fm_parse_with(&format!("---\n{block}\n---\nbody\n"), &["sources"]);
        assert!(result.metadata.is_none(), "prefix metadata survived {block:?}");
        assert!(result.links.is_empty(), "prefix edges survived {block:?}");
        assert_eq!(result.diagnostics.len(), 1, "diagnostic for {block:?}");
        assert_eq!(result.diagnostics[0].rule, UNREADABLE_FRONTMATTER);
        assert_eq!(result.diagnostics[0].line, Some(1));
    }
}

#[test]
fn escaped_or_outside_nuls_do_not_make_frontmatter_unreadable() {
    for content in [
        "---\nnote: \\\\0\n---\nbody\n",
        "---\nnote: clean\n---\nbody\0\n",
        "---\n{note: clean} # trailing comment\n---\nbody\n",
        "---\nnote: café\n---\nbody\n",
    ] {
        let result = fm_parse_with(content, &[]);
        assert!(result.metadata.is_some(), "valid block rejected: {content:?}");
        assert!(result.diagnostics.is_empty(), "valid block reported: {content:?}");
    }
}

#[test]
fn an_opening_fence_owns_its_line_even_when_a_closer_follows() {
    assert!(fm_parse("---key: v\nfoo: bar\n---\n\nBody\n").metadata.is_none());
    assert!(
        fm_parse("---key: v\nfoo: bar\n---\n\nBody\n").diagnostics.is_empty(),
        "text that is not a block is not an unreadable block"
    );
}

#[test]
fn a_first_line_that_is_a_closing_fence_opens_nothing() {
    for content in ["---\n---\n\n# Head\n", "---\n...\nkey: v\n---\n\nBody\n", "---\n---\nkey: v\n---\n\nBody\n"] {
        let result = fm_parse(content);
        assert!(result.metadata.is_none(), "no block in {content:?}");
        assert!(result.diagnostics.is_empty(), "and nothing to report in {content:?}");
    }
}

#[test]
fn the_opening_fence_line_is_fence_rather_than_content() {
    let vertical_tab = fm_parse("---\u{0b}\nkey: v\n---\n\nBody\n");
    assert!(vertical_tab.metadata.is_none());
    assert!(vertical_tab.diagnostics.is_empty(), "a vertical tab does not open a fence, so there is no block to report");
    let form_feed = fm_parse("---\u{0c}\nkey: v\n---\n\nBody\n");
    assert!(form_feed.diagnostics.is_empty());
    let meta = form_feed.metadata.expect("the block reads");
    assert_eq!(text(meta.get("key")), Some("v".to_string()), "a form feed after the opening fence does not reach the YAML");
}

#[test]
fn a_block_below_a_blank_first_line_is_not_frontmatter() {
    let content = "   \n---\nsources:\n  - ./target.md\n---\n\n# Body\n";
    let result = fm_parse_with(content, &["sources"]);
    assert!(result.metadata.is_none());
    assert!(result.links.is_empty());
    assert!(result.diagnostics.is_empty(), "there is no block here to report as unreadable");
}

#[test]
fn an_opening_fence_must_own_its_line() {
    let result = fm_parse("---key: v\n---\n\n# Body\n");
    assert!(result.metadata.is_none());
}

#[test]
fn extracts_frontmatter_links() {
    let content = "---\nsources:\n  - ../shared/glossary.md\n  - ./prior-art.md\n---\n\n# Hello\n";
    let result = fm_parse(content);
    assert_eq!(result.links.len(), 2);
    assert_eq!(result.links[0].target, "../shared/glossary.md");
    assert_eq!(result.links[1].target, "./prior-art.md");
}

#[test]
fn extracts_same_directory_links() {
    let content = "---\nsources:\n  - setup.md\n  - config.rs\n---\n";
    let result = fm_parse(content);
    assert_eq!(result.links.len(), 2);
    assert_eq!(result.links[0].target, "setup.md");
    assert_eq!(result.links[1].target, "config.rs");
}

#[test]
fn frontmatter_records_link_line_numbers() {
    let content = "---\ntitle: Doc\nsources:\n  - setup.md\n  - other.md\n---\n";
    let result = fm_parse(content);
    let setup = result.links.iter().find(|l| l.target == "setup.md").unwrap();
    assert_eq!(setup.line, Some(4));
    let other = result.links.iter().find(|l| l.target == "other.md").unwrap();
    assert_eq!(other.line, Some(5));
}

#[test]
fn malformed_yaml_contributes_nothing() {
    let result = fm_parse("---\nsources: [a, b\n---\n");
    assert!(result.links.is_empty());
    assert!(result.metadata.is_none());
}

#[test]
fn edge_keys_scope_excludes_other_keys() {
    let content = "---\nsources:\n  - ../src/lib.rs\nroute: /customers\npaths:\n  - \"api/openapi.yaml\"\n---\n";
    assert_eq!(scoped(content, &["sources"]), vec!["../src/lib.rs"]);
}

#[test]
fn edge_keys_scope_takes_whole_subtree() {
    let content = "---\nsources:\n  primary:\n    - ../a.rs\n  secondary: ../b.rs\n---\n";
    let mut got = scoped(content, &["sources"]);
    got.sort();
    assert_eq!(got, vec!["../a.rs", "../b.rs"]);
}

#[test]
fn edge_keys_scope_finds_nested_key() {
    let content = "---\nmeta:\n  sources:\n    - ../a.rs\n---\n";
    assert_eq!(scoped(content, &["sources"]), vec!["../a.rs"]);
}

#[test]
fn edge_keys_scope_keeps_line_numbers() {
    let content = "---\ntitle: T\nsources:\n  - ../a.rs\n---\n";
    let parser = FrontmatterParser { file_filter: None, edge_keys: vec!["sources".to_string()] };
    let links = parser.parse("doc.md", content).links;
    assert_eq!(links[0].line, Some(4));
}

#[test]
fn edge_keys_scope_leaves_metadata_whole() {
    let content = "---\ntitle: T\nroute: /customers\nsources:\n  - ../a.rs\n---\n";
    let parser = FrontmatterParser { file_filter: None, edge_keys: vec!["sources".to_string()] };
    let meta = parser.parse("doc.md", content).metadata.unwrap();
    assert_eq!(text(meta.get("title")), Some("T".to_string()));
    assert_eq!(text(meta.get("route")), Some("/customers".to_string()));
}

#[test]
fn frontmatter_skips_code_block_examples() {
    let content = "# Doc\n\n```markdown\n---\nsources:\n  - ./fake.md\n---\n```\n";
    let result = fm_parse(content);
    assert!(result.links.is_empty(), "frontmatter inside code block should be ignored");
    assert!(result.metadata.is_none());
}

#[test]
fn extracts_metadata() {
    let content = "---\ntitle: My Doc\nstatus: draft\ntags:\n  - rust\n  - cli\n---\n\n# Hello\n";
    let result = fm_parse(content);
    let meta = result.metadata.unwrap();
    assert_eq!(text(meta.get("title")), Some("My Doc".to_string()));
    assert_eq!(text(meta.get("status")), Some("draft".to_string()));
    let tags: Vec<String> = match meta.get("tags") {
        Some(YamlNode::List(items)) => items.iter().filter_map(|i| text(Some(i))).collect(),
        _ => Vec::new(),
    };
    assert_eq!(tags, vec!["rust", "cli"]);
}

#[test]
fn no_metadata_without_frontmatter() {
    let result = fm_parse("# Just a heading\n");
    assert!(result.metadata.is_none());
}

#[test]
fn metadata_keeps_code_spans_in_values() {
    let content = "---\npurpose: A code span like `widget-loader` and a path `claims.md`.\ntitle: the `Foo` service\n---\n";
    let meta = fm_parse(content).metadata.unwrap();
    assert_eq!(text(meta.get("purpose")), Some("A code span like `widget-loader` and a path `claims.md`.".to_string()));
    assert_eq!(text(meta.get("title")), Some("the `Foo` service".to_string()));
}

#[test]
fn a_stray_backtick_keeps_both_the_metadata_and_the_edges() {
    let content = "---\npurpose: a `widget\nsources:\n  - b.md\n---\n\n# Body with a `code span`\n";
    let result = fm_parse(content);
    let meta = result.metadata.expect("metadata comes from the raw block");
    assert_eq!(text(meta.get("purpose")), Some("a `widget".to_string()));
    assert_eq!(result.links.len(), 1, "the declared source is still an edge");
    assert_eq!(result.links[0].target, "b.md");
    assert_eq!(result.links[0].line, Some(4), "and its line is file-accurate");
}

#[test]
fn a_span_crossing_the_fence_neither_drops_nor_invents_an_edge() {
    let lifted = "---\na: `x\n---\ny`\ndeps: ./t.md\n---\n\n# Body\n";
    let result = fm_parse(lifted);
    assert!(result.links.is_empty(), "body prose is not a declared source");
    assert!(result.metadata.is_none(), "and the block is not frontmatter");
    let dropped = "---\nsources:\n  - ./t.md\nnote: \"has a ` backtick\"\n---\n\n# B\n\nA `code` span.\n";
    let result = fm_parse(dropped);
    assert_eq!(result.links.len(), 1, "the declared source survives");
    assert_eq!(result.links[0].target, "./t.md");
}

#[test]
fn a_span_hiding_a_colon_makes_the_block_unreadable() {
    let content = "---\ntitle: x `key: value`\nstatus: draft\n---\n";
    let result = fm_parse(content);
    assert!(result.metadata.is_none());
    assert_eq!(result.diagnostics.len(), 1);
    assert_eq!(result.diagnostics[0].rule, UNREADABLE_FRONTMATTER);
}

#[test]
fn a_value_opening_with_a_code_span_makes_the_block_unreadable() {
    let content = "---\npurpose: `widget-loader` is the entry point\nstatus: ok\n---\n";
    let result = fm_parse(content);
    assert!(result.metadata.is_none());
    assert_eq!(result.diagnostics[0].rule, UNREADABLE_FRONTMATTER);
}

#[test]
fn block_scalar_with_code_span_survives_whole() {
    let content = "---\npurpose: |\n  Plain words. A span like `widget-loader` stays.\nsources:\n  - b.md\n---\n";
    let result = fm_parse(content);
    assert_eq!(
        text(result.metadata.as_ref().unwrap().get("purpose")),
        Some("Plain words. A span like `widget-loader` stays.\n".to_string())
    );
    assert_eq!(result.links.len(), 1);
    assert_eq!(result.links[0].target, "b.md");
}

#[test]
fn metadata_handles_nested_yaml() {
    let content = "---\ntitle: Test\nauthor:\n  name: Alice\n  role: dev\n---\n";
    let result = fm_parse(content);
    let meta = result.metadata.unwrap();
    let author = meta.get("author").expect("a nested mapping");
    assert_eq!(text(author.get("name")), Some("Alice".to_string()));
    assert_eq!(text(author.get("role")), Some("dev".to_string()));
}

#[test]
fn frontmatter_no_filter_matches_everything() {
    let parser = FrontmatterParser { file_filter: None, edge_keys: Vec::new() };
    assert!(parser.matches("index.md"));
    assert!(parser.matches("main.rs"));
}

#[test]
fn frontmatter_file_filter_restricts_matching() {
    let filter = drft::config::compile_globs(&vec!["*.md".to_string()]).unwrap();
    let parser = FrontmatterParser { file_filter: filter, edge_keys: Vec::new() };
    assert!(parser.matches("index.md"));
    assert!(!parser.matches("main.rs"));
}

#[test]
fn extracts_uris() {
    let content = "---\nsources:\n  - https://example.com\n  - ./local.md\n---\n";
    let result = fm_parse(content);
    assert_eq!(result.links.len(), 2);
    assert_eq!(result.links[0].target, "https://example.com");
    assert_eq!(result.links[1].target, "./local.md");
}

#[test]
fn accepts_paths_without_prefix() {
    let content = "---\nsources:\n  - config.rs\n  - docs/setup.md\n---\n";
    let result = fm_parse(content);
    assert_eq!(result.links.len(), 2);
    assert_eq!(result.links[0].target, "config.rs");
    assert_eq!(result.links[1].target, "docs/setup.md");
}

#[test]
fn emits_absolute_paths() {
    let content = "---\nsource: /usr/local/config.toml\n---\n";
    let result = fm_parse_with(content, &["source"]);
    assert_eq!(result.links.len(), 1);
    assert_eq!(result.links[0].target, "/usr/local/config.toml");
}

#[test]
fn prose_under_a_declared_key_is_an_edge() {
    let content = "---\nsources:\n  - TBD\n  - needs review\n  - v2.0\n  - 2026-01-01\n---\n";
    assert_eq!(scoped(content, &["sources"]), vec!["TBD", "needs review", "v2.0", "2026-01-01"]);
}

#[test]
fn a_value_naming_a_directory_is_an_edge() {
    let content = "---\nsources: docs\n---\n";
    assert_eq!(scoped(content, &["sources"]), vec!["docs"]);
}

#[test]
fn a_markdown_link_value_is_not_unwrapped() {
    let content = "---\nsources: \"[Design notes](real.md)\"\n---\n";
    assert_eq!(scoped(content, &["sources"]), vec!["[Design notes](real.md)"]);
}

#[test]
fn a_path_carrying_a_fragment_keeps_it() {
    let content = "---\nsources: ./real.md#section\n---\n";
    assert_eq!(scoped(content, &["sources"]), vec!["./real.md#section"]);
}

#[test]
fn non_string_scalars_are_not_edges() {
    let content = "---\nsources:\n  - 42\n  - true\n  - null\n---\n";
    assert!(scoped(content, &["sources"]).is_empty());
}

#[test]
fn an_undeclared_key_yields_no_edge() {
    let content = "---\nroute: /customers\nsources: ./a.md\n---\n";
    assert_eq!(scoped(content, &["sources"]), vec!["./a.md"]);
}

#[test]
fn no_declared_keys_yields_no_edges() {
    let content = "---\ntitle: T\nsources: ./a.md\n---\n";
    let result = fm_parse_with(content, &[]);
    assert!(result.links.is_empty());
    assert_eq!(text(result.metadata.unwrap().get("title")), Some("T".to_string()));
}

#[test]
fn the_block_runs_between_the_fence_lines() {
    assert_eq!(frontmatter_block("---\ntitle: x\n---\nbody\n"), Some("\ntitle: x"));
    assert_eq!(frontmatter_block("no block\n"), None);
}

#[test]
fn only_a_mapping_or_unreadable_block_is_masked() {
    assert_eq!(mapping_block_end("---\ntitle: x\n---\nbody\n"), Some(16));
    assert_eq!(mapping_block_end("---\n# a comment\n---\nbody\n"), None);
    assert_eq!(mapping_block_end("---\nJust text\n---\n"), None);
    assert_eq!(mapping_block_end("---\nk: [a\n---\n"), Some(13));
}

#[test]
fn leading_byte_order_marks_are_all_stripped() {
    assert_eq!(strip_marks("\u{feff}\u{feff}---\ntitle: x\n---\n"), "---\ntitle: x\n---\n");
    assert_eq!(strip_marks("no mark\u{feff}"), "no mark\u{feff}");
    assert_eq!(strip_marks(""), "");
}

#[test]
fn key_lists_read_as_prose() {
    assert_eq!(render_keys(&vec![]), "");
    assert_eq!(render_keys(&vec!["a".to_string()]), "`a`");
    assert_eq!(render_keys(&vec!["a".to_string(), "b".to_string()]), "`a` and `b`");
    assert_eq!(render_keys(&vec!["a".to_string(), "b".to_string(), "c".to_string()]), "`a`, `b` and `c`");
}

#[test]
fn edge_keys_hint_names_why_nothing_was_yielded() {
    let keys = vec!["sources".to_string()];
    assert!(edge_keys_hint("fm", &keys, 1, 1, 0).is_none());
    assert!(edge_keys_hint("fm", &vec![], 0, 1, 0).is_none());
    let all_failed = edge_keys_hint("fm", &keys, 0, 1, 1).unwrap();
    assert_eq!(all_failed.name, "edge-keys-matched-nothing");
    assert_eq!(all_failed.locus.as_deref(), Some("graphs.fm"));
    assert_eq!(all_failed.message, "declares `sources` but yielded no edges; matched files could not be read");
    assert_eq!(all_failed.next.as_deref(), Some("repair the unreadable files matched by this graph, then rerun"));
    let some_failed = edge_keys_hint("fm", &keys, 0, 2, 1).unwrap();
    assert!(some_failed.message.contains("some matched files could not be read"));
    assert_eq!(
        some_failed.next.as_deref(),
        Some(
            "repair the unreadable files matched by this graph, then rerun; if no edges remain, check the declared keys, files globs, ignore patterns, and string values"
        )
    );
    let read = edge_keys_hint("fm", &keys, 0, 2, 0).unwrap();
    assert_eq!(read.message, "declares `sources` but nothing under it yielded an edge");
    assert!(read.next.unwrap().contains("spelling"));
    let two = edge_keys_hint("fm", &vec!["a".to_string(), "b".to_string()], 0, 2, 0).unwrap();
    assert_eq!(two.message, "declares `a` and `b` but nothing under any of them yielded an edge");
    let none = edge_keys_hint("fm", &keys, 0, 0, 0).unwrap();
    assert_eq!(none.message, "declares `sources`, but no file was read for this graph");
    assert!(none.next.unwrap().contains("globs"));
}

#[test]
fn undecodable_files_get_one_finding() {
    let f = unreadable_text_finding("bin.md", vec!["@markdown".to_string()]);
    assert_eq!(f.name, "unreadable-text");
    assert_eq!(f.subject, "bin.md");
    assert_eq!(f.graphs, vec!["@markdown".to_string()]);
    assert_eq!(f.message, "file is not valid UTF-8, so matched text graphs could not read its edges or metadata");
}

#[test]
fn frontmatter_metadata_keeps_every_scalar() {
    let result = FrontmatterParser { file_filter: None, edge_keys: Vec::new() }
        .parse("a.md", "---\ntitle: A\ndraft: true\ncount: -3\nratio: 1.5\nnone: ~\ntags: [x, 2]\n1: one\n---\n");
    let root = result.metadata.expect("a mapping");
    let fields = match frontmatter_metadata(&root) {
        MetaValue::Object(fs) => fs,
        other => panic!("expected an object, got {other:?}"),
    };
    let keys: Vec<&str> = fields.iter().map(|(k, _)| k.as_str()).collect();
    assert_eq!(keys, vec!["title", "draft", "count", "ratio", "none", "tags", "1"]);
    assert!(matches!(&fields[0].1, MetaValue::Str(s) if s == "A"));
    assert!(matches!(fields[1].1, MetaValue::Bool(true)));
    assert!(matches!(fields[2].1, MetaValue::Int(-3)));
    assert!(matches!(&fields[3].1, MetaValue::Float(t) if t == "1.5"));
    assert!(matches!(fields[4].1, MetaValue::Null));
    match &fields[5].1 {
        MetaValue::List(items) => {
            assert!(matches!(&items[0], MetaValue::Str(s) if s == "x"));
            assert!(matches!(items[1], MetaValue::Int(2)));
        }
        other => panic!("expected a list, got {other:?}"),
    }
    assert!(matches!(&fields[6].1, MetaValue::Str(s) if s == "one"));
}

#[test]
fn configured_graphs_read_their_scoped_files() {
    use_read_graphs();
}

fn use_read_graphs() {
    let md = drft::config::GraphConfig { files: vec!["*.md".to_string()], parser: "markdown".to_string(), edge_keys: vec![] };
    let fm = drft::config::GraphConfig { files: vec![], parser: "frontmatter".to_string(), edge_keys: vec!["sources".to_string()] };
    let graphs = vec![("markdown".to_string(), md), ("fm".to_string(), fm)];
    let files: Vec<(String, Option<&str>, bool)> = vec![
        ("a.md".to_string(), Some("[b](b.md)\n"), true),
        ("bin.md".to_string(), None, true),
        ("c.txt".to_string(), Some("plain"), true),
    ];
    let (reads, findings) = drft::graphs::read_graphs(&graphs, &files).unwrap();
    assert_eq!(reads.len(), 2);
    let md_paths: Vec<&str> = reads[0].files.iter().map(|f| f.path.as_str()).collect();
    assert_eq!(md_paths, vec!["a.md"]);
    assert_eq!(reads[0].files[0].edges[0].target, "b.md");
    assert!(reads[0].hint.is_none());
    assert_eq!(reads[1].files.len(), 2);
    let hint = reads[1].hint.as_ref().unwrap();
    assert_eq!(hint.message, "declares `sources` but yielded no edges; some matched files could not be read");
    assert_eq!(findings.len(), 1);
    assert_eq!(findings[0].subject, "bin.md");
    assert_eq!(findings[0].graphs, vec!["@fm".to_string(), "@markdown".to_string()]);
    let bad = vec![("x".to_string(), drft::config::GraphConfig { files: vec!["a[".to_string()], parser: "markdown".to_string(), edge_keys: vec![] })];
    assert!(drft::graphs::read_graphs(&bad, &files).is_err());
}

#[test]
fn the_line_table_has_one_entry_per_row_and_steps_by_at_most_one() {
    for text in ["", "a", "a: 1\n", "a\r\nb\rc\n\r\n", "\n\n\r\r", "x\u{2028}y\r"] {
        let chars: Vec<char> = text.chars().collect();
        let opened = (0..chars.len())
            .filter(|&i| chars[i] == '\n' || (chars[i] == '\r' && chars.get(i + 1) != Some(&'\n')))
            .count();
        let table = line_table(text);
        assert_eq!(table.len(), 1 + opened, "{text:?}");
        assert_eq!(table[0], 1, "{text:?}");
        for pair in table.windows(2) {
            assert!(pair[0] <= pair[1] && pair[1] <= pair[0] + 1, "{text:?}");
        }
        assert_eq!(*table.last().unwrap(), 1 + text.matches('\n').count(), "{text:?}");
    }
}

#[test]
fn an_ascii_anchor_is_short_and_its_own_anchor() {
    for text in ["OBS-92: Sampling gap", "What now?", "snake_case and kebab-case", "50% done", "!!!", ""] {
        let s = slug(text);
        assert!(s.len() <= text.len(), "{text:?}");
        assert_eq!(slug(&s), s, "{text:?}");
        assert!(s.chars().all(|c| c.is_ascii_lowercase() || c.is_ascii_digit() || c == '_' || c == '-'));
    }
}
