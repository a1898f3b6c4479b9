//! What the parsers share: the anchors headings define, and the line
//! bookkeeping of frontmatter blocks.

pub mod frontmatter;
pub mod html;
pub mod markdown;
pub mod slug;

use vstd::prelude::*;
use crate::config::{globs_match, Globs};
use crate::parsers::frontmatter::{frontmatter_parse_ok, parse_frontmatter, YamlNode};
use crate::parsers::markdown::{body_events, body_text, extract_anchors, found_links, links_match, parse_markdown};
use crate::text::views;
use vstd::utf8::encode_utf8;

verus! {

/// One link discovered by a parser: its raw target as it appears in the
/// source, and the 1-based line it occurs on (`None` when the parser cannot
/// place it).
#[derive(Debug, Clone)]
pub struct Link {
    pub target: String,
    pub line: Option<usize>,
}

/// Something a parser recognized and could not read, named so a rule can
/// report it: the rule it becomes, a message, and the 1-based line where the
/// parser can place it.
#[derive(Debug, Clone)]
pub struct Diagnostic {
    pub rule: &'static str,
    pub message: String,
    pub line: Option<usize>,
}

/// What a parser reads from one file: the links it makes, the anchors it
/// answers to, the metadata it carries (a frontmatter block's YAML mapping),
/// and what it recognized and could not read.
#[derive(Debug)]
pub struct ParseResult {
    pub links: Vec<Link>,
    pub anchors: Vec<String>,
    pub metadata: Option<YamlNode>,
    pub diagnostics: Vec<Diagnostic>,
}

/// The built-in markdown parser: inline, reference and autolinks and images,
/// and the anchors of headings and `<a>` elements.
pub struct MarkdownParser {
    /// Which files it reads; `None` reads every file.
    pub file_filter: Option<Globs>,
}

impl MarkdownParser {
    /// Whether the parser reads the file at `path`: every file without a
    /// filter, else the files its globs match.
    pub fn matches(&self, path: &str) -> (r: bool)
        ensures
            r == match self.file_filter {
                Some(g) => globs_match(g@, path@),
                None => true,
            },
    {
        match &self.file_filter {
            Some(set) => set.is_match(path),
            None => true,
        }
    }

    /// Read a file, as [`parse_markdown`] does.
    pub fn parse(&self, path: &str, content: &str) -> (r: ParseResult)
        ensures
            links_match(
                r.links@,
                found_links(
                    body_events(body_text(content)),
                    body_events(body_text(content)).len() as int,
                    encode_utf8(body_text(content)),
                ),
            ),
            views(r.anchors@) == extract_anchors(body_events(body_text(content))),
            r.metadata is None,
            r.diagnostics@.len() == 0,
    {
        parse_markdown(content)
    }
}

/// The built-in frontmatter parser: a leading YAML block as metadata, and
/// the strings under its declared keys as links.
pub struct FrontmatterParser {
    /// Which files it reads; `None` reads every file.
    pub file_filter: Option<Globs>,
    /// Keys whose values yield edges. Empty means no edges: a frontmatter
    /// graph may exist purely to seed node metadata.
    pub edge_keys: Vec<String>,
}

impl FrontmatterParser {
    /// Whether the parser reads the file at `path`: every file without a
    /// filter, else the files its globs match.
    pub fn matches(&self, path: &str) -> (r: bool)
        ensures
            r == match self.file_filter {
                Some(g) => globs_match(g@, path@),
                None => true,
            },
    {
        match &self.file_filter {
            Some(set) => set.is_match(path),
            None => true,
        }
    }

    /// Read a file, as [`parse_frontmatter`] does with this parser's keys.
    pub fn parse(&self, path: &str, content: &str) -> (r: ParseResult)
        ensures
            frontmatter_parse_ok(content, views(self.edge_keys@), r),
    {
        parse_frontmatter(content, &self.edge_keys)
    }
}

} // verus!
