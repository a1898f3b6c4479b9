//! The markdown parser: the links a document makes and the anchors it answers
//! to, read from the event stream of pulldown-cmark's CommonMark parser.
//!
//! Anchors come from two places, both of which a reader's platform resolves: a
//! heading, through the slug of its rendered text, and a raw `<a id>`/`<a name>`
//! element, verbatim. Heading text excludes image alt text, because the alt
//! attribute is not part of an element's text content.

use vstd::prelude::*;
use pulldown_cmark::{Event, LinkType, MetadataBlockKind, Options, Parser as CmarkParser, Tag, TagEnd};
use crate::parsers::{Link, ParseResult};
use crate::parsers::frontmatter::{mapping_block_end, mapping_end_spec};
use vstd::utf8::{encode_scalar, encode_utf8};
use crate::parsers::html::{html_anchor_ids, ids_from};
use crate::parsers::slug::{anchor_spec, anchors, slug_spec};
use crate::paths::{str_eq, trim_chars, trim_spec};
use crate::text::{chars_of, string_from_chars, views};
use crate::diagnostic::opt_view;
use vstd::string::StringSliceAdditionalSpecFns;

verus! {

/// One event of a parsed document, as far as the markdown parser reads it.
/// Element events carry what the parser needs of the element (a link's or an
/// image's destination); every event it does not read is `Other`.
#[derive(Debug)]
pub enum MdEvent {
    CodeBlockStart,
    CodeBlockEnd,
    HeadingStart,
    HeadingEnd,
    ImageStart(String),
    ImageEnd,
    LinkStart(String),
    EmailLinkStart,
    YamlBlockStart,
    Text(String),
    Code(String),
    Html(String),
    InlineHtml(String),
    SoftBreak,
    HardBreak,
    Other,
}

/// The byte range of each event pulldown-cmark yields for a document.
pub uninterp spec fn cmark_range_stream(content: Seq<char>, blocks: bool) -> Seq<(usize, usize)>;

/// Each event's reading as the start of an element the parser reads, or
/// `Other`.
pub uninterp spec fn cmark_start_stream(content: Seq<char>, blocks: bool) -> Seq<MdEvent>;

/// Each event's reading as the end of an element the parser reads, or
/// `Other`.
pub uninterp spec fn cmark_end_stream(content: Seq<char>, blocks: bool) -> Seq<MdEvent>;

/// Each event's reading as text, inline code, HTML or a line break, or
/// `Other`.
pub uninterp spec fn cmark_leaf_stream(content: Seq<char>, blocks: bool) -> Seq<MdEvent>;

/// `pulldown_cmark::Parser::new_ext(content, options).into_offset_iter()`,
/// with strikethrough enabled and YAML-style metadata blocks when `blocks` is
/// set: the byte range of each event. What the parser yields is CommonMark's
/// reading of the text; nothing here states it.
#[verifier::external_body]
fn cmark_ranges(content: &str, blocks: bool) -> (r: Vec<(usize, usize)>)
    ensures
        r@ == cmark_range_stream(content@, blocks),
{
    let mut opts = Options::ENABLE_STRIKETHROUGH;
    opts.set(Options::ENABLE_YAML_STYLE_METADATA_BLOCKS, blocks);
    CmarkParser::new_ext(content, opts).into_offset_iter().map(|(_, r)| (r.start, r.end)).collect()
}

/// The same parser over the same text and options, event for event: the
/// start of a code block, heading, image (with its destination), link (with
/// its destination; an email autolink apart) or YAML metadata block, or
/// `Other`.
#[verifier::external_body]
fn cmark_starts(content: &str, blocks: bool) -> (r: Vec<MdEvent>)
    ensures
        r@ == cmark_start_stream(content@, blocks),
{
    let mut opts = Options::ENABLE_STRIKETHROUGH;
    opts.set(Options::ENABLE_YAML_STYLE_METADATA_BLOCKS, blocks);
    let kind = |e: Event| match e {
        Event::Start(Tag::CodeBlock(_)) => MdEvent::CodeBlockStart,
        Event::Start(Tag::Heading { .. }) => MdEvent::HeadingStart,
        Event::Start(Tag::Image { dest_url, .. }) => MdEvent::ImageStart(dest_url.to_string()),
        Event::Start(Tag::Link { link_type: LinkType::Email, .. }) => MdEvent::EmailLinkStart,
        Event::Start(Tag::Link { dest_url, .. }) => MdEvent::LinkStart(dest_url.to_string()),
        Event::Start(Tag::MetadataBlock(MetadataBlockKind::YamlStyle)) => MdEvent::YamlBlockStart,
        _ => MdEvent::Other,
    };
    CmarkParser::new_ext(content, opts).map(kind).collect()
}

/// The same parser, event for event: the end of a code block, heading or
/// image, or `Other`.
#[verifier::external_body]
fn cmark_ends(content: &str, blocks: bool) -> (r: Vec<MdEvent>)
    ensures
        r@ == cmark_end_stream(content@, blocks),
{
    let mut opts = Options::ENABLE_STRIKETHROUGH;
    opts.set(Options::ENABLE_YAML_STYLE_METADATA_BLOCKS, blocks);
    let kind = |e: Event| match e {
        Event::End(TagEnd::CodeBlock) => MdEvent::CodeBlockEnd,
        Event::End(TagEnd::Heading(_)) => MdEvent::HeadingEnd,
        Event::End(TagEnd::Image) => MdEvent::ImageEnd,
        _ => MdEvent::Other,
    };
    CmarkParser::new_ext(content, opts).map(kind).collect()
}

/// The same parser, event for event: text, inline code, block or inline
/// HTML, a soft or hard line break, or `Other`.
#[verifier::external_body]
fn cmark_leaves(content: &str, blocks: bool) -> (r: Vec<MdEvent>)
    ensures
        r@ == cmark_leaf_stream(content@, blocks),
{
    let mut opts = Options::ENABLE_STRIKETHROUGH;
    opts.set(Options::ENABLE_YAML_STYLE_METADATA_BLOCKS, blocks);
    let kind = |e: Event| match e {
        Event::Text(s) => MdEvent::Text(s.to_string()),
        Event::Code(s) => MdEvent::Code(s.to_string()),
        Event::Html(s) => MdEvent::Html(s.to_string()),
        Event::InlineHtml(s) => MdEvent::InlineHtml(s.to_string()),
        Event::SoftBreak => MdEvent::SoftBreak,
        Event::HardBreak => MdEvent::HardBreak,
        _ => MdEvent::Other,
    };
    CmarkParser::new_ext(content, opts).map(kind).collect()
}

/// The reading of one event: the first of its start, end and leaf readings
/// that is not `Other`.
pub open spec fn pick_event(start: MdEvent, end: MdEvent, leaf: MdEvent) -> MdEvent {
    if !(start is Other) {
        start
    } else if !(end is Other) {
        end
    } else {
        leaf
    }
}

/// The document's events, each read and paired with its byte range.
pub open spec fn merge_events(
    starts: Seq<MdEvent>,
    ends: Seq<MdEvent>,
    leaves: Seq<MdEvent>,
    ranges: Seq<(usize, usize)>,
) -> Seq<(MdEvent, usize, usize)> {
    let n = min_len(starts.len(), ends.len(), leaves.len(), ranges.len());
    Seq::new(n, |k: int| (pick_event(starts[k], ends[k], leaves[k]), ranges[k].0, ranges[k].1))
}

/// The least of four lengths.
pub open spec fn min_len(a: nat, b: nat, c: nat, d: nat) -> nat {
    let ab = if a < b { a } else { b };
    let cd = if c < d { c } else { d };
    if ab < cd { ab } else { cd }
}

/// The events of one parse of `content` (`blocks` enables YAML metadata
/// blocks), each read and paired with its byte range.
pub open spec fn cmark_events(content: Seq<char>, blocks: bool) -> Seq<(MdEvent, usize, usize)> {
    merge_events(
        cmark_start_stream(content, blocks),
        cmark_end_stream(content, blocks),
        cmark_leaf_stream(content, blocks),
        cmark_range_stream(content, blocks),
    )
}

/// The events of one parse of `content`, each read and paired with its byte
/// range.
pub fn markdown_events(content: &str, blocks: bool) -> (r: Vec<(MdEvent, usize, usize)>)
    ensures
        r@ == cmark_events(content@, blocks),
{
    let mut starts = cmark_starts(content, blocks);
    let mut ends = cmark_ends(content, blocks);
    let mut leaves = cmark_leaves(content, blocks);
    let mut ranges = cmark_ranges(content, blocks);
    let ghost merged = cmark_events(content@, blocks);
    let ab = if starts.len() < ends.len() { starts.len() } else { ends.len() };
    let cd = if leaves.len() < ranges.len() { leaves.len() } else { ranges.len() };
    let n = if ab < cd { ab } else { cd };
    starts.truncate(n);
    ends.truncate(n);
    leaves.truncate(n);
    ranges.truncate(n);
    let ghost s0 = starts@;
    let ghost e0 = ends@;
    let ghost l0 = leaves@;
    let ghost r0 = ranges@;
    let mut rev: Vec<(MdEvent, usize, usize)> = Vec::new();
    let mut k: usize = n;
    while k > 0
        invariant
            k <= n,
            merged.len() == n,
            s0.len() == n && e0.len() == n && l0.len() == n && r0.len() == n,
            forall|j: int| 0 <= j < n ==> #[trigger] merged[j] == (pick_event(s0[j], e0[j], l0[j]), r0[j].0, r0[j].1),
            starts@ == s0.subrange(0, k as int),
            ends@ == e0.subrange(0, k as int),
            leaves@ == l0.subrange(0, k as int),
            ranges@ == r0.subrange(0, k as int),
            rev@.len() == n - k,
            forall|j: int| 0 <= j < n - k ==> #[trigger] rev@[j] == merged[n - 1 - j],
        decreases k,
    {
        let s = starts.pop().unwrap();
        let e = ends.pop().unwrap();
        let l = leaves.pop().unwrap();
        let (a, b) = ranges.pop().unwrap();
        let ev = match s {
            MdEvent::Other => match e {
                MdEvent::Other => l,
                e => e,
            },
            s => s,
        };
        rev.push((ev, a, b));
        k = k - 1;
    }
    let mut out: Vec<(MdEvent, usize, usize)> = Vec::new();
    while rev.len() > 0
        invariant
            merged.len() == n,
            rev@.len() + out@.len() == n,
            forall|j: int| 0 <= j < rev@.len() ==> #[trigger] rev@[j] == merged[n - 1 - j],
            forall|j: int| 0 <= j < out@.len() ==> #[trigger] out@[j] == merged[j],
        decreases rev@.len(),
    {
        let item = rev.pop().unwrap();
        out.push(item);
    }
    assert(out@ =~= merged);
    out
}

// ---------------------------------------------------------------------------
// What the event stream means

/// Whether the first `k` events leave the reader inside a code block.
pub open spec fn in_code(evs: Seq<(MdEvent, usize, usize)>, k: int) -> bool
    decreases k,
{
    if k <= 0 || k > evs.len() {
        false
    } else {
        match evs[k - 1].0 {
            MdEvent::CodeBlockStart => true,
            MdEvent::CodeBlockEnd => false,
            _ => in_code(evs, k - 1),
        }
    }
}

/// How many images the first `k` events leave open.
pub open spec fn image_depth(evs: Seq<(MdEvent, usize, usize)>, k: int) -> nat
    decreases k,
{
    if k <= 0 || k > evs.len() {
        0
    } else {
        let d = image_depth(evs, k - 1);
        match evs[k - 1].0 {
            MdEvent::ImageStart(_) => d + 1,
            MdEvent::ImageEnd => if d > 0 { (d - 1) as nat } else { 0 },
            _ => d,
        }
    }
}

/// The rendered text of the heading the first `k` events leave open, if one
/// is: text and inline code outside image alt text, and a line feed for each
/// line break (which the slug drops).
pub open spec fn heading_text(evs: Seq<(MdEvent, usize, usize)>, k: int) -> Option<Seq<char>>
    decreases k,
{
    if k <= 0 || k > evs.len() {
        None
    } else {
        let prev = heading_text(evs, k - 1);
        match evs[k - 1].0 {
            MdEvent::HeadingStart => Some(Seq::empty()),
            MdEvent::HeadingEnd => None,
            MdEvent::Text(t) => match prev {
                Some(b) => if image_depth(evs, k - 1) == 0 { Some(b + t@) } else { prev },
                None => None,
            },
            MdEvent::Code(t) => match prev {
                Some(b) => if image_depth(evs, k - 1) == 0 { Some(b + t@) } else { prev },
                None => None,
            },
            MdEvent::SoftBreak => match prev {
                Some(b) => Some(b.push('\n')),
                None => None,
            },
            MdEvent::HardBreak => match prev {
                Some(b) => Some(b.push('\n')),
                None => None,
            },
            _ => prev,
        }
    }
}

/// How many line feeds the first `n` bytes hold.
pub open spec fn newline_count(bytes: Seq<u8>, n: int) -> nat
    decreases n,
{
    if n <= 0 || n > bytes.len() {
        0
    } else {
        newline_count(bytes, n - 1) + if bytes[n - 1] == 10u8 { 1nat } else { 0nat }
    }
}

/// The 1-based line holding byte `off`.
pub open spec fn line_at(bytes: Seq<u8>, off: int) -> nat {
    1 + newline_count(bytes, if off < bytes.len() { off } else { bytes.len() as int })
}

/// The link a destination makes at byte `off`: its trimmed text, unless that
/// is empty.
pub open spec fn link_of(dest: Seq<char>, off: int, bytes: Seq<u8>) -> Seq<(Seq<char>, nat)> {
    let t = trim_spec(dest);
    if t.len() == 0 {
        Seq::empty()
    } else {
        seq![(t, line_at(bytes, off))]
    }
}

/// The links the first `k` events make, with their lines: images and links
/// outside code blocks, but not email autolinks.
pub open spec fn found_links(evs: Seq<(MdEvent, usize, usize)>, k: int, bytes: Seq<u8>) -> Seq<(Seq<char>, nat)>
    decreases k,
{
    if k <= 0 || k > evs.len() {
        Seq::empty()
    } else {
        let prev = found_links(evs, k - 1, bytes);
        match evs[k - 1].0 {
            MdEvent::ImageStart(d) => if in_code(evs, k - 1) { prev } else { prev + link_of(d@, evs[k - 1].1 as int, bytes) },
            MdEvent::LinkStart(d) => if in_code(evs, k - 1) { prev } else { prev + link_of(d@, evs[k - 1].1 as int, bytes) },
            _ => prev,
        }
    }
}

/// Tag each address an HTML chunk declares as not a heading.
pub open spec fn html_items(ids: Seq<Seq<char>>) -> Seq<(bool, Seq<char>)> {
    ids.map_values(|x: Seq<char>| (false, x))
}

/// The addresses the first `k` events define, in order: a heading's text
/// (marked `true`) when it closes, and the ids of `<a>` elements in HTML
/// outside code blocks.
pub open spec fn anchor_items(evs: Seq<(MdEvent, usize, usize)>, k: int) -> Seq<(bool, Seq<char>)>
    decreases k,
{
    if k <= 0 || k > evs.len() {
        Seq::empty()
    } else {
        let prev = anchor_items(evs, k - 1);
        match evs[k - 1].0 {
            MdEvent::HeadingEnd => match heading_text(evs, k - 1) {
                Some(t) => prev.push((true, t)),
                None => prev,
            },
            MdEvent::Html(h) => if in_code(evs, k - 1) { prev } else { prev + html_items(ids_from(h@, 0)) },
            MdEvent::InlineHtml(h) => if in_code(evs, k - 1) { prev } else { prev + html_items(ids_from(h@, 0)) },
            _ => prev,
        }
    }
}

/// The heading texts among `items`, in order.
pub open spec fn heading_texts(items: Seq<(bool, Seq<char>)>) -> Seq<Seq<char>>
    decreases items.len(),
{
    if items.len() == 0 {
        Seq::empty()
    } else if items.last().0 {
        heading_texts(items.drop_last()).push(items.last().1)
    } else {
        heading_texts(items.drop_last())
    }
}

/// The slugs of the headings among `items`.
pub open spec fn heading_bases(items: Seq<(bool, Seq<char>)>) -> Seq<Seq<char>> {
    heading_texts(items).map_values(|t: Seq<char>| slug_spec(t))
}

/// The address item `i` stands for: a heading's slug, disambiguated against
/// the headings before it, or an HTML id verbatim.
pub open spec fn resolved_at(items: Seq<(bool, Seq<char>)>, i: int) -> Seq<char> {
    if items[i].0 {
        anchor_spec(heading_bases(items), heading_texts(items.subrange(0, i)).len() as int)
    } else {
        items[i].1
    }
}

/// Every item resolved to its address.
pub open spec fn resolved(items: Seq<(bool, Seq<char>)>) -> Seq<Seq<char>> {
    Seq::new(items.len(), |i: int| resolved_at(items, i))
}

/// `s` with each repeat of an earlier entry dropped.
pub open spec fn dedup_first(s: Seq<Seq<char>>) -> Seq<Seq<char>>
    decreases s.len(),
{
    if s.len() == 0 {
        Seq::empty()
    } else if s.drop_last().contains(s.last()) {
        dedup_first(s.drop_last())
    } else {
        dedup_first(s.drop_last()).push(s.last())
    }
}

/// The anchors a document's events define: every address once, in the order
/// it first appears.
pub open spec fn extract_anchors(evs: Seq<(MdEvent, usize, usize)>) -> Seq<Seq<char>> {
    dedup_first(resolved(anchor_items(evs, evs.len() as int)))
}

// ---------------------------------------------------------------------------
// Reading it

/// The byte count of line feeds before each position: entry `q` counts the
/// line feeds among the first `q` bytes.
fn newline_counts(bytes: &[u8]) -> (cum: Vec<usize>)
    ensures
        cum@.len() == bytes@.len() + 1,
        forall|q: int| 0 <= q <= bytes@.len() ==> #[trigger] cum@[q] == newline_count(bytes@, q),
        forall|q: int| 0 <= q <= bytes@.len() ==> cum@[q] <= q,
{
    let n = bytes.len();
    let mut cum: Vec<usize> = Vec::new();
    cum.push(0);
    let mut c: usize = 0;
    let mut j: usize = 0;
    while j < n
        invariant
            j <= n,
            n == bytes@.len(),
            cum@.len() == j + 1,
            c == newline_count(bytes@, j as int),
            c <= j,
            forall|q: int| 0 <= q <= j ==> #[trigger] cum@[q] == newline_count(bytes@, q),
            forall|q: int| 0 <= q <= j ==> cum@[q] <= q,
        decreases n - j,
    {
        if bytes[j] == 10u8 {
            c = c + 1;
        }
        j = j + 1;
        cum.push(c);
    }
    cum
}

/// The text/flag view of a list of addresses.
pub open spec fn item_views(items: Seq<(bool, String)>) -> Seq<(bool, Seq<char>)> {
    items.map_values(|it: (bool, String)| (it.0, it.1@))
}

proof fn lemma_heading_texts_grow(items: Seq<(bool, Seq<char>)>, i: int, j: int)
    requires
        0 <= i <= j <= items.len(),
    ensures
        heading_texts(items.subrange(0, i)).len() <= heading_texts(items.subrange(0, j)).len(),
    decreases j - i,
{
    if i < j {
        lemma_heading_texts_grow(items, i, j - 1);
        assert(items.subrange(0, j).drop_last() =~= items.subrange(0, j - 1));
    }
}

/// Resolve every address to its anchor: headings through their slugs,
/// numbered against the headings before them; HTML ids as written.
fn resolve_items(items: &Vec<(bool, String)>, heads: &Vec<String>) -> (out: Vec<String>)
    requires
        views(heads@) == heading_texts(item_views(items@)),
    ensures
        views(out@) == resolved(item_views(items@)),
{
    let ghost iv = item_views(items@);
    let mut hs: Vec<&str> = Vec::new();
    let mut q: usize = 0;
    while q < heads.len()
        invariant
            q <= heads@.len(),
            hs@.len() == q,
            forall|m: int| 0 <= m < q ==> (#[trigger] hs@[m])@ == heads@[m]@,
        decreases heads@.len() - q,
    {
        hs.push(heads[q].as_str());
        q = q + 1;
    }
    let anchs = anchors(&hs);
    proof {
        assert(views(heads@).len() == heads@.len());
        assert(heading_bases(iv) =~= crate::parsers::slug::heading_slugs(hs@)) by {
            assert forall|m: int| 0 <= m < hs@.len() implies heading_bases(iv)[m]
                == crate::parsers::slug::heading_slugs(hs@)[m] by {
                assert(views(heads@)[m] == heads@[m]@);
            }
        }
    }
    let total = anchs.len();
    let mut out: Vec<String> = Vec::new();
    let mut j: usize = 0;
    let mut i: usize = 0;
    while i < items.len()
        invariant
            i <= items@.len(),
            total == anchs@.len(),
            iv == item_views(items@),
            iv.len() == items@.len(),
            anchs@.len() == heading_texts(iv).len(),
            forall|m: int| 0 <= m < anchs@.len() ==> (#[trigger] anchs@[m])@ == anchor_spec(heading_bases(iv), m),
            j == heading_texts(iv.subrange(0, i as int)).len(),
            out@.len() == i,
            forall|m: int| 0 <= m < i ==> (#[trigger] out@[m])@ == resolved_at(iv, m),
        decreases items@.len() - i,
    {
        proof {
            lemma_heading_texts_grow(iv, i + 1, iv.len() as int);
            assert(iv.subrange(0, iv.len() as int) =~= iv);
            assert(iv.subrange(0, i + 1).drop_last() =~= iv.subrange(0, i as int));
            assert(iv[i as int] == (items@[i as int].0, items@[i as int].1@));
            assert(iv.subrange(0, i + 1).last() == iv[i as int]);
            assert(heading_texts(iv.subrange(0, i + 1)).len() == j + if iv[i as int].0 { 1int } else { 0int });
        }
        if items[i].0 {
            let a = anchs[j].clone();
            out.push(a);
            j = j + 1;
        } else {
            let a = items[i].1.clone();
            out.push(a);
        }
        i = i + 1;
    }
    proof {
        assert(views(out@) =~= resolved(iv));
    }
    out
}

/// Whether two strings hold the same characters.
fn same_string(a: &String, b: &String) -> (r: bool)
    ensures
        r == (a@ == b@),
{
    str_eq(a.as_str(), b.as_str())
}

/// Keep the first of each repeated string.
pub(crate) fn dedup_strings(s: &Vec<String>) -> (out: Vec<String>)
    ensures
        views(out@) == dedup_first(views(s@)),
{
    let ghost sv = views(s@);
    let mut out: Vec<String> = Vec::new();
    let mut i: usize = 0;
    while i < s.len()
        invariant
            i <= s@.len(),
            sv == views(s@),
            views(out@) == dedup_first(sv.subrange(0, i as int)),
        decreases s@.len() - i,
    {
        let mut seen = false;
        let mut q: usize = 0;
        while q < i
            invariant
                q <= i < s@.len(),
                sv == views(s@),
                seen == (exists|m: int| 0 <= m < q && sv[m] == sv[i as int]),
            decreases i - q,
        {
            assert(sv[q as int] == s@[q as int]@ && sv[i as int] == s@[i as int]@);
            if same_string(&s[q], &s[i]) {
                seen = true;
            }
            q = q + 1;
        }
        proof {
            let pre = sv.subrange(0, i as int);
            let post = sv.subrange(0, i + 1);
            assert(post.drop_last() =~= pre);
            assert(post.last() == sv[i as int]);
            if seen {
                let m = choose|m: int| 0 <= m < i && sv[m] == sv[i as int];
                assert(pre[m] == sv[i as int]);
            } else {
                assert(!pre.contains(sv[i as int]));
            }
        }
        if !seen {
            let ghost before = views(out@);
            out.push(s[i].clone());
            assert(views(out@) =~= before.push(sv[i as int]));
        }
        i = i + 1;
    }
    assert(sv.subrange(0, s@.len() as int) =~= sv);
    out
}

/// Whether `links` are the found links, in order, each on its line.
pub open spec fn links_match(links: Seq<Link>, found: Seq<(Seq<char>, nat)>) -> bool {
    &&& links.len() == found.len()
    &&& forall|i: int|
        0 <= i < found.len() ==> (#[trigger] links[i]).target@ == found[i].0 && links[i].line == Some(
            found[i].1 as usize,
        )
}

/// `d` without leading and trailing whitespace.
fn trimmed(d: &String) -> (out: String)
    ensures
        out@ == trim_spec(d@),
{
    let cs = chars_of(d.as_str());
    let t = trim_chars(&cs);
    string_from_chars(&t)
}

/// Walk a document's events once, collecting the links it makes (with the
/// line of `content` each starts on) and the anchors it defines. `events`
/// are the events of one parse of `content`, each with its byte range.
pub fn extract_events(events: &Vec<(MdEvent, usize, usize)>, content: &str) -> (r: (
    Vec<Link>,
    Vec<String>,
))
    ensures
        ({
            let evs = events@;
            &&& links_match(r.0@, found_links(evs, evs.len() as int, content.spec_bytes()))
            &&& views(r.1@) == extract_anchors(evs)
        }),
{
    let ghost evs = events@;
    let n = events.len();
    let bytes = content.as_bytes();
    let nb = bytes.len();
    let cum = newline_counts(bytes);
    let cl = cum.len();
    let mut code = false;
    let mut depth: usize = 0;
    let mut heading: Option<String> = None;
    let mut links: Vec<Link> = Vec::new();
    let mut items: Vec<(bool, String)> = Vec::new();
    let mut heads: Vec<String> = Vec::new();
    let mut k: usize = 0;
    while k < n
        invariant
            k <= n,
            n == evs.len(),
            evs == events@,
            bytes@ == content.spec_bytes(),
            nb == bytes@.len(),
            cl == cum@.len(),
            cum@.len() == bytes@.len() + 1,
            forall|q: int| 0 <= q <= bytes@.len() ==> #[trigger] cum@[q] == newline_count(bytes@, q),
            forall|q: int| 0 <= q <= bytes@.len() ==> cum@[q] <= q,
            code == in_code(evs, k as int),
            depth == image_depth(evs, k as int),
            depth <= k,
            opt_view(heading) == heading_text(evs, k as int),
            links_match(links@, found_links(evs, k as int, bytes@)),
            item_views(items@) == anchor_items(evs, k as int),
            views(heads@) == heading_texts(item_views(items@)),
        decreases n - k,
    {
        let off = events[k].1;
        let ev: &MdEvent = &events[k].0;
        let ghost prev_links = found_links(evs, k as int, bytes@);
        let ghost prev_items = item_views(items@);
        proof {
            assert(evs[k as int] == (*ev, off, events@[k as int].2));
        }
        match ev {
            MdEvent::CodeBlockStart => {
                code = true;
            },
            MdEvent::CodeBlockEnd => {
                code = false;
            },
            MdEvent::HeadingStart => {
                heading = Some(String::new());
            },
            MdEvent::HeadingEnd => {
                heading = match heading {
                    Some(h) => {
                        heads.push(h.clone());
                        items.push((true, h));
                        proof {
                            assert(item_views(items@) =~= prev_items.push((true, h@)));
                            assert(item_views(items@).drop_last() =~= prev_items);
                        }
                        None
                    },
                    None => None,
                };
            },
            MdEvent::Text(t) => {
                if depth == 0 {
                    heading = match heading {
                        Some(mut h) => {
                            crate::text::push_all(&mut h, t.as_str());
                            Some(h)
                        },
                        None => None,
                    };
                }
            },
            MdEvent::Code(t) => {
                if depth == 0 {
                    heading = match heading {
                        Some(mut h) => {
                            crate::text::push_all(&mut h, t.as_str());
                            Some(h)
                        },
                        None => None,
                    };
                }
            },
            MdEvent::SoftBreak => {
                heading = match heading {
                    Some(mut h) => {
                        h.push('\n');
                        Some(h)
                    },
                    None => None,
                };
            },
            MdEvent::HardBreak => {
                heading = match heading {
                    Some(mut h) => {
                        h.push('\n');
                        Some(h)
                    },
                    None => None,
                };
            },
            MdEvent::Html(h) => {
                if !code {
                    push_html_items(&mut items, &mut heads, h);
                }
            },
            MdEvent::InlineHtml(h) => {
                if !code {
                    push_html_items(&mut items, &mut heads, h);
                }
            },
            MdEvent::ImageStart(d) => {
                depth = depth + 1;
                if !code {
                    push_link(&mut links, d, off, &cum, nb, cl, Ghost(bytes@), Ghost(prev_links));
                }
            },
            MdEvent::ImageEnd => {
                if depth > 0 {
                    depth = depth - 1;
                }
            },
            MdEvent::LinkStart(d) => {
                if !code {
                    push_link(&mut links, d, off, &cum, nb, cl, Ghost(bytes@), Ghost(prev_links));
                }
            },
            _ => {},
        }
        proof {
            assert(found_links(evs, k + 1, bytes@) == match evs[k as int].0 {
                MdEvent::ImageStart(d) => if in_code(evs, k as int) { prev_links } else { prev_links + link_of(d@, off as int, bytes@) },
                MdEvent::LinkStart(d) => if in_code(evs, k as int) { prev_links } else { prev_links + link_of(d@, off as int, bytes@) },
                _ => prev_links,
            });
        }
        k = k + 1;
    }
    let anchs = resolve_items(&items, &heads);
    let uniq = dedup_strings(&anchs);
    (links, uniq)
}

/// Record the `<a>` ids of an HTML chunk as addresses.
fn push_html_items(items: &mut Vec<(bool, String)>, heads: &mut Vec<String>, h: &String)
    requires
        views(old(heads)@) == heading_texts(item_views(old(items)@)),
    ensures
        item_views(final(items)@) == item_views(old(items)@) + html_items(ids_from(h@, 0)),
        final(heads)@ == old(heads)@,
        views(final(heads)@) == heading_texts(item_views(final(items)@)),
{
    let ids = html_anchor_ids(h.as_str());
    let ghost base = item_views(items@);
    let mut q: usize = 0;
    while q < ids.len()
        invariant
            q <= ids@.len(),
            views(ids@) == ids_from(h@, 0),
            item_views(items@) == base + html_items(views(ids@).subrange(0, q as int)),
            heads@ == old(heads)@,
            views(heads@) == heading_texts(item_views(items@)),
        decreases ids@.len() - q,
    {
        let ghost before = item_views(items@);
        items.push((false, ids[q].clone()));
        proof {
            assert(item_views(items@) =~= before.push((false, ids@[q as int]@)));
            assert(item_views(items@).drop_last() =~= before);
            assert(html_items(views(ids@).subrange(0, q + 1)) =~= html_items(views(ids@).subrange(0, q as int)).push(
                (false, ids@[q as int]@),
            ));
        }
        q = q + 1;
    }
    assert(views(ids@).subrange(0, ids@.len() as int) =~= views(ids@));
}

/// Record a destination as a link at byte `off`, unless it is blank.
fn push_link(
    links: &mut Vec<Link>,
    d: &String,
    off: usize,
    cum: &Vec<usize>,
    nb: usize,
    cl: usize,
    Ghost(bytes): Ghost<Seq<u8>>,
    Ghost(found): Ghost<Seq<(Seq<char>, nat)>>,
)
    requires
        nb == bytes.len(),
        cum@.len() == nb + 1,
        cl == cum@.len(),
        forall|q: int| 0 <= q <= nb ==> #[trigger] cum@[q] == newline_count(bytes, q),
        forall|q: int| 0 <= q <= nb ==> cum@[q] <= q,
        links_match(old(links)@, found),
    ensures
        links_match(final(links)@, found + link_of(d@, off as int, bytes)),
{
    let t = trimmed(d);
    if !t.as_str().is_empty() {
        let m = if off < nb {
            off
        } else {
            nb
        };
        let line = cum[m] + 1;
        let ghost before = links@;
        links.push(Link { target: t, line: Some(line) });
        proof {
            let add = link_of(d@, off as int, bytes);
            assert(add == seq![(trim_spec(d@), line_at(bytes, off as int))]);
            assert forall|i: int| 0 <= i < (found + add).len() implies (#[trigger] links@[i]).target@ == (found
                + add)[i].0 && links@[i].line == Some((found + add)[i].1 as usize) by {
                if i < found.len() {
                    assert(links@[i] == before[i]);
                }
            }
        }
    } else {
        assert(found + link_of(d@, off as int, bytes) =~= found);
    }
}

/// The events pulldown-cmark yields for a document body (strikethrough on,
/// metadata blocks off).
pub open spec fn body_events(content: Seq<char>) -> Seq<(MdEvent, usize, usize)> {
    cmark_events(content, false)
}

/// The links a document makes, with the line each starts on, and the anchors
/// it answers to: heading slugs (a repeat takes GitHub's `-1`, `-2`) and
/// `<a id>`/`<a name>` ids, each address once, in first-seen order.
pub fn extract(content: &str) -> (r: (Vec<Link>, Vec<String>))
    ensures
        links_match(r.0@, found_links(body_events(content@), body_events(content@).len() as int, content.spec_bytes())),
        views(r.1@) == extract_anchors(body_events(content@)),
{
    let events = markdown_events(content, false);
    extract_events(&events, content)
}

/// The byte range of the first YAML-style metadata block among `evs`.
pub open spec fn first_yaml_block(evs: Seq<(MdEvent, usize, usize)>) -> Option<(usize, usize)>
    decreases evs.len(),
{
    if evs.len() == 0 {
        None
    } else if evs[0].0 is YamlBlockStart {
        Some((evs[0].1, evs[0].2))
    } else {
        first_yaml_block(evs.drop_first())
    }
}

/// Where a metadata block that opens the document ends: `Some(end)` when the
/// first YAML-style metadata block pulldown-cmark finds starts at byte 0.
pub open spec fn leading_block_spec(evs: Seq<(MdEvent, usize, usize)>) -> Option<usize> {
    match first_yaml_block(evs) {
        Some((start, end)) => if start == 0 { Some(end) } else { None },
        None => None,
    }
}

/// The end of a YAML metadata block at the very start of `content`, as
/// pulldown-cmark delimits it. A block below line one is not frontmatter.
pub fn leading_metadata_block(content: &str) -> (r: Option<usize>)
    ensures
        r == leading_block_spec(cmark_events(content@, true)),
{
    let tags = markdown_events(content, true);
    assert(tags@.subrange(0, tags@.len() as int) =~= tags@);
    let mut k: usize = 0;
    while k < tags.len()
        invariant
            k <= tags@.len(),
            tags@ == cmark_events(content@, true),
            first_yaml_block(tags@) == first_yaml_block(tags@.subrange(k as int, tags@.len() as int)),
        decreases tags@.len() - k,
    {
        let ghost rest = tags@.subrange(k as int, tags@.len() as int);
        assert(rest.drop_first() =~= tags@.subrange(k + 1, tags@.len() as int));
        if let MdEvent::YamlBlockStart = tags[k].0 {
            return if tags[k].1 == 0 {
                Some(tags[k].2)
            } else {
                None
            };
        }
        k = k + 1;
    }
    None
}

// ---------------------------------------------------------------------------
// Frontmatter is not body

/// The UTF-8 width of `c`.
fn char_width(c: char) -> (w: usize)
    ensures
        w == encode_scalar(c as u32).len(),
{
    proof {
        vstd::utf8::char_is_scalar(c);
    }
    let u = c as u32;
    if u < 0x80 {
        1
    } else if u < 0x800 {
        2
    } else if u < 0x10000 {
        3
    } else {
        4
    }
}

proof fn lemma_encode_concat(a: Seq<char>, b: Seq<char>)
    ensures
        encode_utf8(a + b) == encode_utf8(a) + encode_utf8(b),
    decreases a.len(),
{
    if a.len() == 0 {
        assert(a + b =~= b);
        assert(encode_utf8(a) =~= Seq::empty());
        assert(encode_utf8(a) + encode_utf8(b) =~= encode_utf8(b));
    } else {
        lemma_encode_concat(a.drop_first(), b);
        assert((a + b).drop_first() =~= a.drop_first() + b);
        assert((a + b)[0] == a[0]);
        assert(encode_utf8(a + b) =~= encode_scalar(a[0] as u32) + encode_utf8(a.drop_first() + b));
    }
}

/// The byte offset at which character `i` of `s` starts.
pub open spec fn byte_pos(s: Seq<char>, i: int) -> int {
    encode_utf8(s.take(i)).len() as int
}

/// `s` with every character that starts before byte `close` blanked to a
/// space, except line breaks, so line numbers are unchanged.
pub open spec fn mask_spec(s: Seq<char>, close: int) -> Seq<char> {
    Seq::new(
        s.len(),
        |i: int|
            if byte_pos(s, i) < close && s[i] != '\n' && s[i] != '\r' {
                ' '
            } else {
                s[i]
            },
    )
}

/// Blank every character that starts before byte `close`, keeping line breaks.
pub fn mask_before(content: &str, close: usize) -> (out: String)
    ensures
        out@ == mask_spec(content@, close as int),
{
    let cs = chars_of(content);
    let total = content.as_bytes().len();
    let mut out = String::new();
    let mut pos: usize = 0;
    let mut i: usize = 0;
    assert(cs@.take(0) =~= Seq::<char>::empty());
    assert(encode_utf8(Seq::<char>::empty()) =~= Seq::<u8>::empty());
    while i < cs.len()
        invariant
            i <= cs@.len(),
            cs@ == content@,
            total == encode_utf8(cs@).len(),
            pos == byte_pos(cs@, i as int),
            out@ == mask_spec(cs@, close as int).take(i as int),
        decreases cs@.len() - i,
    {
        let c = cs[i];
        let w = char_width(c);
        proof {
            let s = cs@;
            assert(s.take(i + 1) =~= s.take(i as int) + seq![c]);
            lemma_encode_concat(s.take(i as int), seq![c]);
            assert(seq![c].drop_first() =~= Seq::<char>::empty());
            assert(encode_utf8(seq![c]) =~= encode_scalar(c as u32) + encode_utf8(Seq::<char>::empty()));
            assert(s =~= s.take(i + 1) + s.skip(i + 1));
            lemma_encode_concat(s.take(i + 1), s.skip(i + 1));
        }
        if pos < close && c != '\n' && c != '\r' {
            out.push(' ');
        } else {
            out.push(c);
        }
        assert(out@ =~= mask_spec(cs@, close as int).take(i + 1));
        pos = pos + w;
        i = i + 1;
    }
    out
}

/// The text the markdown parser reads: the file with its leading frontmatter
/// block blanked, when there is one to blank.
pub open spec fn body_text(content: &str) -> Seq<char> {
    match mapping_end_spec(content) {
        Some(close) => mask_spec(content@, close as int),
        None => content@,
    }
}

/// What the markdown parser reads from a file: the links of its body, each
/// on its line, and the anchors it answers to. Frontmatter is blanked rather
/// than skipped, so lines stay file-accurate and a one-key block is not read
/// as a setext heading.
pub fn parse_markdown(content: &str) -> (r: ParseResult)
    ensures
        links_match(r.links@, found_links(body_events(body_text(content)), body_events(body_text(content)).len() as int, encode_utf8(body_text(content)))),
        views(r.anchors@) == extract_anchors(body_events(body_text(content))),
        r.metadata is None,
        r.diagnostics@.len() == 0,
{
    let (links, anchors) = match mapping_block_end(content) {
        Some(close) => {
            let masked = mask_before(content, close);
            extract(masked.as_str())
        },
        None => extract(content),
    };
    ParseResult { links, anchors, metadata: None, diagnostics: Vec::new() }
}

} // verus!
