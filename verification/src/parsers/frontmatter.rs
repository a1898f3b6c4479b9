//! Line bookkeeping for frontmatter blocks. The YAML parser breaks lines on
//! `\n` and on a lone `\r`, counting `\r\n` as one break, while a file's
//! lines are counted by `\n` alone (what an editor and `grep -n` report). The
//! line table maps the parser's rows back to file lines.

use vstd::prelude::*;
use vstd::string::StringSliceAdditionalSpecFns;
use vstd::utf8::{decode_utf8, encode_scalar, encode_utf8, is_char_boundary};
use saphyr::{LoadableYamlNode, MarkedYaml, Scalar, YamlData};
use crate::parsers::markdown::{cmark_events, leading_block_spec, leading_metadata_block};
use crate::text::{chars_of, owned, views};
use crate::diagnostic::opt_view;
use crate::paths::str_eq;
use crate::parsers::{Diagnostic, Link, ParseResult};

verus! {

/// Whether the character at `i` opens a new row as the YAML parser counts
/// them: every `\n`, and a `\r` not followed by `\n`.
pub open spec fn opens_spec(chars: Seq<char>, i: int) -> bool {
    chars[i] == '\n' || (chars[i] == '\r' && !(i + 1 < chars.len() && chars[i + 1] == '\n'))
}

/// Whether the character at `i` opens a new line as the YAML parser counts
/// them. The lookahead is what makes `\r\n` one break rather than two.
pub fn opens_line(chars: &[char], i: usize) -> (r: bool)
    requires
        i < chars@.len(),
    ensures
        r == opens_spec(chars@, i as int),
{
    let c = chars[i];
    if c == '\n' {
        true
    } else if c == '\r' {
        !(i + 1 < chars.len() && chars[i + 1] == '\n')
    } else {
        false
    }
}

/// The source line a value reported at 1-based `line` came from: the table's
/// row for it, or `line` itself when the table holds no such row (the parser
/// reports line 0 for a scalar carrying a local tag).
pub fn source_line_in(lines: &[usize], line: usize) -> (r: usize)
    ensures
        r == if 1 <= line && line - 1 < lines@.len() {
            lines@[line - 1]
        } else {
            line
        },
{
    if line >= 1 && line - 1 < lines.len() {
        lines[line - 1]
    } else {
        line
    }
}

/// The number of `\n` among the first `i` characters.
pub open spec fn newlines_before(chars: Seq<char>, i: int) -> nat
    decreases i,
{
    if i <= 0 {
        0
    } else {
        newlines_before(chars, i - 1) + if chars[i - 1] == '\n' {
            1nat
        } else {
            0nat
        }
    }
}

/// The rows opened among the first `m` characters, each carrying the file
/// line it opens on.
pub open spec fn rows_below(chars: Seq<char>, m: int) -> Seq<usize>
    decreases m,
{
    if m <= 0 {
        Seq::empty()
    } else if opens_spec(chars, m - 1) {
        rows_below(chars, m - 1).push((1 + newlines_before(chars, m - 1)) as usize)
    } else {
        rows_below(chars, m - 1)
    }
}

/// The line table of `chars`: one entry per row the parser counts, carrying
/// the file line that row sits on, then the file line the text ends on.
pub open spec fn line_table_spec(chars: Seq<char>) -> Seq<usize> {
    rows_below(chars, chars.len() as int).push((1 + newlines_before(chars, chars.len() as int)) as usize)
}

proof fn lemma_newlines_le(chars: Seq<char>, i: int)
    requires
        0 <= i,
    ensures
        newlines_before(chars, i) <= i,
    decreases i,
{
    if i > 0 {
        lemma_newlines_le(chars, i - 1);
    }
}

/// The number of rows opened among the first `m` characters.
pub open spec fn opens_before(chars: Seq<char>, m: int) -> nat
    decreases m,
{
    if m <= 0 {
        0
    } else {
        opens_before(chars, m - 1) + if opens_spec(chars, m - 1) {
            1nat
        } else {
            0nat
        }
    }
}

/// The rows among the first `m` characters, then the line the prefix ends on.
spec fn rows_then_end(chars: Seq<char>, m: int) -> Seq<usize> {
    rows_below(chars, m).push((1 + newlines_before(chars, m)) as usize)
}

/// Each prefix of the text gives a table that starts at line 1, steps by 0 or
/// 1, and has one entry per opened row plus one.
proof fn lemma_rows_then_end(chars: Seq<char>, m: int)
    requires
        0 <= m <= chars.len(),
        chars.len() < usize::MAX,
    ensures
        rows_then_end(chars, m).len() == 1 + opens_before(chars, m),
        rows_then_end(chars, m)[0] == 1,
        forall|i: int|
            0 <= i < rows_then_end(chars, m).len() - 1 ==> rows_then_end(chars, m)[i] <= #[trigger] rows_then_end(
                chars,
                m,
            )[i + 1] <= rows_then_end(chars, m)[i] + 1,
    decreases m,
{
    lemma_newlines_le(chars, m);
    if m > 0 {
        lemma_rows_then_end(chars, m - 1);
        lemma_newlines_le(chars, m - 1);
        let prev = rows_then_end(chars, m - 1);
        let cur = rows_then_end(chars, m);
        if opens_spec(chars, m - 1) {
            assert(cur =~= prev.push((1 + newlines_before(chars, m)) as usize));
            assert forall|i: int| 0 <= i < cur.len() - 1 implies cur[i] <= #[trigger] cur[i + 1]
                <= cur[i] + 1 by {
                if i < prev.len() - 1 {
                    assert(cur[i] == prev[i] && cur[i + 1] == prev[i + 1]);
                } else {
                    assert(cur[i] == prev[i]);
                }
            }
        } else {
            assert(chars[m - 1] != '\n');
            assert(cur =~= prev);
        }
    }
}

/// The line table counts rows exactly: one entry per `\n`, and per `\r` not
/// followed by `\n`, then one more; it starts at line 1, each entry is the one
/// before it or the next line, and the last is the line the text ends on, one
/// past its count of `\n`. No other character opens a row.
pub proof fn lemma_line_table_rows(chars: Seq<char>)
    requires
        chars.len() < usize::MAX,
    ensures
        line_table_spec(chars).len() == 1 + opens_before(chars, chars.len() as int),
        line_table_spec(chars)[0] == 1,
        forall|i: int|
            0 <= i < line_table_spec(chars).len() - 1 ==> line_table_spec(chars)[i] <= #[trigger] line_table_spec(
                chars,
            )[i + 1] <= line_table_spec(chars)[i] + 1,
        line_table_spec(chars).last() == 1 + newlines_before(chars, chars.len() as int),
{
    lemma_rows_then_end(chars, chars.len() as int);
    lemma_newlines_le(chars, chars.len() as int);
    assert(line_table_spec(chars) == rows_then_end(chars, chars.len() as int));
}

/// One entry per line the YAML parser counts, carrying the file line that
/// entry sits on, and a last entry for the line the text ends on.
pub fn line_table(text: &str) -> (lines: Vec<usize>)
    requires
        text@.len() < usize::MAX,
    ensures
        lines@ == line_table_spec(text@),
{
    let chars = chars_of(text);
    let mut lines: Vec<usize> = Vec::new();
    let mut source_line: usize = 1;
    let mut i: usize = 0;
    while i < chars.len()
        invariant
            i <= chars@.len(),
            chars@ == text@,
            chars@.len() < usize::MAX,
            source_line == 1 + newlines_before(chars@, i as int),
            lines@ == rows_below(chars@, i as int),
        decreases chars@.len() - i,
    {
        proof {
            lemma_newlines_le(chars@, i as int);
        }
        if opens_line(chars.as_slice(), i) {
            lines.push(source_line);
        }
        if chars[i] == '\n' {
            source_line = source_line + 1;
        }
        i = i + 1;
    }
    lines.push(source_line);
    lines
}

// ---------------------------------------------------------------------------
// Where the block is

/// Every character takes at least one byte.
pub proof fn lemma_encode_len_ge(s: Seq<char>)
    ensures
        encode_utf8(s).len() >= s.len(),
    decreases s.len(),
{
    if s.len() > 0 {
        lemma_encode_len_ge(s.drop_first());
        assert(encode_scalar(s[0] as u32).len() >= 1);
    }
}

/// Whether the text opens with the three fence characters.
pub open spec fn opens_with_fence(bytes: Seq<u8>) -> bool {
    bytes.len() >= 3 && bytes[0] == 45u8 && bytes[1] == 45u8 && bytes[2] == 45u8
}

/// The first line feed among bytes `lo..hi`.
pub open spec fn first_newline(bytes: Seq<u8>, lo: int, hi: int) -> Option<int>
    decreases hi - lo,
{
    if lo >= hi || lo < 0 || hi > bytes.len() {
        None
    } else if bytes[lo] == 10u8 {
        Some(lo)
    } else {
        first_newline(bytes, lo + 1, hi)
    }
}

/// The last line feed among the first `hi` bytes.
pub open spec fn last_newline(bytes: Seq<u8>, hi: int) -> Option<int>
    decreases hi,
{
    if hi <= 0 || hi > bytes.len() {
        None
    } else if bytes[hi - 1] == 10u8 {
        Some(hi - 1)
    } else {
        last_newline(bytes, hi - 1)
    }
}

/// The frontmatter block's bytes as `(open, close, end)`: `end` is where the
/// metadata block pulldown-cmark finds at byte 0 ends, `open` the line feed
/// ending the opening fence line and `close` the one preceding the closing
/// fence. `None` when the text does not open with a fence, pulldown-cmark finds
/// no block there, or the block holds no line feed.
pub open spec fn block_bounds_spec(content: &str) -> Option<(int, int, int)> {
    let bytes = content.spec_bytes();
    if !opens_with_fence(bytes) {
        None
    } else {
        match leading_block_spec(cmark_events(content@, true)) {
            None => None,
            Some(end) => if end > bytes.len() || !is_char_boundary(bytes, end as int) {
                None
            } else {
                match (first_newline(bytes, 0, end as int), last_newline(bytes, end as int)) {
                    (Some(o), Some(c)) => Some((o, c, end as int)),
                    _ => None,
                }
            },
        }
    }
}

proof fn lemma_first_newline(bytes: Seq<u8>, lo: int, hi: int)
    ensures
        match first_newline(bytes, lo, hi) {
            Some(o) => lo <= o < hi && hi <= bytes.len() && bytes[o] == 10u8,
            None => true,
        },
    decreases hi - lo,
{
    if !(lo >= hi || lo < 0 || hi > bytes.len()) && bytes[lo] != 10u8 {
        lemma_first_newline(bytes, lo + 1, hi);
    }
}

proof fn lemma_last_newline(bytes: Seq<u8>, hi: int)
    ensures
        match last_newline(bytes, hi) {
            Some(c) => 0 <= c < hi <= bytes.len() && bytes[c] == 10u8,
            None => true,
        },
    decreases hi,
{
    if !(hi <= 0 || hi > bytes.len()) && bytes[hi - 1] != 10u8 {
        lemma_last_newline(bytes, hi - 1);
    }
}

proof fn lemma_first_le_last(bytes: Seq<u8>, hi: int)
    requires
        first_newline(bytes, 0, hi) is Some,
        last_newline(bytes, hi) is Some,
    ensures
        first_newline(bytes, 0, hi)->0 <= last_newline(bytes, hi)->0,
{
    lemma_first_newline(bytes, 0, hi);
    lemma_last_newline(bytes, hi);
    let o = first_newline(bytes, 0, hi)->0;
    let c = last_newline(bytes, hi)->0;
    if c < o {
        lemma_no_newline_before(bytes, 0, hi, c);
    }
}

proof fn lemma_no_newline_before(bytes: Seq<u8>, lo: int, hi: int, q: int)
    requires
        0 <= lo <= q < hi <= bytes.len(),
        bytes[q] == 10u8,
    ensures
        first_newline(bytes, lo, hi) is Some && first_newline(bytes, lo, hi)->0 <= q,
    decreases q - lo,
{
    if bytes[lo] != 10u8 {
        lemma_no_newline_before(bytes, lo + 1, hi, q);
    }
}

/// A line feed starts a character.
proof fn lemma_newline_boundary(bytes: Seq<u8>, i: int)
    requires
        vstd::utf8::valid_utf8(bytes),
        0 <= i < bytes.len(),
        bytes[i] == 10u8,
    ensures
        is_char_boundary(bytes, i),
{
    vstd::utf8::is_char_boundary_iff_is_leading_byte(bytes, i);
}

/// The bounds of the leading frontmatter block, as [`block_bounds_spec`]
/// describes them.
fn block_bounds(content: &str) -> (r: Option<(usize, usize, usize)>)
    ensures
        match (r, block_bounds_spec(content)) {
            (Some((o, c, e)), Some((so, sc, se))) => o == so && c == sc && e == se,
            (None, None) => true,
            _ => false,
        },
{
    let bytes = content.as_bytes();
    let n = bytes.len();
    if n < 3 || bytes[0] != 45u8 || bytes[1] != 45u8 || bytes[2] != 45u8 {
        return None;
    }
    let end = match leading_metadata_block(content) {
        Some(e) => e,
        None => {
            return None;
        },
    };
    if end > n || !content.is_char_boundary(end) {
        return None;
    }
    let mut o: usize = 0;
    while o < end && bytes[o] != 10u8
        invariant
            o <= end <= n,
            n == bytes@.len(),
            bytes@ == content.spec_bytes(),
            first_newline(bytes@, 0, end as int) == first_newline(bytes@, o as int, end as int),
        decreases end - o,
    {
        o = o + 1;
    }
    if o >= end {
        return None;
    }
    let mut c: usize = end;
    while c > 0 && bytes[c - 1] != 10u8
        invariant
            c <= end <= n,
            n == bytes@.len(),
            bytes@ == content.spec_bytes(),
            last_newline(bytes@, end as int) == last_newline(bytes@, c as int),
        decreases c,
    {
        c = c - 1;
    }
    if c == 0 {
        return None;
    }
    Some((o, c - 1, end))
}

/// The raw text of the leading YAML frontmatter block: from the line feed
/// ending the opening fence line to the one preceding the closing fence, so
/// that a value's line within the block is its line within the file. `None`
/// when the file does not open with one.
pub fn frontmatter_block(content: &str) -> (r: Option<&str>)
    ensures
        match (r, block_bounds_spec(content)) {
            (Some(b), Some((o, c, _))) => b.spec_bytes() == content.spec_bytes().subrange(o, c),
            (None, None) => true,
            _ => false,
        },
{
    match block_bounds(content) {
        None => None,
        Some((o, c, e)) => {
            let ghost bytes = content.spec_bytes();
            proof {
                lemma_first_newline(bytes, 0, e as int);
                lemma_last_newline(bytes, e as int);
                lemma_first_le_last(bytes, e as int);
                vstd::utf8::encode_utf8_valid_utf8(content@);
                lemma_newline_boundary(bytes, o as int);
            }
            let (_, rest) = content.split_at(o);
            proof {
                vstd::utf8::encode_utf8_valid_utf8(rest@);
                assert(rest.spec_bytes()[c - o] == bytes[c as int]);
                lemma_newline_boundary(rest.spec_bytes(), c - o);
            }
            let (blk, _) = rest.split_at(c - o);
            assert(blk.spec_bytes() =~= bytes.subrange(o as int, c as int));
            Some(blk)
        },
    }
}

// ---------------------------------------------------------------------------
// What the block holds

/// A YAML node as the frontmatter parser reads it: a string scalar with the
/// 1-based row it starts on, a sequence, a mapping (entries in document
/// order), a tagged node, a null, a boolean, an integer, a floating-point
/// scalar (as its decimal text), a scalar kept in its raw representation, or
/// `Other` (an alias, a bad value).
#[derive(Debug)]
pub enum YamlNode {
    Str(String, usize),
    List(Vec<YamlNode>),
    Mapping(Vec<(YamlNode, YamlNode)>),
    Tagged(Box<YamlNode>),
    Null,
    Bool(bool),
    Int(i64),
    Float(String),
    Raw(String),
    Other,
}

/// What loading a block as YAML gives: a scan error, a stream with no
/// document, or the first document's root.
#[derive(Debug)]
pub enum YamlLoad {
    Invalid,
    Empty,
    Root(YamlNode),
}

/// What saphyr's `MarkedYaml::load_from_str` makes of a block, read as a
/// [`YamlLoad`].
pub uninterp spec fn yaml_document(block: Seq<char>) -> YamlLoad;

/// `saphyr::MarkedYaml::load_from_str`: a scan error, no document, or the first
/// document's root, converted node for node. Which YAML a text denotes is
/// saphyr's reading; nothing here states it.
#[verifier::external_body]
fn yaml_load(block: &str) -> (r: YamlLoad)
    ensures
        r == yaml_document(block@),
{
    match MarkedYaml::load_from_str(block) {
        Err(_) => YamlLoad::Invalid,
        Ok(docs) => match docs.first() {
            None => YamlLoad::Empty,
            Some(root) => YamlLoad::Root(yaml_tree(root)),
        },
    }
}

/// saphyr's annotated YAML node, carried through opaque.
#[verifier::external_type_specification]
#[verifier::external_body]
pub struct ExMarkedYaml<'input>(MarkedYaml<'input>);

/// The conversion of one saphyr node (and, recursively, its children) that
/// [`yaml_load`] applies: each variant to its counterpart, a leaf as
/// [`yaml_leaf`] converts it.
#[verifier::external_body]
fn yaml_tree(node: &MarkedYaml) -> YamlNode {
    match &node.data {
        YamlData::Sequence(items) => YamlNode::List(items.iter().map(yaml_tree).collect()),
        YamlData::Mapping(map) => YamlNode::Mapping(map.iter().map(|(k, v)| (yaml_tree(k), yaml_tree(v))).collect()),
        YamlData::Tagged(_, inner) => YamlNode::Tagged(Box::new(yaml_tree(inner))),
        _ => yaml_leaf(node),
    }
}

/// The conversion of one saphyr leaf that [`yaml_tree`] applies: each scalar
/// to its counterpart (a string with the line saphyr reports for its start, a
/// floating-point value as its `Display` text), a raw representation to its
/// text, anything else to `Other`.
#[verifier::external_body]
fn yaml_leaf(node: &MarkedYaml) -> YamlNode {
    match &node.data {
        YamlData::Value(Scalar::String(v)) => YamlNode::Str(v.to_string(), node.span.start.line()),
        YamlData::Value(Scalar::Null) => YamlNode::Null,
        YamlData::Value(Scalar::Boolean(b)) => YamlNode::Bool(*b),
        YamlData::Value(Scalar::Integer(i)) => YamlNode::Int(*i),
        YamlData::Value(Scalar::FloatingPoint(f)) => YamlNode::Float(f.to_string()),
        YamlData::Representation(raw, _, _) => YamlNode::Raw(raw.to_string()),
        _ => YamlNode::Other,
    }
}

/// The block's root when it is a YAML mapping — the shape that yields
/// metadata — and holds no NUL (saphyr's end-of-input sentinel, which would
/// otherwise let a valid prefix pass for the whole block).
pub open spec fn mapping_spec(block: Seq<char>) -> Option<YamlNode> {
    if block.contains('\0') {
        None
    } else {
        match yaml_document(block) {
            YamlLoad::Root(n) => if n is Mapping { Some(n) } else { None },
            _ => None,
        }
    }
}

/// Whether `s` holds a NUL.
fn has_nul(s: &str) -> (r: bool)
    ensures
        r == s@.contains('\0'),
{
    let cs = chars_of(s);
    let mut i: usize = 0;
    while i < cs.len()
        invariant
            i <= cs@.len(),
            cs@ == s@,
            forall|q: int| 0 <= q < i ==> cs@[q] != '\0',
        decreases cs@.len() - i,
    {
        if cs[i] == '\0' {
            assert(s@[i as int] == '\0');
            return true;
        }
        i = i + 1;
    }
    false
}

/// The block's YAML root when it parses as a mapping with no NUL in it.
pub fn mapping(block: &str) -> (r: Option<YamlNode>)
    ensures
        r == mapping_spec(block@),
{
    if has_nul(block) {
        return None;
    }
    match yaml_load(block) {
        YamlLoad::Root(n) => match n {
            YamlNode::Mapping(entries) => Some(YamlNode::Mapping(entries)),
            _ => None,
        },
        _ => None,
    }
}

// ---------------------------------------------------------------------------
// Which strings are edges

/// The string values under a node, in document order, each with the row it
/// starts on: every string leaf reachable through sequences, mapping values
/// and tags. Mapping keys are not values.
pub open spec fn leaf_strings(n: YamlNode) -> Seq<(Seq<char>, usize)>
    decreases n, 1nat, 0int,
{
    match n {
        YamlNode::Str(s, l) => seq![(s@, l)],
        YamlNode::List(_) => list_strings(n, 0),
        YamlNode::Mapping(_) => map_strings(n, 0),
        YamlNode::Tagged(b) => leaf_strings(*b),
        _ => Seq::empty(),
    }
}

/// The string values under the items of a sequence node from item `i` on.
pub open spec fn list_strings(n: YamlNode, i: int) -> Seq<(Seq<char>, usize)>
    decreases n, 0nat, (if n is List { n->List_0@.len() } else { 0 }) - i,
{
    match n {
        YamlNode::List(items) => if 0 <= i < items@.len() {
            leaf_strings(items@[i]) + list_strings(n, i + 1)
        } else {
            Seq::empty()
        },
        _ => Seq::empty(),
    }
}

/// The string values under the values of a mapping node from entry `i` on.
pub open spec fn map_strings(n: YamlNode, i: int) -> Seq<(Seq<char>, usize)>
    decreases n, 0nat, (if n is Mapping { n->Mapping_0@.len() } else { 0 }) - i,
{
    match n {
        YamlNode::Mapping(entries) => if 0 <= i < entries@.len() {
            leaf_strings(entries@[i].1) + map_strings(n, i + 1)
        } else {
            Seq::empty()
        },
        _ => Seq::empty(),
    }
}

/// Whether a mapping key is a string scalar among `keys`.
pub open spec fn key_declared(k: YamlNode, keys: Seq<Seq<char>>) -> bool {
    match k {
        YamlNode::Str(s, _) => keys.contains(s@),
        _ => false,
    }
}

/// The string values reachable only through one of `keys`: a declared key
/// hands over its whole subtree; any other key is descended into, so a
/// declared key nested under an unrelated one is still found.
pub open spec fn scoped_strings(n: YamlNode, keys: Seq<Seq<char>>) -> Seq<(Seq<char>, usize)>
    decreases n, 1nat, 0int,
{
    match n {
        YamlNode::List(_) => scoped_list(n, keys, 0),
        YamlNode::Mapping(_) => scoped_map(n, keys, 0),
        YamlNode::Tagged(b) => scoped_strings(*b, keys),
        _ => Seq::empty(),
    }
}

/// [`scoped_strings`] over the items of a sequence node from item `i` on.
pub open spec fn scoped_list(n: YamlNode, keys: Seq<Seq<char>>, i: int) -> Seq<(Seq<char>, usize)>
    decreases n, 0nat, (if n is List { n->List_0@.len() } else { 0 }) - i,
{
    match n {
        YamlNode::List(items) => if 0 <= i < items@.len() {
            scoped_strings(items@[i], keys) + scoped_list(n, keys, i + 1)
        } else {
            Seq::empty()
        },
        _ => Seq::empty(),
    }
}

/// [`scoped_strings`] over the entries of a mapping node from entry `i` on.
pub open spec fn scoped_map(n: YamlNode, keys: Seq<Seq<char>>, i: int) -> Seq<(Seq<char>, usize)>
    decreases n, 0nat, (if n is Mapping { n->Mapping_0@.len() } else { 0 }) - i,
{
    match n {
        YamlNode::Mapping(entries) => if 0 <= i < entries@.len() {
            (if key_declared(entries@[i].0, keys) {
                leaf_strings(entries@[i].1)
            } else {
                scoped_strings(entries@[i].1, keys)
            }) + scoped_map(n, keys, i + 1)
        } else {
            Seq::empty()
        },
        _ => Seq::empty(),
    }
}

/// The text/row view of collected strings.
pub open spec fn pair_views(out: Seq<(String, usize)>) -> Seq<(Seq<char>, usize)> {
    out.map_values(|p: (String, usize)| (p.0@, p.1))
}

proof fn lemma_pair_views_push(out: Seq<(String, usize)>, p: (String, usize))
    ensures
        pair_views(out.push(p)) == pair_views(out).push((p.0@, p.1)),
{
    assert(pair_views(out.push(p)) =~= pair_views(out).push((p.0@, p.1)));
}

/// Collect every string value under `n`, as [`leaf_strings`] lists them.
fn collect_links(n: &YamlNode, out: &mut Vec<(String, usize)>)
    ensures
        pair_views(final(out)@) == pair_views(old(out)@) + leaf_strings(*n),
    decreases n,
{
    match n {
        YamlNode::Str(s, l) => {
            let ghost before = out@;
            let item = (s.clone(), *l);
            let ghost it = item;
            out.push(item);
            proof {
                lemma_pair_views_push(before, it);
                assert(leaf_strings(*n) == seq![(s@, *l)]);
                assert(pair_views(before) + seq![(s@, *l)] =~= pair_views(before).push((s@, *l)));
            }
        },
        YamlNode::List(items) => {
            let mut i: usize = 0;
            while i < items.len()
                invariant
                    i <= items@.len(),
                    *n == YamlNode::List(*items),
                    pair_views(out@) + list_strings(*n, i as int) == pair_views(old(out)@) + list_strings(*n, 0),
                decreases items@.len() - i,
            {
                let ghost before = pair_views(out@);
                collect_links(&items[i], out);
                assert(list_strings(*n, i as int) == leaf_strings(items@[i as int]) + list_strings(*n, i + 1));
                assert(before + list_strings(*n, i as int) =~= pair_views(out@) + list_strings(*n, i + 1));
                i = i + 1;
            }
            assert(list_strings(*n, i as int) =~= Seq::empty());
            assert(pair_views(out@) =~= pair_views(old(out)@) + list_strings(*n, 0));
        },
        YamlNode::Mapping(entries) => {
            let mut i: usize = 0;
            while i < entries.len()
                invariant
                    i <= entries@.len(),
                    *n == YamlNode::Mapping(*entries),
                    pair_views(out@) + map_strings(*n, i as int) == pair_views(old(out)@) + map_strings(*n, 0),
                decreases entries@.len() - i,
            {
                let ghost before = pair_views(out@);
                collect_links(&entries[i].1, out);
                assert(map_strings(*n, i as int) == leaf_strings(entries@[i as int].1) + map_strings(*n, i + 1));
                assert(before + map_strings(*n, i as int) =~= pair_views(out@) + map_strings(*n, i + 1));
                i = i + 1;
            }
            assert(map_strings(*n, i as int) =~= Seq::empty());
            assert(pair_views(out@) =~= pair_views(old(out)@) + map_strings(*n, 0));
        },
        YamlNode::Tagged(b) => {
            collect_links(&**b, out);
        },
        _ => {
            assert(pair_views(out@) =~= pair_views(old(out)@) + leaf_strings(*n));
        },
    }
}

/// Whether a mapping key is a string scalar among `keys`.
fn key_is_declared(k: &YamlNode, keys: &Vec<String>) -> (r: bool)
    ensures
        r == key_declared(*k, views(keys@)),
{
    match k {
        YamlNode::Str(s, _) => {
            let mut i: usize = 0;
            while i < keys.len()
                invariant
                    i <= keys@.len(),
                    *k is Str && k->Str_0 == *s,
                    forall|q: int| 0 <= q < i ==> keys@[q]@ != s@,
                decreases keys@.len() - i,
            {
                if str_eq(keys[i].as_str(), s.as_str()) {
                    assert(views(keys@)[i as int] == s@);
                    assert(views(keys@).contains(s@));
                    return true;
                }
                i = i + 1;
            }
            proof {
                if views(keys@).contains(s@) {
                    let q = choose|q: int| 0 <= q < views(keys@).len() && views(keys@)[q] == s@;
                    assert(keys@[q]@ == s@);
                }
            }
            false
        },
        _ => false,
    }
}

/// Collect the string values reachable through a declared key, as
/// [`scoped_strings`] lists them.
fn collect_scoped(n: &YamlNode, keys: &Vec<String>, out: &mut Vec<(String, usize)>)
    ensures
        pair_views(final(out)@) == pair_views(old(out)@) + scoped_strings(*n, views(keys@)),
    decreases n,
{
    let ghost ks = views(keys@);
    match n {
        YamlNode::List(items) => {
            let mut i: usize = 0;
            while i < items.len()
                invariant
                    i <= items@.len(),
                    *n == YamlNode::List(*items),
                    ks == views(keys@),
                    pair_views(out@) + scoped_list(*n, ks, i as int) == pair_views(old(out)@) + scoped_list(*n, ks, 0),
                decreases items@.len() - i,
            {
                let ghost before = pair_views(out@);
                collect_scoped(&items[i], keys, out);
                assert(scoped_list(*n, ks, i as int) == scoped_strings(items@[i as int], ks) + scoped_list(*n, ks, i + 1));
                assert(before + scoped_list(*n, ks, i as int) =~= pair_views(out@) + scoped_list(*n, ks, i + 1));
                i = i + 1;
            }
            assert(scoped_list(*n, ks, i as int) =~= Seq::empty());
            assert(pair_views(out@) =~= pair_views(old(out)@) + scoped_list(*n, ks, 0));
        },
        YamlNode::Mapping(entries) => {
            let mut i: usize = 0;
            while i < entries.len()
                invariant
                    i <= entries@.len(),
                    *n == YamlNode::Mapping(*entries),
                    ks == views(keys@),
                    pair_views(out@) + scoped_map(*n, ks, i as int) == pair_views(old(out)@) + scoped_map(*n, ks, 0),
                decreases entries@.len() - i,
            {
                let ghost before = pair_views(out@);
                if key_is_declared(&entries[i].0, keys) {
                    collect_links(&entries[i].1, out);
                } else {
                    collect_scoped(&entries[i].1, keys, out);
                }
                assert(scoped_map(*n, ks, i as int) == (if key_declared(entries@[i as int].0, ks) {
                    leaf_strings(entries@[i as int].1)
                } else {
                    scoped_strings(entries@[i as int].1, ks)
                }) + scoped_map(*n, ks, i + 1));
                assert(before + scoped_map(*n, ks, i as int) =~= pair_views(out@) + scoped_map(*n, ks, i + 1));
                i = i + 1;
            }
            assert(scoped_map(*n, ks, i as int) =~= Seq::empty());
            assert(pair_views(out@) =~= pair_views(old(out)@) + scoped_map(*n, ks, 0));
        },
        YamlNode::Tagged(b) => {
            collect_scoped(&**b, keys, out);
        },
        _ => {
            assert(pair_views(out@) =~= pair_views(old(out)@) + scoped_strings(*n, ks));
        },
    }
}

// ---------------------------------------------------------------------------
// The parser

/// The rule an unreadable block becomes.
pub const UNREADABLE_FRONTMATTER: &'static str = "unreadable-frontmatter";

/// The text of the leading frontmatter block, if the file opens with one.
pub open spec fn block_text(content: &str) -> Option<Seq<char>> {
    match block_bounds_spec(content) {
        Some((o, c, _)) => Some(decode_utf8(content.spec_bytes().subrange(o, c))),
        None => None,
    }
}

/// The file line of row `line` by the table, as [`source_line_in`] reads it.
pub open spec fn source_line_spec(lines: Seq<usize>, line: usize) -> usize {
    if 1 <= line && line - 1 < lines.len() {
        lines[line - 1]
    } else {
        line
    }
}

/// Whether `links` are the declared strings, in order, each on the file line
/// its row maps to.
pub open spec fn edges_match(links: Seq<Link>, found: Seq<(Seq<char>, usize)>, lines: Seq<usize>) -> bool {
    &&& links.len() == found.len()
    &&& forall|i: int|
        0 <= i < found.len() ==> (#[trigger] links[i]).target@ == found[i].0 && links[i].line == Some(
            source_line_spec(lines, found[i].1),
        )
}

/// The edges a parsed block declares: every string reachable through a
/// declared key, on the file line it sits on.
fn edges(root: &YamlNode, keys: &Vec<String>, lines: &Vec<usize>) -> (links: Vec<Link>)
    ensures
        edges_match(links@, scoped_strings(*root, views(keys@)), lines@),
{
    let mut found: Vec<(String, usize)> = Vec::new();
    collect_scoped(root, keys, &mut found);
    assert(pair_views(found@) =~= scoped_strings(*root, views(keys@)));
    let mut links: Vec<Link> = Vec::new();
    let mut i: usize = 0;
    while i < found.len()
        invariant
            i <= found@.len(),
            pair_views(found@) == scoped_strings(*root, views(keys@)),
            links@.len() == i,
            forall|q: int|
                0 <= q < i ==> (#[trigger] links@[q]).target@ == found@[q].0@ && links@[q].line == Some(
                    source_line_spec(lines@, found@[q].1),
                ),
        decreases found@.len() - i,
    {
        let line = source_line_in(lines.as_slice(), found[i].1);
        links.push(Link { target: found[i].0.clone(), line: Some(line) });
        i = i + 1;
    }
    proof {
        assert forall|q: int| 0 <= q < found@.len() implies pair_views(found@)[q] == (found@[q].0@, found@[q].1) by {}
    }
    links
}

/// What the frontmatter parser reads from a file: nothing when the file does
/// not open with a block; an [`UNREADABLE_FRONTMATTER`] diagnostic on line 1
/// when the block is not a NUL-free YAML mapping; otherwise the mapping as
/// metadata and, as links, the strings reachable through `edge_keys`.
pub open spec fn frontmatter_parse_ok(content: &str, edge_keys: Seq<Seq<char>>, r: ParseResult) -> bool {
    &&& r.anchors@.len() == 0
    &&& match block_text(content) {
        None => r.links@.len() == 0 && r.metadata is None && r.diagnostics@.len() == 0,
        Some(block) => match mapping_spec(block) {
            None => {
                &&& r.links@.len() == 0
                &&& r.metadata is None
                &&& r.diagnostics@.len() == 1
                &&& r.diagnostics@[0].rule@ == UNREADABLE_FRONTMATTER@
                &&& r.diagnostics@[0].line == Some(1usize)
            },
            Some(root) => {
                &&& r.metadata == Some(root)
                &&& r.diagnostics@.len() == 0
                &&& edges_match(r.links@, scoped_strings(root, edge_keys), line_table_spec(block))
            },
        },
    }
}

/// Read a file's frontmatter block: its metadata, the edges its declared keys
/// carry, or a diagnostic when the block is recognized but is not a YAML
/// mapping. Keys that are not declared yield no edges; metadata always holds
/// the whole block.
pub fn parse_frontmatter(content: &str, edge_keys: &Vec<String>) -> (r: ParseResult)
    ensures
        frontmatter_parse_ok(content, views(edge_keys@), r),
{
    let block = match frontmatter_block(content) {
        None => {
            return ParseResult { links: Vec::new(), anchors: Vec::new(), metadata: None, diagnostics: Vec::new() };
        },
        Some(b) => b,
    };
    let nb = content.as_bytes().len();
    proof {
        let (o, c, e) = block_bounds_spec(content)->0;
        vstd::utf8::encode_utf8_decode_utf8(block@);
        assert(block_text(content) == Some(block@));
        lemma_first_newline(content.spec_bytes(), 0, e);
        lemma_last_newline(content.spec_bytes(), e);
        lemma_first_le_last(content.spec_bytes(), e);
        lemma_encode_len_ge(block@);
    }
    match mapping(block) {
        None => {
            let d = Diagnostic {
                rule: UNREADABLE_FRONTMATTER,
                message: owned(
                    "frontmatter block could not be read completely as a YAML mapping, so its keys, values and edges are all dropped",
                ),
                line: Some(1),
            };
            ParseResult { links: Vec::new(), anchors: Vec::new(), metadata: None, diagnostics: vec![d] }
        },
        Some(root) => {
            let lines = line_table(block);
            let links = edges(&root, edge_keys, &lines);
            ParseResult { links, anchors: Vec::new(), metadata: Some(root), diagnostics: Vec::new() }
        },
    }
}

/// Where the markdown parser blanks the leading block: the block's end, when
/// a block opens the file and its YAML either is a mapping or does not load
/// at all. A block that loads as something else — a comment-only block, a
/// bare scalar — is left for markdown to read: `# First` is a YAML comment and
/// an ATX heading, `---\nMy Title\n---` a scalar and a setext heading.
pub open spec fn mapping_end_spec(content: &str) -> Option<usize> {
    match block_bounds_spec(content) {
        None => None,
        Some((o, c, e)) => match yaml_document(decode_utf8(content.spec_bytes().subrange(o, c))) {
            YamlLoad::Invalid => Some(e as usize),
            YamlLoad::Root(n) => if n is Mapping { Some(e as usize) } else { None },
            YamlLoad::Empty => None,
        },
    }
}

/// The end of the leading frontmatter block, when markdown should not read it
/// (see [`mapping_end_spec`]).
pub fn mapping_block_end(content: &str) -> (r: Option<usize>)
    ensures
        r == mapping_end_spec(content),
{
    let (o, c, e) = match block_bounds(content) {
        None => {
            return None;
        },
        Some(b) => b,
    };
    let block = match frontmatter_block(content) {
        Some(b) => b,
        None => {
            return None;
        },
    };
    proof {
        vstd::utf8::encode_utf8_decode_utf8(block@);
    }
    match yaml_load(block) {
        YamlLoad::Invalid => Some(e),
        YamlLoad::Root(n) => match n {
            YamlNode::Mapping(_) => Some(e),
            _ => None,
        },
        YamlLoad::Empty => None,
    }
}

/// The first entry among `entries` from `i` on whose key is the string
/// scalar `key`.
pub open spec fn first_key(entries: Seq<(YamlNode, YamlNode)>, key: Seq<char>, i: int) -> Option<int>
    decreases entries.len() - i,
{
    if i < 0 || i >= entries.len() {
        None
    } else if entries[i].0 matches YamlNode::Str(s, _) && s@ == key {
        Some(i)
    } else {
        first_key(entries, key, i + 1)
    }
}

impl YamlNode {
    /// The value under the string key `key`, when this node is a mapping that
    /// has one (the first such entry).
    pub fn get(&self, key: &str) -> (r: Option<&YamlNode>)
        ensures
            match *self {
                YamlNode::Mapping(es) => match first_key(es@, key@, 0) {
                    Some(i) => r == Some(&es@[i].1),
                    None => r is None,
                },
                _ => r is None,
            },
    {
        match self {
            YamlNode::Mapping(es) => {
                let mut i: usize = 0;
                while i < es.len()
                    invariant
                        i <= es@.len(),
                        *self == YamlNode::Mapping(*es),
                        first_key(es@, key@, 0) == first_key(es@, key@, i as int),
                    decreases es@.len() - i,
                {
                    match &es[i].0 {
                        YamlNode::Str(s, _) => {
                            if str_eq(s.as_str(), key) {
                                return Some(&es[i].1);
                            }
                        },
                        _ => {},
                    }
                    i = i + 1;
                }
                None
            },
            _ => None,
        }
    }
}

// ---------------------------------------------------------------------------
// The block as node metadata

/// A metadata value as JSON holds it: what a frontmatter block gives its node
/// under the graph's namespace.
#[derive(Debug)]
pub enum MetaValue {
    Null,
    Bool(bool),
    Int(i64),
    Float(String),
    Str(String),
    List(Vec<MetaValue>),
    Object(Vec<(String, MetaValue)>),
}

/// The decimal text of an integer, with a leading `-` when negative.
pub open spec fn int_text(i: i64) -> Seq<char> {
    if i < 0 {
        seq!['-'] + crate::text::decimal((-(i as int)) as nat)
    } else {
        crate::text::decimal(i as nat)
    }
}

/// The object key a mapping key becomes: a scalar's text (`true`, `false`,
/// `null` for the keywords), the tagged node's key for a tagged one; a
/// sequence or mapping used as a key gives none, and its entry is left out.
pub open spec fn key_text(k: YamlNode) -> Option<Seq<char>>
    decreases k,
{
    match k {
        YamlNode::Str(s, _) => Some(s@),
        YamlNode::Raw(s) => Some(s@),
        YamlNode::Float(t) => Some(t@),
        YamlNode::Int(i) => Some(int_text(i)),
        YamlNode::Bool(b) => Some(if b { "true"@ } else { "false"@ }),
        YamlNode::Null => Some("null"@),
        YamlNode::Other => Some("null"@),
        YamlNode::Tagged(b) => key_text(*b),
        YamlNode::List(_) => None,
        YamlNode::Mapping(_) => None,
    }
}

/// Whether `m` is the metadata the YAML node `n` gives: each scalar its
/// value (a raw representation as a string), an alias or bad value null, a
/// tagged node its inner node's, a sequence its items' in order, and a
/// mapping an object of its entries with a key, in document order.
pub open spec fn meta_of(m: MetaValue, n: YamlNode) -> bool
    decreases n, 1nat, 0int,
{
    match n {
        YamlNode::Str(s, _) => m matches MetaValue::Str(t) && t@ == s@,
        YamlNode::Raw(s) => m matches MetaValue::Str(t) && t@ == s@,
        YamlNode::Float(s) => m matches MetaValue::Float(t) && t@ == s@,
        YamlNode::Int(i) => m == MetaValue::Int(i),
        YamlNode::Bool(b) => m == MetaValue::Bool(b),
        YamlNode::Null => m is Null,
        YamlNode::Other => m is Null,
        YamlNode::Tagged(b) => meta_of(m, *b),
        YamlNode::List(items) => m matches MetaValue::List(ms) && ms@.len() == items@.len() && items_meta(ms@, n, 0),
        YamlNode::Mapping(_) => m matches MetaValue::Object(fs) && entries_meta(fs@, n, 0, 0),
    }
}

/// Whether `ms` from `i` on are the metadata of the sequence's items from `i`.
pub open spec fn items_meta(ms: Seq<MetaValue>, n: YamlNode, i: int) -> bool
    decreases n, 0nat, (if n is List { n->List_0@.len() } else { 0 }) - i,
{
    match n {
        YamlNode::List(items) => if 0 <= i < items@.len() {
            i < ms.len() && meta_of(ms[i], items@[i]) && items_meta(ms, n, i + 1)
        } else {
            true
        },
        _ => false,
    }
}

/// Whether `fs` from `j` on are the keyed entries of the mapping from entry
/// `i` on.
pub open spec fn entries_meta(fs: Seq<(String, MetaValue)>, n: YamlNode, i: int, j: int) -> bool
    decreases n, 0nat, (if n is Mapping { n->Mapping_0@.len() } else { 0 }) - i,
{
    match n {
        YamlNode::Mapping(entries) => if 0 <= i < entries@.len() {
            match key_text(entries@[i].0) {
                Some(k) => 0 <= j < fs.len() && fs[j].0@ == k && meta_of(fs[j].1, entries@[i].1) && entries_meta(
                    fs,
                    n,
                    i + 1,
                    j + 1,
                ),
                None => entries_meta(fs, n, i + 1, j),
            }
        } else {
            j == fs.len()
        },
        _ => false,
    }
}

/// Append the decimal text of `n`.
fn push_u64(out: &mut String, n: u64)
    ensures
        final(out)@ == old(out)@ + crate::text::decimal(n as nat),
    decreases n,
{
    if n >= 10 {
        push_u64(out, n / 10);
    }
    let d: u8 = (n % 10) as u8;
    let c: char = (48u8 + d) as char;
    out.push(c);
    assert(final(out)@ =~= old(out)@ + crate::text::decimal(n as nat)) by {
        if n >= 10 {
            assert(crate::text::decimal(n as nat) == crate::text::decimal((n / 10) as nat).push(
                crate::text::digit_char((n % 10) as nat),
            ));
        }
    }
}

/// The decimal text of an integer.
fn int_string(i: i64) -> (r: String)
    ensures
        r@ == int_text(i),
{
    let mut r = String::new();
    if i < 0 {
        r.push('-');
        let m: u64 = if i == i64::MIN {
            9223372036854775808u64
        } else {
            (-i) as u64
        };
        push_u64(&mut r, m);
    } else {
        push_u64(&mut r, i as u64);
    }
    assert(r@ =~= int_text(i));
    r
}

/// The object key a mapping key becomes, if any.
fn key_string(k: &YamlNode) -> (r: Option<String>)
    ensures
        opt_view(r) == key_text(*k),
    decreases k,
{
    match k {
        YamlNode::Str(s, _) => Some(s.clone()),
        YamlNode::Raw(s) => Some(s.clone()),
        YamlNode::Float(t) => Some(t.clone()),
        YamlNode::Int(i) => Some(int_string(*i)),
        YamlNode::Bool(b) => Some(owned(if *b { "true" } else { "false" })),
        YamlNode::Null => Some(owned("null")),
        YamlNode::Other => Some(owned("null")),
        YamlNode::Tagged(b) => key_string(b),
        YamlNode::List(_) => None,
        YamlNode::Mapping(_) => None,
    }
}

/// The metadata a frontmatter block's root gives its node.
pub fn frontmatter_metadata(root: &YamlNode) -> (r: MetaValue)
    ensures
        meta_of(r, *root),
    decreases root,
{
    match root {
        YamlNode::Str(s, _) => MetaValue::Str(s.clone()),
        YamlNode::Raw(s) => MetaValue::Str(s.clone()),
        YamlNode::Float(t) => MetaValue::Float(t.clone()),
        YamlNode::Int(i) => MetaValue::Int(*i),
        YamlNode::Bool(b) => MetaValue::Bool(*b),
        YamlNode::Null => MetaValue::Null,
        YamlNode::Other => MetaValue::Null,
        YamlNode::Tagged(b) => frontmatter_metadata(b),
        YamlNode::List(items) => {
            let mut ms: Vec<MetaValue> = Vec::new();
            let mut i: usize = 0;
            while i < items.len()
                invariant
                    i <= items@.len(),
                    *root == YamlNode::List(*items),
                    ms@.len() == i,
                    forall|q: int| 0 <= q < i ==> meta_of(#[trigger] ms@[q], items@[q]),
                decreases items@.len() - i,
            {
                proof {
                    assert(decreases_to!(*root => root->List_0));
                    assert(root->List_0 == *items);
                    assert(decreases_to!(*items => items@));
                    assert(decreases_to!(items@ => items@[i as int]));
                }
                let m = frontmatter_metadata(&items[i]);
                ms.push(m);
                i = i + 1;
            }
            proof {
                lemma_items_meta(ms@, *root, 0);
            }
            MetaValue::List(ms)
        },
        YamlNode::Mapping(entries) => {
            let mut fs: Vec<(String, MetaValue)> = Vec::new();
            let mut i: usize = 0;
            while i < entries.len()
                invariant
                    i <= entries@.len(),
                    *root == YamlNode::Mapping(*entries),
                    forall|f: Seq<(String, MetaValue)>| entries_meta(f, *root, i as int, 0) ==> entries_meta(fs@ + f, *root, 0, 0),
                decreases entries@.len() - i,
            {
                let key = key_string(&entries[i].0);
                match key {
                    Some(k) => {
                        let v = frontmatter_metadata(&entries[i].1);
                        let ghost before = fs@;
                        let ghost item = (k, v);
                        fs.push((k, v));
                        proof {
                            assert forall|f: Seq<(String, MetaValue)>| entries_meta(f, *root, i + 1, 0) implies entries_meta(fs@ + f, *root, 0, 0) by {
                                lemma_entries_shift(f, *root, i + 1, 0);
                                assert(entries_meta(seq![item] + f, *root, i + 1, 1));
                                assert(entries_meta(seq![item] + f, *root, i as int, 0));
                                assert(before + (seq![item] + f) =~= fs@ + f);
                            }
                        }
                    },
                    None => {
                        proof {
                            assert forall|f: Seq<(String, MetaValue)>| entries_meta(f, *root, i + 1, 0) implies entries_meta(fs@ + f, *root, 0, 0) by {
                                assert(entries_meta(f, *root, i as int, 0));
                            }
                        }
                    },
                }
                i = i + 1;
            }
            proof {
                let e: Seq<(String, MetaValue)> = Seq::empty();
                assert(entries_meta(e, *root, i as int, 0));
                assert(fs@ + e =~= fs@);
            }
            MetaValue::Object(fs)
        },
    }
}

proof fn lemma_items_meta(ms: Seq<MetaValue>, n: YamlNode, i: int)
    requires
        n is List,
        0 <= i <= n->List_0@.len(),
        ms.len() == n->List_0@.len(),
        forall|q: int| 0 <= q < ms.len() ==> meta_of(#[trigger] ms[q], n->List_0@[q]),
    ensures
        items_meta(ms, n, i),
    decreases n->List_0@.len() - i,
{
    if i < n->List_0@.len() {
        lemma_items_meta(ms, n, i + 1);
    }
}

/// Prefixing `k` entries to the keyed entries shifts where they start.
proof fn lemma_entries_shift(f: Seq<(String, MetaValue)>, n: YamlNode, i: int, j: int)
    requires
        n is Mapping,
        0 <= i <= n->Mapping_0@.len(),
        0 <= j <= f.len(),
        entries_meta(f, n, i, j),
    ensures
        forall|p: Seq<(String, MetaValue)>| #[trigger] entries_meta(p + f, n, i, j + p.len()),
    decreases n->Mapping_0@.len() - i,
{
    if i < n->Mapping_0@.len() {
        match key_text(n->Mapping_0@[i].0) {
            Some(k) => {
                lemma_entries_shift(f, n, i + 1, j + 1);
                assert forall|p: Seq<(String, MetaValue)>| #[trigger] entries_meta(p + f, n, i, j + p.len()) by {
                    assert((p + f)[j + p.len()] == f[j]);
                    assert(entries_meta(p + f, n, i + 1, (j + 1) + p.len()));
                }
            },
            None => {
                lemma_entries_shift(f, n, i + 1, j);
                assert forall|p: Seq<(String, MetaValue)>| #[trigger] entries_meta(p + f, n, i, j + p.len()) by {
                    assert(entries_meta(p + f, n, i + 1, j + p.len()));
                }
            },
        }
    } else {
        assert forall|p: Seq<(String, MetaValue)>| #[trigger] entries_meta(p + f, n, i, j + p.len()) by {
            assert((p + f).len() == j + p.len());
        }
    }
}

} // verus!
