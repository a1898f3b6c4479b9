//! What building the configured graphs decides beyond the parsers: the text a
//! parser is handed, the report on files no text graph could decode, and the
//! hint on a frontmatter graph whose declared keys yielded no edge.

use vstd::prelude::*;
use crate::diagnostic::{opt_view, Finding};
use crate::hints::Hint;
use crate::text::{chars_of, owned, push_all, views};
use crate::builders::{link_edges, link_edges_spec, LinkEdge, LinkPolicy};
use crate::config::{compile_globs, globs_build, globs_error, globs_match, GraphConfig};
use crate::model::namespace;
use crate::order::{sort_distinct, sorted_members};
use crate::parsers::frontmatter::{block_text, frontmatter_parse_ok, mapping_spec};
use crate::parsers::markdown::{body_events, body_text, extract_anchors, found_links, links_match};
use crate::parsers::{FrontmatterParser, MarkdownParser, ParseResult};
use crate::paths::str_eq;
use vstd::utf8::encode_utf8;

verus! {

/// drft's own lock file, which the `fs` walk always leaves out: its bytes
/// change every time it is written, so hashing it would be circular.
pub const LOCKFILE_IGNORE: &'static str = "drft.lock";

/// The byte-order mark.
pub open spec fn is_mark(c: char) -> bool {
    c == '\u{feff}'
}

/// How many byte-order marks open `s`.
pub open spec fn leading_marks(s: Seq<char>) -> nat
    decreases s.len(),
{
    if s.len() > 0 && is_mark(s[0]) {
        1 + leading_marks(s.drop_first())
    } else {
        0
    }
}

proof fn lemma_leading_marks(s: Seq<char>, i: int)
    requires
        0 <= i <= s.len(),
        forall|j: int| 0 <= j < i ==> is_mark(#[trigger] s[j]),
    ensures
        leading_marks(s) == i + leading_marks(s.skip(i)),
    decreases i,
{
    if i == 0 {
        assert(s.skip(0) =~= s);
    } else {
        assert(is_mark(s[0]));
        assert(s.drop_first().skip(i - 1) =~= s.skip(i));
        assert forall|j: int| 0 <= j < i - 1 implies is_mark(#[trigger] s.drop_first()[j]) by {
            assert(s.drop_first()[j] == s[j + 1]);
        }
        lemma_leading_marks(s.drop_first(), i - 1);
    }
}

/// The text a parser is handed: the decoded file with every leading
/// byte-order mark removed (a file re-marked by a tool carries two). No
/// newline is removed, so line numbers are unchanged.
pub fn strip_marks(text: &str) -> (r: String)
    ensures
        r@ == text@.skip(leading_marks(text@) as int),
{
    let cs = chars_of(text);
    let mut i: usize = 0;
    while i < cs.len() && cs[i] == '\u{feff}'
        invariant
            i <= cs@.len(),
            cs@ == text@,
            forall|j: int| 0 <= j < i ==> is_mark(#[trigger] cs@[j]),
        decreases cs@.len() - i,
    {
        i = i + 1;
    }
    proof {
        lemma_leading_marks(text@, i as int);
        assert(leading_marks(text@.skip(i as int)) == 0);
    }
    let mut r = String::new();
    let mut j: usize = i;
    while j < cs.len()
        invariant
            i <= j <= cs@.len(),
            r@ == cs@.subrange(i as int, j as int),
        decreases cs@.len() - j,
    {
        r.push(cs[j]);
        assert(cs@.subrange(i as int, j + 1) =~= cs@.subrange(i as int, j as int).push(cs@[j as int]));
        j = j + 1;
    }
    assert(r@ =~= text@.skip(i as int));
    r
}

/// The finding for a file that is not valid UTF-8 while the text graphs in
/// `graphs` (their `@<graph>` namespaces) would have read it.
pub fn unreadable_text_finding(path: &str, graphs: Vec<String>) -> (f: Finding)
    ensures
        f.name@ == "unreadable-text"@,
        f.subject@ == path@,
        f.graphs == graphs,
        f.message@ == "file is not valid UTF-8, so matched text graphs could not read its edges or metadata"@,
        f.target is None,
        f.lines@.len() == 0,
{
    Finding::warn(
        "unreadable-text",
        path,
        graphs,
        "file is not valid UTF-8, so matched text graphs could not read its edges or metadata",
    )
}

/// A key in backticks.
pub open spec fn quoted(k: Seq<char>) -> Seq<char> {
    seq!['`'] + k + seq!['`']
}

/// Quoted keys joined by `, `.
pub open spec fn comma_quoted(keys: Seq<Seq<char>>) -> Seq<char>
    decreases keys.len(),
{
    if keys.len() == 0 {
        Seq::empty()
    } else if keys.len() == 1 {
        quoted(keys[0])
    } else {
        comma_quoted(keys.drop_last()) + seq![',', ' '] + quoted(keys.last())
    }
}

/// A key list as a hint names it: `` `a` ``, `` `a` and `b` ``, or
/// `` `a`, `b` and `c` ``; nothing for no keys.
pub open spec fn render_keys_spec(keys: Seq<Seq<char>>) -> Seq<char> {
    if keys.len() <= 1 {
        comma_quoted(keys)
    } else {
        comma_quoted(keys.drop_last()) + " and "@ + quoted(keys.last())
    }
}

fn push_quoted(out: &mut String, k: &str)
    ensures
        final(out)@ == old(out)@ + quoted(k@),
{
    out.push('`');
    push_all(out, k);
    out.push('`');
    assert(final(out)@ =~= old(out)@ + quoted(k@));
}

/// Render a key list for a hint message.
pub fn render_keys(keys: &Vec<String>) -> (r: String)
    ensures
        r@ == render_keys_spec(keys@.map_values(|k: String| k@)),
{
    let ghost ks = keys@.map_values(|k: String| k@);
    let mut r = String::new();
    if keys.len() == 0 {
        assert(r@ =~= render_keys_spec(ks));
        return r;
    }
    let last = keys.len() - 1;
    let mut i: usize = 0;
    while i < last
        invariant
            last == keys@.len() - 1,
            ks == keys@.map_values(|k: String| k@),
            i <= last,
            r@ == comma_quoted(ks.subrange(0, i as int)),
        decreases last - i,
    {
        let ghost before = r@;
        if i > 0 {
            r.push(',');
            r.push(' ');
        }
        push_quoted(&mut r, keys[i].as_str());
        proof {
            let sub = ks.subrange(0, i + 1);
            assert(sub.drop_last() =~= ks.subrange(0, i as int));
            assert(sub.last() == keys@[i as int]@);
            if i == 0 {
                assert(r@ =~= comma_quoted(sub));
            } else {
                assert(r@ =~= comma_quoted(sub));
            }
        }
        i = i + 1;
    }
    if last > 0 {
        push_all(&mut r, " and ");
    }
    push_quoted(&mut r, keys[last].as_str());
    proof {
        assert(ks.drop_last() =~= ks.subrange(0, last as int));
        if last == 0 {
            assert(r@ =~= render_keys_spec(ks));
        } else {
            assert(r@ =~= render_keys_spec(ks));
        }
    }
    r
}

/// What the hint on a frontmatter graph whose declared keys yielded no edge
/// says, from how many regular files the graph matched (`candidates`) and how
/// many of them could not be read (`failures`): its message and its next move.
pub open spec fn edge_keys_hint_text(keys: Seq<Seq<char>>, candidates: nat, failures: nat) -> (Seq<char>, Seq<char>) {
    let named = render_keys_spec(keys);
    if failures > 0 && failures == candidates {
        (
            "declares "@ + named + " but yielded no edges; matched files could not be read"@,
            "repair the unreadable files matched by this graph, then rerun"@,
        )
    } else if failures > 0 {
        (
            "declares "@ + named + " but yielded no edges; some matched files could not be read"@,
            "repair the unreadable files matched by this graph, then rerun; if no edges remain, check the declared keys, files globs, ignore patterns, and string values"@,
        )
    } else if candidates > 0 {
        (
            "declares "@ + named + " but nothing under "@ + (if keys.len() == 1 {
                "it"@
            } else {
                "any of them"@
            }) + " yielded an edge"@,
            "check the spelling against the frontmatter the files carry, the graph's `files` globs and any `ignore` patterns, and that the values are strings"@,
        )
    } else {
        (
            "declares "@ + named + ", but no file was read for this graph"@,
            "check the `files` globs, any `ignore` patterns, and that the matched files are readable UTF-8 text"@,
        )
    }
}

/// The `edge-keys-matched-nothing` hint for the frontmatter graph `name`: raised
/// only when the graph declares edge keys and yielded no edge.
pub fn edge_keys_hint(name: &str, keys: &Vec<String>, edges: usize, candidates: usize, failures: usize) -> (r: Option<Hint>)
    ensures
        (keys@.len() == 0 || edges > 0) <==> r is None,
        r matches Some(h) ==> {
            let text = edge_keys_hint_text(keys@.map_values(|k: String| k@), candidates as nat, failures as nat);
            &&& h.name@ == "edge-keys-matched-nothing"@
            &&& opt_view(h.locus) == Some("graphs."@ + name@)
            &&& h.message@ == text.0
            &&& opt_view(h.next) == Some(text.1)
        },
{
    if keys.len() == 0 || edges > 0 {
        return None;
    }
    let named = render_keys(keys);
    let mut message = owned("declares ");
    push_all(&mut message, named.as_str());
    let next: &str;
    if failures > 0 && failures == candidates {
        push_all(&mut message, " but yielded no edges; matched files could not be read");
        next = "repair the unreadable files matched by this graph, then rerun";
    } else if failures > 0 {
        push_all(&mut message, " but yielded no edges; some matched files could not be read");
        next = "repair the unreadable files matched by this graph, then rerun; if no edges remain, check the declared keys, files globs, ignore patterns, and string values";
    } else if candidates > 0 {
        push_all(&mut message, " but nothing under ");
        if keys.len() == 1 {
            push_all(&mut message, "it");
        } else {
            push_all(&mut message, "any of them");
        }
        push_all(&mut message, " yielded an edge");
        next = "check the spelling against the frontmatter the files carry, the graph's `files` globs and any `ignore` patterns, and that the values are strings";
    } else {
        push_all(&mut message, ", but no file was read for this graph");
        next = "check the `files` globs, any `ignore` patterns, and that the matched files are readable UTF-8 text";
    }
    let mut locus = owned("graphs.");
    push_all(&mut locus, name);
    let h = Hint::new("edge-keys-matched-nothing", message.as_str()).at(locus.as_str()).with_next(next);
    Some(h)
}

// ── Reading the configured graphs ──────────────────────────────

/// One file as a text graph read it: its path, what the parser found, and
/// the edges its links make.
pub struct FileRead {
    pub path: String,
    pub result: ParseResult,
    pub edges: Vec<LinkEdge>,
}

/// One configured graph as read: its name, each file it read in order, and
/// the hint on declared keys that yielded nothing, when it raises one.
pub struct GraphRead {
    pub name: String,
    pub files: Vec<FileRead>,
    pub hint: Option<Hint>,
}

/// A file of the project: its path, its text when it decoded as UTF-8, and
/// whether it is a regular file (not a symlink).
pub type ProjectFile<'a> = (String, Option<&'a str>, bool);

/// Whether a graph with file globs `files` reads `path`: every path without
/// globs, else the paths the globs match.
pub open spec fn in_scope(files: Seq<String>, path: Seq<char>) -> bool {
    files.len() == 0 || globs_match(views(files), path)
}

/// Whether the graph uses the markdown parser.
pub open spec fn is_markdown(cfg: GraphConfig) -> bool {
    cfg.parser@ == "markdown"@
}

/// What the markdown parser reads from a file.
pub open spec fn markdown_read(content: &str, r: ParseResult) -> bool {
    &&& links_match(
        r.links@,
        found_links(
            body_events(body_text(content)),
            body_events(body_text(content)).len() as int,
            encode_utf8(body_text(content)),
        ),
    )
    &&& views(r.anchors@) == extract_anchors(body_events(body_text(content)))
    &&& r.metadata is None
    &&& r.diagnostics@.len() == 0
}

/// How a graph's links become edges: body links for markdown, declared
/// values for frontmatter.
pub open spec fn policy_of(cfg: GraphConfig) -> LinkPolicy {
    if is_markdown(cfg) {
        LinkPolicy::Body
    } else {
        LinkPolicy::Declared
    }
}

/// Whether `f` is what the graph makes of the file at `path` with `content`.
pub open spec fn read_as(cfg: GraphConfig, path: Seq<char>, content: &str, f: FileRead) -> bool {
    &&& f.path@ == path
    &&& if is_markdown(cfg) {
        markdown_read(content, f.result)
    } else {
        frontmatter_parse_ok(content, views(cfg.edge_keys@), f.result)
    }
    &&& link_edges_spec(path, f.result.links@, policy_of(cfg), f.edges@)
}

/// Whether `fs` are, in order, the reads of the decoded files of `files`
/// that the graph scopes.
pub open spec fn reads(cfg: GraphConfig, files: Seq<ProjectFile>, fs: Seq<FileRead>) -> bool
    decreases files.len(),
{
    if files.len() == 0 {
        fs.len() == 0
    } else {
        let f = files.last();
        if f.1 is Some && in_scope(cfg.files@, f.0@) {
            fs.len() > 0 && read_as(cfg, f.0@, f.1->Some_0, fs.last()) && reads(cfg, files.drop_last(), fs.drop_last())
        } else {
            reads(cfg, files.drop_last(), fs)
        }
    }
}

/// Whether a file could not be read: no text, or a frontmatter block the
/// frontmatter parser could not read.
pub open spec fn read_failed(cfg: GraphConfig, f: ProjectFile) -> bool {
    match f.1 {
        None => true,
        Some(c) => !is_markdown(cfg) && (block_text(c) matches Some(b) && mapping_spec(b) is None),
    }
}

/// How many regular files the graph scopes (`failed`: only those it could
/// not read).
pub open spec fn scoped_count(cfg: GraphConfig, files: Seq<ProjectFile>, failed: bool) -> nat
    decreases files.len(),
{
    if files.len() == 0 {
        0
    } else {
        let f = files.last();
        scoped_count(cfg, files.drop_last(), failed) + if f.2 && in_scope(cfg.files@, f.0@) && (!failed
            || read_failed(cfg, f)) {
            1nat
        } else {
            0nat
        }
    }
}

/// Whether some read made an edge.
pub open spec fn any_edges(fs: Seq<FileRead>) -> bool {
    exists|k: int| 0 <= k < fs.len() && (#[trigger] fs[k]).edges@.len() > 0
}

/// The `edge-keys-matched-nothing` hint a graph raises: only a frontmatter
/// graph that declares keys and made no edge, worded by how many regular
/// files it scoped and how many of them it could not read.
pub open spec fn graph_hint(name: Seq<char>, cfg: GraphConfig, files: Seq<ProjectFile>, fs: Seq<FileRead>, h: Option<Hint>) -> bool {
    if is_markdown(cfg) || cfg.edge_keys@.len() == 0 || any_edges(fs) {
        h is None
    } else {
        h matches Some(hint) && {
            let text = edge_keys_hint_text(
                cfg.edge_keys@.map_values(|k: String| k@),
                scoped_count(cfg, files, false),
                scoped_count(cfg, files, true),
            );
            &&& hint.name@ == "edge-keys-matched-nothing"@
            &&& opt_view(hint.locus) == Some("graphs."@ + name)
            &&& hint.message@ == text.0
            &&& opt_view(hint.next) == Some(text.1)
        }
    }
}

/// Whether the graph's read is what its configuration makes of the files.
pub open spec fn graph_read(name: Seq<char>, cfg: GraphConfig, files: Seq<ProjectFile>, g: GraphRead) -> bool {
    &&& g.name@ == name
    &&& reads(cfg, files, g.files@)
    &&& graph_hint(name, cfg, files, g.files@, g.hint)
}

/// Read one file as the graph's parser does and turn its links into edges.
fn read_file(cfg: &GraphConfig, path: &String, content: &str) -> (r: FileRead)
    ensures
        read_as(*cfg, path@, content, r),
{
    let markdown = str_eq(cfg.parser.as_str(), "markdown");
    if markdown {
        let result = MarkdownParser { file_filter: None }.parse(path.as_str(), content);
        let edges = link_edges(path.as_str(), &result.links, LinkPolicy::Body);
        FileRead { path: path.clone(), result, edges }
    } else {
        let parser = FrontmatterParser { file_filter: None, edge_keys: crate::text::copy_strings(&cfg.edge_keys) };
        let result = parser.parse(path.as_str(), content);
        let edges = link_edges(path.as_str(), &result.links, LinkPolicy::Declared);
        FileRead { path: path.clone(), result, edges }
    }
}

/// Read the project's files as one configured graph: every decoded file its
/// globs scope, in order, and the hint on declared keys that made no edge.
/// Globs that do not compile refuse the graph.
pub fn read_graph(name: &String, cfg: &GraphConfig, files: &Vec<ProjectFile>) -> (r: Result<GraphRead, String>)
    ensures
        r is Ok <==> globs_build(cfg.files@),
        r matches Ok(g) ==> graph_read(name@, *cfg, files@, g),
        r matches Err(m) ==> m@ == globs_error(cfg.files@),
{
    let scope = match compile_globs(&cfg.files) {
        Ok(s) => s,
        Err(e) => return Err(e),
    };
    let markdown = str_eq(cfg.parser.as_str(), "markdown");
    let mut out: Vec<FileRead> = Vec::new();
    let mut candidates: usize = 0;
    let mut failures: usize = 0;
    let mut any = false;
    let mut i: usize = 0;
    while i < files.len()
        invariant
            i <= files@.len(),
            markdown == is_markdown(*cfg),
            scope is None <==> cfg.files@.len() == 0,
            scope matches Some(g) ==> g@ == views(cfg.files@),
            reads(*cfg, files@.subrange(0, i as int), out@),
            candidates == scoped_count(*cfg, files@.subrange(0, i as int), false),
            failures == scoped_count(*cfg, files@.subrange(0, i as int), true),
            candidates <= i,
            failures <= i,
            any == any_edges(out@),
        decreases files@.len() - i,
    {
        let path = &files[i].0;
        let text = files[i].1;
        let regular = files[i].2;
        let ghost sub = files@.subrange(0, i + 1);
        assert(sub.drop_last() =~= files@.subrange(0, i as int));
        assert(sub.last() == files@[i as int]);
        let scoped = match &scope {
            Some(g) => g.is_match(path.as_str()),
            None => true,
        };
        assert(scoped == in_scope(cfg.files@, path@));
        let ghost before = out@;
        let mut failed = false;
        match text {
            Some(content) => {
                if scoped {
                    let ghost any0 = any;
                    let f = read_file(cfg, path, content);
                    if f.edges.len() > 0 {
                        any = true;
                    }
                    failed = f.result.diagnostics.len() > 0;
                    proof {
                        if !markdown {
                            assert(failed == (block_text(content) matches Some(b) && mapping_spec(b) is None));
                        }
                    }
                    out.push(f);
                    proof {
                        assert(out@.drop_last() =~= before);
                        assert(any == (any0 || out@.last().edges@.len() > 0));
                        assert(any == any_edges(out@)) by {
                            if out@.last().edges@.len() > 0 {
                                assert(out@[out@.len() - 1].edges@.len() > 0);
                            }
                            if any_edges(before) {
                                let k = choose|k: int| 0 <= k < before.len() && (#[trigger] before[k]).edges@.len() > 0;
                                assert(out@[k] == before[k]);
                            }
                            if any_edges(out@) {
                                let k = choose|k: int| 0 <= k < out@.len() && (#[trigger] out@[k]).edges@.len() > 0;
                                if k < before.len() {
                                    assert(out@[k] == before[k]);
                                }
                            }
                        }
                    }
                }
            },
            None => {
                failed = true;
            },
        }
        if regular && scoped {
            candidates = candidates + 1;
            if failed {
                failures = failures + 1;
            }
        }
        proof {
            assert(regular && scoped ==> (failed == read_failed(*cfg, files@[i as int])));
        }
        i = i + 1;
    }
    assert(files@.subrange(0, files@.len() as int) =~= files@);
    let hint = if markdown {
        None
    } else {
        edge_keys_hint(name.as_str(), &cfg.edge_keys, if any { 1 } else { 0 }, candidates, failures)
    };
    Ok(GraphRead { name: name.clone(), files: out, hint })
}

/// The namespaces of the graphs that scope `path`.
pub open spec fn scoping_graphs(graphs: Seq<(String, GraphConfig)>, path: Seq<char>) -> Set<Seq<char>> {
    Set::new(|ns: Seq<char>| exists|j: int| 0 <= j < graphs.len() && in_scope((#[trigger] graphs[j]).1.files@, path) && ns == seq!['@'] + graphs[j].0@)
}

/// Whether `fd` are, in order, the `unreadable-text` findings for the
/// regular files of `files` with no text that some graph scopes, each naming
/// the namespaces of those graphs, sorted.
pub open spec fn undecoded(graphs: Seq<(String, GraphConfig)>, files: Seq<ProjectFile>, fd: Seq<Finding>) -> bool
    decreases files.len(),
{
    if files.len() == 0 {
        fd.len() == 0
    } else {
        let f = files.last();
        if f.1 is None && f.2 && (exists|j: int| 0 <= j < graphs.len() && in_scope((#[trigger] graphs[j]).1.files@, f.0@)) {
            &&& fd.len() > 0
            &&& fd.last().name@ == "unreadable-text"@
            &&& fd.last().subject@ == f.0@
            &&& views(fd.last().graphs@) == sorted_members(scoping_graphs(graphs, f.0@))
            &&& fd.last().message@ == "file is not valid UTF-8, so matched text graphs could not read its edges or metadata"@
            &&& fd.last().target is None
            &&& fd.last().lines@.len() == 0
            &&& undecoded(graphs, files.drop_last(), fd.drop_last())
        } else {
            undecoded(graphs, files.drop_last(), fd)
        }
    }
}

/// Read the project's files as every configured graph, in order, and report
/// the regular files no text graph could decode. The first graph whose globs
/// do not compile refuses the whole read.
pub fn read_graphs(graphs: &Vec<(String, GraphConfig)>, files: &Vec<ProjectFile>) -> (r: Result<(Vec<GraphRead>, Vec<Finding>), String>)
    ensures
        r is Ok <==> (forall|j: int| 0 <= j < graphs@.len() ==> globs_build((#[trigger] graphs@[j]).1.files@)),
        r matches Err(m) ==> exists|j: int|
            0 <= j < graphs@.len() && !globs_build((#[trigger] graphs@[j]).1.files@)
                && (forall|q: int| 0 <= q < j ==> globs_build((#[trigger] graphs@[q]).1.files@))
                && m@ == globs_error(graphs@[j].1.files@),
        r matches Ok(out) ==> {
            &&& out.0@.len() == graphs@.len()
            &&& forall|j: int| 0 <= j < graphs@.len() ==> graph_read((#[trigger] graphs@[j]).0@, graphs@[j].1, files@, out.0@[j])
            &&& undecoded(graphs@, files@, out.1@)
        },
{
    let mut reads_out: Vec<GraphRead> = Vec::new();
    let mut scopes: Vec<Option<crate::config::Globs>> = Vec::new();
    let mut j: usize = 0;
    while j < graphs.len()
        invariant
            j <= graphs@.len(),
            reads_out@.len() == j,
            scopes@.len() == j,
            forall|q: int| 0 <= q < j ==> globs_build((#[trigger] graphs@[q]).1.files@),
            forall|q: int| 0 <= q < j ==> graph_read((#[trigger] graphs@[q]).0@, graphs@[q].1, files@, reads_out@[q]),
            forall|q: int| 0 <= q < j ==> ((#[trigger] scopes@[q]) is None <==> graphs@[q].1.files@.len() == 0),
            forall|q: int| 0 <= q < j ==> ((#[trigger] scopes@[q]) matches Some(g) ==> g@ == views(graphs@[q].1.files@)),
        decreases graphs@.len() - j,
    {
        let g = match read_graph(&graphs[j].0, &graphs[j].1, files) {
            Ok(g) => g,
            Err(e) => {
                assert(!globs_build(graphs@[j as int].1.files@));
                return Err(e);
            },
        };
        let scope = match compile_globs(&graphs[j].1.files) {
            Ok(s) => s,
            Err(e) => return Err(e),
        };
        reads_out.push(g);
        scopes.push(scope);
        j = j + 1;
    }
    let mut found: Vec<Finding> = Vec::new();
    let mut i: usize = 0;
    while i < files.len()
        invariant
            i <= files@.len(),
            scopes@.len() == graphs@.len(),
            forall|q: int| 0 <= q < graphs@.len() ==> ((#[trigger] scopes@[q]) is None <==> graphs@[q].1.files@.len() == 0),
            forall|q: int| 0 <= q < graphs@.len() ==> ((#[trigger] scopes@[q]) matches Some(g) ==> g@ == views(graphs@[q].1.files@)),
            undecoded(graphs@, files@.subrange(0, i as int), found@),
        decreases files@.len() - i,
    {
        let path = &files[i].0;
        let ghost sub = files@.subrange(0, i + 1);
        assert(sub.drop_last() =~= files@.subrange(0, i as int));
        assert(sub.last() == files@[i as int]);
        if files[i].1.is_none() && files[i].2 {
            let mut nss: Vec<String> = Vec::new();
            let mut q: usize = 0;
            while q < graphs.len()
                invariant
                    q <= graphs@.len(),
                    i < files@.len(),
                    *path == files@[i as int].0,
                    scopes@.len() == graphs@.len(),
                    forall|k: int| 0 <= k < graphs@.len() ==> ((#[trigger] scopes@[k]) is None <==> graphs@[k].1.files@.len() == 0),
                    forall|k: int| 0 <= k < graphs@.len() ==> ((#[trigger] scopes@[k]) matches Some(g) ==> g@ == views(graphs@[k].1.files@)),
                    forall|x: Seq<char>| views(nss@).contains(x) <==> (exists|k: int| 0 <= k < q && in_scope((#[trigger] graphs@[k]).1.files@, path@) && x == seq!['@'] + graphs@[k].0@),
                decreases graphs@.len() - q,
            {
                let scoped = match &scopes[q] {
                    Some(g) => g.is_match(path.as_str()),
                    None => true,
                };
                assert(scoped == in_scope(graphs@[q as int].1.files@, path@));
                let ghost before = views(nss@);
                assert(forall|x: Seq<char>| before.contains(x) <==> (exists|k: int| 0 <= k < q && in_scope((#[trigger] graphs@[k]).1.files@, path@) && x == seq!['@'] + graphs@[k].0@));
                if scoped {
                    nss.push(namespace(graphs[q].0.as_str()));
                }
                proof {
                    let ns = seq!['@'] + graphs@[q as int].0@;
                    assert forall|x: Seq<char>| views(nss@).contains(x) <==> (exists|k: int| 0 <= k < q + 1 && in_scope((#[trigger] graphs@[k]).1.files@, path@) && x == seq!['@'] + graphs@[k].0@) by {
                        if views(nss@).contains(x) {
                            let m = choose|m: int| 0 <= m < views(nss@).len() && views(nss@)[m] == x;
                            if m < before.len() {
                                assert(before[m] == x);
                                assert(before.contains(x));
                            } else {
                                assert(x == ns);
                            }
                        }
                        if exists|k: int| 0 <= k < q + 1 && in_scope((#[trigger] graphs@[k]).1.files@, path@) && x == seq!['@'] + graphs@[k].0@ {
                            let k = choose|k: int| 0 <= k < q + 1 && in_scope((#[trigger] graphs@[k]).1.files@, path@) && x == seq!['@'] + graphs@[k].0@;
                            if k < q {
                                assert(before.contains(x));
                                let m = choose|m: int| 0 <= m < before.len() && before[m] == x;
                                assert(views(nss@)[m] == x);
                            } else {
                                assert(views(nss@)[before.len() as int] == x);
                            }
                        }
                    }
                }
                q = q + 1;
            }
            if nss.len() > 0 {
                let listed = sort_distinct(&nss);
                proof {
                    assert(views(nss@).to_set() =~= scoping_graphs(graphs@, path@));
                    assert(views(nss@).contains(views(nss@)[0]));
                    let k = choose|k: int| 0 <= k < graphs@.len() && in_scope((#[trigger] graphs@[k]).1.files@, path@) && views(nss@)[0] == seq!['@'] + graphs@[k].0@;
                    assert(exists|j: int| 0 <= j < graphs@.len() && in_scope((#[trigger] graphs@[j]).1.files@, path@));
                }
                let ghost before = found@;
                found.push(unreadable_text_finding(path.as_str(), listed));
                assert(found@.drop_last() =~= before);
            } else {
                proof {
                    if exists|j: int| 0 <= j < graphs@.len() && in_scope((#[trigger] graphs@[j]).1.files@, path@) {
                        let j = choose|j: int| 0 <= j < graphs@.len() && in_scope((#[trigger] graphs@[j]).1.files@, path@);
                        assert(views(nss@).contains(seq!['@'] + graphs@[j].0@));
                    }
                }
            }
        }
        i = i + 1;
    }
    assert(files@.subrange(0, files@.len() as int) =~= files@);
    Ok((reads_out, found))
}

} // verus!
