//! Configuration: rule severities, the declared graphs, and the checks a
//! `.drft/config.toml` must pass before the project is read.
//!
//! Reading the file and decoding its TOML happen outside; what arrives here is
//! the decoded table as plain values ([`RawConfig`]), and [`Config::from_raw`]
//! decides whether it is a configuration drft accepts.

use vstd::prelude::*;
use vstd::string::StringSliceAdditionalSpecFns;
use globset::{Glob, GlobBuilder, GlobSet, GlobSetBuilder};
use crate::diagnostic::opt_view;
use crate::hints::Hint;
use crate::layout::{config_path, join_path_spec, CONFIG_FILE};
use crate::model::{has_sigil, namespace, validate_label};
use crate::paths::{hash_bytes, hash_spec, str_eq};
use crate::text::{copy_strings, owned, push_all, views};

verus! {

/// How a rule's findings are reported.
#[derive(Debug, Clone, Copy, PartialEq, Eq, Structural)]
pub enum RuleSeverity {
    Error,
    Warn,
    Off,
}

/// A configured graph: a file scope and the parser that interprets it.
/// `edge_keys` (frontmatter only) names the keys whose values yield edges;
/// empty means the graph yields no edges.
#[derive(Debug, Clone)]
pub struct GraphConfig {
    pub files: Vec<String>,
    pub parser: String,
    pub edge_keys: Vec<String>,
}

/// The severity a rule table takes when it names none.
pub fn default_warn() -> (r: RuleSeverity)
    ensures
        r == RuleSeverity::Warn,
{
    RuleSeverity::Warn
}

// ── Globs ──────────────────────────────────────────────────────

#[verifier::external_type_specification]
#[verifier::external_body]
pub struct ExGlob(Glob);

/// A compiled set of globs, carried through opaque.
#[verifier::external_type_specification]
#[verifier::external_body]
pub struct ExGlobSet(GlobSet);

#[verifier::external_type_specification]
#[verifier::external_body]
pub struct ExGlobSetBuilder(GlobSetBuilder);

/// The error text globset gives for `pattern` when it cannot read it as a
/// glob; `None` when it can. It depends on the pattern alone.
pub uninterp spec fn glob_compile_error(pattern: Seq<char>) -> Option<Seq<char>>;

/// Whether globset reads `pattern` as a glob.
pub open spec fn glob_accepts(pattern: Seq<char>) -> bool {
    glob_compile_error(pattern) is None
}

/// The text of globset's error for a pattern it cannot read.
pub open spec fn glob_error_of(pattern: Seq<char>) -> Seq<char> {
    match glob_compile_error(pattern) {
        Some(m) => m,
        None => seq![],
    }
}

/// A glob compiled from `pattern` by [`glob_compile`]; only [`compile_glob`]
/// makes one.
struct PatternGlob {
    glob: Glob,
    pattern: String,
}

/// `GlobBuilder::new(pattern).literal_separator(true).build()`: one glob in
/// which `*` stays inside a path component and `**` crosses directories. It
/// fails when globset cannot read the pattern, which depends on the pattern
/// alone, with the error's text.
#[verifier::external_body]
fn glob_compile(pattern: &str) -> (r: Result<Glob, String>)
    ensures
        match r {
            Ok(_) => glob_compile_error(pattern@) is None,
            Err(m) => glob_compile_error(pattern@) == Some(m@),
        },
{
    match GlobBuilder::new(pattern).literal_separator(true).build() {
        Ok(g) => Ok(g),
        Err(e) => Err(e.to_string()),
    }
}

/// One glob compiled from `pattern`, kept with its pattern.
fn compile_glob(pattern: &String) -> (r: Result<PatternGlob, String>)
    ensures
        r is Ok <==> glob_accepts(pattern@),
        r matches Ok(g) ==> g.pattern@ == pattern@,
        r matches Err(m) ==> m@ == glob_error_of(pattern@),
{
    match glob_compile(pattern.as_str()) {
        Ok(glob) => Ok(PatternGlob { glob, pattern: pattern.clone() }),
        Err(e) => Err(e),
    }
}

/// The patterns of the globs a builder holds, in the order they were added;
/// every glob was compiled by [`glob_compile`].
pub uninterp spec fn builder_globs(builder: GlobSetBuilder) -> Seq<Seq<char>>;

/// The error text globset gives when it cannot build one set from globs
/// compiled from `patterns` (it may refuse a set whose matcher grows too
/// large); `None` when it builds. It depends on the patterns alone.
pub uninterp spec fn glob_set_build_error(patterns: Seq<Seq<char>>) -> Option<Seq<char>>;

/// Whether globset builds one set from globs compiled from `patterns`.
pub open spec fn glob_set_builds(patterns: Seq<Seq<char>>) -> bool {
    glob_set_build_error(patterns) is None
}

/// The text of globset's error for a set it cannot build.
pub open spec fn glob_set_error_of(patterns: Seq<Seq<char>>) -> Seq<char> {
    match glob_set_build_error(patterns) {
        Some(m) => m,
        None => seq![],
    }
}

/// `GlobSetBuilder::new`: an empty builder.
#[verifier::external_body]
fn glob_set_builder() -> (r: GlobSetBuilder)
    ensures
        builder_globs(r) == Seq::<Seq<char>>::empty(),
{
    GlobSetBuilder::new()
}

/// `GlobSetBuilder::add`: add one glob to the end of the builder's list.
#[verifier::external_body]
fn glob_set_add(builder: &mut GlobSetBuilder, glob: PatternGlob)
    ensures
        builder_globs(*final(builder)) == builder_globs(*old(builder)).push(glob.pattern@),
{
    builder.add(glob.glob);
}

/// `GlobSetBuilder::build`: the combined matcher over the globs added. It
/// succeeds exactly when globset builds a set from those globs, and fails
/// with the error's text otherwise.
#[verifier::external_body]
fn glob_set_build(builder: &GlobSetBuilder) -> (r: Result<GlobSet, String>)
    ensures
        match r {
            Ok(_) => glob_set_build_error(builder_globs(*builder)) is None,
            Err(m) => glob_set_build_error(builder_globs(*builder)) == Some(m@),
        },
{
    match builder.build() {
        Ok(set) => Ok(set),
        Err(e) => Err(e.to_string()),
    }
}

/// Whether some pattern of `patterns` is one globset cannot read.
pub open spec fn has_bad_glob(patterns: Seq<String>) -> bool {
    exists|i: int| 0 <= i < patterns.len() && !glob_accepts(#[trigger] patterns[i]@)
}

/// Whether a list of patterns compiles to a set: there are none, or every
/// one reads as a glob and globset builds the set.
pub open spec fn globs_build(patterns: Seq<String>) -> bool {
    patterns.len() == 0 || (!has_bad_glob(patterns) && glob_set_builds(views(patterns)))
}

/// Whether the set globset builds from `patterns`, each compiled as
/// [`glob_compile`] compiles it, matches `path` (`GlobSet::is_match`: some
/// glob of the set matches it).
pub uninterp spec fn globs_match(patterns: Seq<Seq<char>>, path: Seq<char>) -> bool;

/// A compiled glob set, with the patterns it was compiled from. Only
/// [`compile_globs`] makes one, so the set is always the one globset builds
/// from these patterns.
#[derive(Debug)]
pub struct Globs {
    set: GlobSet,
    patterns: Vec<String>,
}

impl View for Globs {
    type V = Seq<Seq<char>>;

    closed spec fn view(&self) -> Seq<Seq<char>> {
        views(self.patterns@)
    }
}

/// `GlobSet::is_match` on the set of `globs`: whether some glob matches
/// `path`. Which paths match is globset's reading of the patterns, named
/// [`globs_match`]; it depends on the patterns and the path alone.
#[verifier::external_body]
fn glob_set_matches(globs: &Globs, path: &str) -> (r: bool)
    ensures
        r == globs_match(globs@, path@),
{
    globs.set.is_match(path)
}

impl Globs {
    /// Whether some glob of the set matches `path`.
    pub fn is_match(&self, path: &str) -> (r: bool)
        ensures
            r == globs_match(self@, path@),
    {
        glob_set_matches(self, path)
    }
}

/// The index of the first pattern from `i` on that globset cannot read.
pub open spec fn first_bad_glob(patterns: Seq<String>, i: int) -> Option<int>
    decreases patterns.len() - i,
{
    if i < 0 || i >= patterns.len() {
        None
    } else if !glob_accepts(patterns[i]@) {
        Some(i)
    } else {
        first_bad_glob(patterns, i + 1)
    }
}

/// The error a list of patterns that does not compile gives: that of the
/// first pattern globset cannot read, else that of building the set.
pub open spec fn globs_error(patterns: Seq<String>) -> Seq<char> {
    match first_bad_glob(patterns, 0) {
        Some(i) => glob_error_of(patterns[i]@),
        None => glob_set_error_of(views(patterns)),
    }
}

proof fn lemma_first_bad_glob_skip(patterns: Seq<String>, i: int)
    requires
        0 <= i <= patterns.len(),
        forall|j: int| 0 <= j < i ==> glob_accepts(#[trigger] patterns[j]@),
    ensures
        first_bad_glob(patterns, 0) == first_bad_glob(patterns, i),
    decreases i,
{
    if i > 0 {
        lemma_first_bad_glob_skip(patterns, i - 1);
    }
}

/// Compile a list of glob patterns into one set; `None` when there are none.
/// `*` matches within one path component and `**` across directories.
pub fn compile_globs(patterns: &Vec<String>) -> (r: Result<Option<Globs>, String>)
    ensures
        patterns@.len() == 0 <==> r matches Ok(None),
        r is Ok <==> globs_build(patterns@),
        r matches Ok(Some(g)) ==> g@ == views(patterns@),
        r matches Err(m) ==> m@ == globs_error(patterns@),
{
    if patterns.len() == 0 {
        return Ok(None);
    }
    let mut builder = glob_set_builder();
    let mut i: usize = 0;
    while i < patterns.len()
        invariant
            i <= patterns@.len(),
            forall|j: int| 0 <= j < i ==> glob_accepts(#[trigger] patterns@[j]@),
            builder_globs(builder) == views(patterns@.subrange(0, i as int)),
        decreases patterns@.len() - i,
    {
        match compile_glob(&patterns[i]) {
            Ok(g) => glob_set_add(&mut builder, g),
            Err(e) => {
                assert(has_bad_glob(patterns@));
                proof {
                    lemma_first_bad_glob_skip(patterns@, i as int);
                }
                return Err(e);
            },
        }
        assert(views(patterns@.subrange(0, i + 1)) =~= views(patterns@.subrange(0, i as int)).push(patterns@[i as int]@));
        i = i + 1;
    }
    assert(patterns@.subrange(0, patterns@.len() as int) =~= patterns@);
    proof {
        lemma_first_bad_glob_skip(patterns@, patterns@.len() as int);
    }
    match glob_set_build(&builder) {
        Ok(set) => Ok(Some(Globs { set, patterns: copy_strings(patterns) })),
        Err(e) => Err(e),
    }
}

/// `context` followed by `: ` and `inner`, as an error chain reads.
fn chain(context: String, inner: &String) -> (r: String)
    ensures
        r@ == context@ + ": "@ + inner@,
{
    let mut r = context;
    push_all(&mut r, ": ");
    push_all(&mut r, inner.as_str());
    r
}

// ── Rules ──────────────────────────────────────────────────────

/// Per-rule configuration: a severity and the globs of subject paths whose
/// findings the rule drops.
#[derive(Debug)]
pub struct RuleConfig {
    pub severity: RuleSeverity,
    pub ignore_compiled: Option<Globs>,
}

/// Whether the rule's ignore globs match `path`; never, when it has none.
pub open spec fn rule_ignores(c: RuleConfig, path: Seq<char>) -> bool {
    match c.ignore_compiled {
        Some(g) => globs_match(g@, path),
        None => false,
    }
}

impl RuleConfig {
    /// Whether the rule has no ignore globs at all.
    pub open spec fn ignores_nothing(&self) -> bool {
        self.ignore_compiled is None
    }

    /// A rule at `severity` that drops findings on paths `ignore` matches.
    pub fn new(severity: RuleSeverity, ignore: &Vec<String>) -> (r: Result<RuleConfig, String>)
        ensures
            r is Ok <==> globs_build(ignore@),
            r matches Ok(c) ==> c.severity == severity && (c.ignores_nothing() <==> ignore@.len() == 0),
            r matches Ok(c) ==> (c.ignore_compiled matches Some(g) ==> g@ == views(ignore@)),
    {
        match compile_globs(ignore) {
            Ok(set) => Ok(RuleConfig { severity, ignore_compiled: set }),
            Err(e) => Err(chain(owned("failed to compile ignore globs"), &e)),
        }
    }

    /// Whether the rule's ignore globs match `path`; never, when it has none.
    pub fn is_path_ignored(&self, path: &str) -> (r: bool)
        ensures
            r == rule_ignores(*self, path@),
    {
        match &self.ignore_compiled {
            Some(set) => set.is_match(path),
            None => false,
        }
    }
}

// ── The decoded file ───────────────────────────────────────────

/// One `[graphs.<name>]` table as decoded. Keys other than these three are
/// refused while decoding.
#[derive(Debug, Clone)]
pub struct RawGraph {
    pub files: Option<Vec<String>>,
    pub parser: String,
    pub edge_keys: Option<Vec<String>>,
}

/// One entry under `[rules]`: a bare severity (`stale-node = "error"`) or a
/// table with `severity` (default `warn`), `ignore`, and whatever other keys
/// it holds, by name.
#[derive(Debug, Clone)]
pub enum RawRuleValue {
    Severity(RuleSeverity),
    Table { severity: RuleSeverity, ignore: Vec<String>, unknown: Vec<String> },
}

/// The `[rules]` table: a global `ignore` applied to every rule, and the
/// per-rule entries by name.
#[derive(Debug, Clone)]
pub struct RawRules {
    pub ignore: Vec<String>,
    pub rules: Vec<(String, RawRuleValue)>,
}

/// A decoded `.drft/config.toml`: the top-level `ignore`, the graph tables by
/// name, the `[rules]` table, and whether `[experimental.usage]` sets
/// `enabled = true`.
#[derive(Debug, Clone)]
pub struct RawConfig {
    pub ignore: Option<Vec<String>>,
    pub graphs: Option<Vec<(String, RawGraph)>>,
    pub rules: Option<RawRules>,
    pub usage_enabled: bool,
}

/// Parsers a graph may declare.
pub open spec fn known_parser(p: Seq<char>) -> bool {
    p == "markdown"@ || p == "frontmatter"@
}

/// Parsers that accept `edge_keys`.
pub open spec fn takes_edge_keys(p: Seq<char>) -> bool {
    p == "frontmatter"@
}

/// Parsers that publish the `#fragment` addresses a file answers to.
pub open spec fn publishes_anchors(p: Seq<char>) -> bool {
    p == "markdown"@
}

/// The message a refused graph label reads.
pub open spec fn label_message(name: Seq<char>) -> Seq<char> {
    if name.len() == 0 {
        "graph label must not be empty"@
    } else {
        "graph label '"@ + name + "' must not contain '@' or start with '_'"@
    }
}

/// Why the graph table `name` is refused, if it is: a bad label, the reserved
/// name `fs`, an unknown parser, or `edge_keys` on a parser without keys.
pub open spec fn graph_error(name: Seq<char>, g: RawGraph) -> Option<Seq<char>> {
    if name.len() == 0 || has_sigil(name) {
        Some("invalid graph name in .drft/config.toml"@ + ": "@ + label_message(name))
    } else if name == "fs"@ {
        Some("graph name \""@ + name + "\" is reserved (the implicit base graph)"@)
    } else if !known_parser(g.parser@) {
        Some("unknown parser \""@ + g.parser@ + "\" for graph \""@ + name
            + "\" (known: markdown, frontmatter)"@)
    } else if g.edge_keys is Some && !takes_edge_keys(g.parser@) {
        Some("`edge_keys` is not supported by the \""@ + g.parser@ + "\" parser in graph \""@ + name
            + "\" (supported: frontmatter)"@)
    } else {
        None
    }
}

/// The first refusal among the graph tables from index `i` on.
pub open spec fn first_graph_error(gs: Seq<(String, RawGraph)>, i: int) -> Option<Seq<char>>
    decreases gs.len() - i,
{
    if i < 0 || i >= gs.len() {
        None
    } else {
        match graph_error(gs[i].0@, gs[i].1) {
            Some(m) => Some(m),
            None => first_graph_error(gs, i + 1),
        }
    }
}

/// The files a graph table scopes: its `files`, else every markdown file.
pub open spec fn graph_files(g: RawGraph) -> Seq<Seq<char>> {
    match g.files {
        Some(f) => views(f@),
        None => seq!["**/*.md"@],
    }
}

/// The edge keys a graph table names; none when it names none.
pub open spec fn graph_edge_keys(g: RawGraph) -> Seq<Seq<char>> {
    match g.edge_keys {
        Some(k) => views(k@),
        None => Seq::empty(),
    }
}

/// A graph configuration as its table declares it.
pub open spec fn graph_declared(c: GraphConfig, g: RawGraph) -> bool {
    &&& views(c.files@) == graph_files(g)
    &&& c.parser@ == g.parser@
    &&& views(c.edge_keys@) == graph_edge_keys(g)
}

/// Each graph configuration, in order, as the table of the same name declares it.
pub open spec fn graphs_declared(cs: Seq<(String, GraphConfig)>, gs: Seq<(String, RawGraph)>) -> bool {
    &&& cs.len() == gs.len()
    &&& forall|j: int| 0 <= j < cs.len() ==> (#[trigger] cs[j]).0@ == gs[j].0@ && graph_declared(cs[j].1, gs[j].1)
}

proof fn lemma_first_graph_error_skip(gs: Seq<(String, RawGraph)>, i: int)
    requires
        0 <= i <= gs.len(),
        forall|j: int| 0 <= j < i ==> graph_error((#[trigger] gs[j]).0@, gs[j].1) is None,
    ensures
        first_graph_error(gs, 0) == first_graph_error(gs, i),
    decreases i,
{
    if i > 0 {
        lemma_first_graph_error_skip(gs, i - 1);
        assert(graph_error(gs[i - 1].0@, gs[i - 1].1) is None);
    }
}

/// The refusal of one graph table, if any.
fn graph_check(name: &String, g: &RawGraph) -> (r: Option<String>)
    ensures
        opt_view(r) == graph_error(name@, *g),
{
    match validate_label(name.as_str()) {
        Err(e) => {
            let m = e.message();
            return Some(chain(owned("invalid graph name in .drft/config.toml"), &m));
        },
        Ok(()) => {},
    }
    if str_eq(name.as_str(), "fs") {
        let mut m = owned("graph name \"");
        push_all(&mut m, name.as_str());
        push_all(&mut m, "\" is reserved (the implicit base graph)");
        return Some(m);
    }
    let markdown = str_eq(g.parser.as_str(), "markdown");
    let frontmatter = str_eq(g.parser.as_str(), "frontmatter");
    if !markdown && !frontmatter {
        let mut m = owned("unknown parser \"");
        push_all(&mut m, g.parser.as_str());
        push_all(&mut m, "\" for graph \"");
        push_all(&mut m, name.as_str());
        push_all(&mut m, "\" (known: markdown, frontmatter)");
        return Some(m);
    }
    if g.edge_keys.is_some() && !frontmatter {
        let mut m = owned("`edge_keys` is not supported by the \"");
        push_all(&mut m, g.parser.as_str());
        push_all(&mut m, "\" parser in graph \"");
        push_all(&mut m, name.as_str());
        push_all(&mut m, "\" (supported: frontmatter)");
        return Some(m);
    }
    None
}

/// The configuration a graph table declares.
fn graph_config(g: &RawGraph) -> (r: GraphConfig)
    ensures
        graph_declared(r, *g),
{
    let files = match &g.files {
        Some(f) => copy_strings(f),
        None => {
            let mut v: Vec<String> = Vec::new();
            v.push(owned("**/*.md"));
            assert(views(v@) =~= seq!["**/*.md"@]);
            v
        },
    };
    let edge_keys = match &g.edge_keys {
        Some(k) => copy_strings(k),
        None => {
            let v: Vec<String> = Vec::new();
            assert(views(v@) =~= Seq::<Seq<char>>::empty());
            v
        },
    };
    GraphConfig { files, parser: g.parser.clone(), edge_keys }
}

/// Check the graph tables in order and build their configurations. The
/// first refused table ends the check with its message.
pub fn validate_graphs(gs: &Vec<(String, RawGraph)>) -> (r: Result<Vec<(String, GraphConfig)>, String>)
    ensures
        match first_graph_error(gs@, 0) {
            Some(m) => r matches Err(e) && e@ == m,
            None => r matches Ok(cs) && graphs_declared(cs@, gs@),
        },
{
    let mut out: Vec<(String, GraphConfig)> = Vec::new();
    let mut i: usize = 0;
    while i < gs.len()
        invariant
            i <= gs@.len(),
            out@.len() == i,
            forall|j: int| 0 <= j < i ==> graph_error((#[trigger] gs@[j]).0@, gs@[j].1) is None,
            forall|j: int| 0 <= j < i ==> (#[trigger] out@[j]).0@ == gs@[j].0@ && graph_declared(out@[j].1, gs@[j].1),
        decreases gs@.len() - i,
    {
        let (name, g) = (&gs[i].0, &gs[i].1);
        match graph_check(name, g) {
            Some(m) => {
                proof {
                    lemma_first_graph_error_skip(gs@, i as int);
                }
                return Err(m);
            },
            None => {},
        }
        let c = graph_config(g);
        out.push((name.clone(), c));
        i = i + 1;
    }
    proof {
        lemma_first_graph_error_skip(gs@, gs@.len() as int);
    }
    Ok(out)
}

/// The built-in rules, as the `unknown-rule` hint lists them.
pub open spec fn builtin_rule_list() -> Seq<char> {
    "stale-node, stale-edge, new-edge, removed-edge, removed-node, unresolved-edge, unresolved-fragment, detached-node, unlocked-node, no-baseline, unreadable-frontmatter, unreadable-text"@
}

/// Whether `name` is a built-in rule.
pub open spec fn builtin_rule(name: Seq<char>) -> bool {
    ||| name == "stale-node"@
    ||| name == "stale-edge"@
    ||| name == "new-edge"@
    ||| name == "removed-edge"@
    ||| name == "removed-node"@
    ||| name == "unresolved-edge"@
    ||| name == "unresolved-fragment"@
    ||| name == "detached-node"@
    ||| name == "unlocked-node"@
    ||| name == "no-baseline"@
    ||| name == "unreadable-frontmatter"@
    ||| name == "unreadable-text"@
}

/// Whether `name` is a built-in rule.
pub fn is_builtin_rule(name: &str) -> (r: bool)
    ensures
        r == builtin_rule(name@),
{
    str_eq(name, "stale-node") || str_eq(name, "stale-edge") || str_eq(name, "new-edge")
        || str_eq(name, "removed-edge") || str_eq(name, "removed-node") || str_eq(
        name,
        "unresolved-edge",
    ) || str_eq(name, "unresolved-fragment") || str_eq(name, "detached-node") || str_eq(
        name,
        "unlocked-node",
    ) || str_eq(name, "no-baseline") || str_eq(name, "unreadable-frontmatter") || str_eq(
        name,
        "unreadable-text",
    )
}

/// The `unknown-rule` hint raised for the rule entry `name`.
pub open spec fn unknown_rule_hint(h: Hint, name: Seq<char>) -> bool {
    &&& h.name@ == "unknown-rule"@
    &&& opt_view(h.locus) == Some("rules."@ + name)
    &&& h.message@ == "not a built-in rule, so this severity configures nothing"@
    &&& opt_view(h.next) == Some("correct the spelling or remove it — built-in rules are "@ + builtin_rule_list())
}

/// The hint for a rule entry that configures no built-in rule.
fn rule_hint(name: &String) -> (h: Hint)
    ensures
        unknown_rule_hint(h, name@),
{
    let mut locus = owned("rules.");
    push_all(&mut locus, name.as_str());
    let mut next = owned("correct the spelling or remove it — built-in rules are ");
    push_all(
        &mut next,
        "stale-node, stale-edge, new-edge, removed-edge, removed-node, unresolved-edge, unresolved-fragment, detached-node, unlocked-node, no-baseline, unreadable-frontmatter, unreadable-text",
    );
    Hint::new("unknown-rule", "not a built-in rule, so this severity configures nothing").at(
        locus.as_str(),
    ).with_next(next.as_str())
}

/// The severity a rule entry sets.
pub open spec fn rule_severity(v: RawRuleValue) -> RuleSeverity {
    match v {
        RawRuleValue::Severity(s) => s,
        RawRuleValue::Table { severity, .. } => severity,
    }
}

/// The ignore globs a rule entry names.
pub open spec fn rule_ignore_globs(v: RawRuleValue) -> Seq<String> {
    match v {
        RawRuleValue::Severity(_) => Seq::empty(),
        RawRuleValue::Table { ignore, .. } => ignore@,
    }
}

/// Why the rule entry `name` is refused, if it is: a table key other than
/// `severity` and `ignore` (the first one is named).
pub open spec fn rule_error(path: Seq<char>, name: Seq<char>, v: RawRuleValue) -> Option<Seq<char>> {
    match v {
        RawRuleValue::Table { unknown, .. } => if unknown@.len() > 0 {
            Some("failed to parse "@ + path + ": unknown field `"@ + unknown@[0]@ + "` in rules."@ + name
                + ", expected `severity` or `ignore`"@)
        } else {
            None
        },
        RawRuleValue::Severity(_) => None,
    }
}

/// The first refusal among the rule entries from index `i` on.
pub open spec fn first_rule_error(path: Seq<char>, rs: Seq<(String, RawRuleValue)>, i: int) -> Option<Seq<char>>
    decreases rs.len() - i,
{
    if i < 0 || i >= rs.len() {
        None
    } else {
        match rule_error(path, rs[i].0@, rs[i].1) {
            Some(m) => Some(m),
            None => first_rule_error(path, rs, i + 1),
        }
    }
}

proof fn lemma_first_rule_error_skip(path: Seq<char>, rs: Seq<(String, RawRuleValue)>, i: int)
    requires
        0 <= i <= rs.len(),
        forall|j: int| 0 <= j < i ==> rule_error(path, (#[trigger] rs[j]).0@, rs[j].1) is None,
    ensures
        first_rule_error(path, rs, 0) == first_rule_error(path, rs, i),
    decreases i,
{
    if i > 0 {
        lemma_first_rule_error_skip(path, rs, i - 1);
        assert(rule_error(path, rs[i - 1].0@, rs[i - 1].1) is None);
    }
}

/// The names of the rule entries that configure no built-in rule, in order.
pub open spec fn unknown_rule_names(rs: Seq<(String, RawRuleValue)>) -> Seq<Seq<char>>
    decreases rs.len(),
{
    if rs.len() == 0 {
        Seq::empty()
    } else if builtin_rule(rs.last().0@) {
        unknown_rule_names(rs.drop_last())
    } else {
        unknown_rule_names(rs.drop_last()).push(rs.last().0@)
    }
}

/// The rule entries as decoded, if the file has a `[rules]` table.
pub open spec fn raw_rule_entries(raw: RawConfig) -> Seq<(String, RawRuleValue)> {
    match raw.rules {
        Some(rr) => rr.rules@,
        None => Seq::empty(),
    }
}

/// The graph tables as decoded.
pub open spec fn raw_graph_tables(raw: RawConfig) -> Seq<(String, RawGraph)> {
    match raw.graphs {
        Some(gs) => gs@,
        None => Seq::empty(),
    }
}

/// The `[rules].ignore` globs as decoded.
pub open spec fn raw_rule_ignore(raw: RawConfig) -> Seq<String> {
    match raw.rules {
        Some(rr) => rr.ignore@,
        None => Seq::empty(),
    }
}

/// Whether every list of ignore globs under `[rules]` compiles to a set.
pub open spec fn names_buildable_globs(raw: RawConfig) -> bool {
    &&& globs_build(raw_rule_ignore(raw))
    &&& forall|j: int| 0 <= j < raw_rule_entries(raw).len()
        ==> globs_build(rule_ignore_globs((#[trigger] raw_rule_entries(raw)[j]).1))
}

/// Whether some ignore glob under `[rules]` is one globset cannot read.
pub open spec fn names_bad_glob(raw: RawConfig) -> bool {
    ||| has_bad_glob(raw_rule_ignore(raw))
    ||| exists|j: int| 0 <= j < raw_rule_entries(raw).len()
        && has_bad_glob(rule_ignore_globs((#[trigger] raw_rule_entries(raw)[j]).1))
}

// ── Config ─────────────────────────────────────────────────────

/// The loaded configuration.
#[derive(Debug)]
pub struct Config {
    /// Glob patterns the `fs` walk removes from the graph.
    pub ignore: Vec<String>,
    /// Configured graphs with their names, in the order declared.
    pub graphs: Vec<(String, GraphConfig)>,
    /// Per-rule configuration with the rule names, in the order declared.
    pub rules: Vec<(String, RuleConfig)>,
    /// Whether experimental local usage collection was enabled.
    pub usage_enabled: bool,
    /// `b3:` and the BLAKE3 digest of the exact config bytes, present only
    /// when usage is enabled.
    pub usage_config_fingerprint: Option<String>,
    /// Globs from `[rules].ignore`: subjects whose findings every rule drops.
    pub rule_ignore: Option<Globs>,
    /// The graph root the configuration was loaded from.
    pub config_dir: Option<String>,
    /// Advisories raised while loading, such as a misspelled rule name.
    pub hints: Vec<Hint>,
}

/// The index of the first rule entry from `i` on that configures `rule`.
pub open spec fn first_rule_entry(rules: Seq<(String, RuleConfig)>, rule: Seq<char>, i: int) -> Option<int>
    decreases rules.len() - i,
{
    if i < 0 || i >= rules.len() {
        None
    } else if rules[i].0@ == rule {
        Some(i)
    } else {
        first_rule_entry(rules, rule, i + 1)
    }
}

proof fn lemma_first_rule_entry_skip(rules: Seq<(String, RuleConfig)>, rule: Seq<char>, i: int)
    requires
        0 <= i <= rules.len(),
        forall|j: int| 0 <= j < i ==> (#[trigger] rules[j]).0@ != rule,
    ensures
        first_rule_entry(rules, rule, 0) == first_rule_entry(rules, rule, i),
    decreases i,
{
    if i > 0 {
        lemma_first_rule_entry_skip(rules, rule, i - 1);
    }
}

/// The `@<graph>` namespaces of the graphs whose parser publishes anchors,
/// in order.
pub open spec fn anchor_namespaces_spec(gs: Seq<(String, GraphConfig)>) -> Seq<Seq<char>>
    decreases gs.len(),
{
    if gs.len() == 0 {
        Seq::empty()
    } else if publishes_anchors(gs.last().1.parser@) {
        anchor_namespaces_spec(gs.drop_last()).push(seq!['@'] + gs.last().0@)
    } else {
        anchor_namespaces_spec(gs.drop_last())
    }
}

impl Config {
    /// The severity findings of `rule` are reported at: that of the first
    /// entry configuring the rule, `warn` when none does.
    pub open spec fn severity_spec(&self, rule: Seq<char>) -> RuleSeverity {
        match first_rule_entry(self.rules@, rule, 0) {
            Some(j) => self.rules@[j].1.severity,
            None => RuleSeverity::Warn,
        }
    }

    /// Whether findings of `rule` on `path` are dropped: by `[rules].ignore`,
    /// or else by the ignore globs of the first entry configuring `rule`.
    pub open spec fn ignored_spec(&self, rule: Seq<char>, path: Seq<char>) -> bool {
        (match self.rule_ignore {
            Some(g) => globs_match(g@, path),
            None => false,
        }) || match first_rule_entry(self.rules@, rule, 0) {
            Some(j) => rule_ignores(self.rules@[j].1, path),
            None => false,
        }
    }

    /// The severity findings of `rule` are reported at, per
    /// [`Config::severity_spec`].
    pub fn severity_of_rule(&self, rule: &str) -> (r: RuleSeverity)
        ensures
            r == self.severity_spec(rule@),
    {
        let mut i: usize = 0;
        while i < self.rules.len()
            invariant
                i <= self.rules@.len(),
                forall|j: int| 0 <= j < i ==> (#[trigger] self.rules@[j]).0@ != rule@,
            decreases self.rules@.len() - i,
        {
            if str_eq(self.rules[i].0.as_str(), rule) {
                proof {
                    lemma_first_rule_entry_skip(self.rules@, rule@, i as int);
                }
                return self.rules[i].1.severity;
            }
            i = i + 1;
        }
        proof {
            lemma_first_rule_entry_skip(self.rules@, rule@, i as int);
        }
        RuleSeverity::Warn
    }

    /// Whether the configuration drops findings on no path through
    /// `[rules].ignore`.
    pub open spec fn global_ignore_empty(&self) -> bool {
        self.rule_ignore is None
    }

    /// The base configuration: no graphs, no ignores, no rule entries.
    pub fn defaults() -> (r: Config)
        ensures
            r.ignore@.len() == 0,
            r.graphs@.len() == 0,
            r.rules@.len() == 0,
            !r.usage_enabled,
            r.usage_config_fingerprint is None,
            r.global_ignore_empty(),
            r.config_dir is None,
            r.hints@.len() == 0,
    {
        Config {
            ignore: Vec::new(),
            graphs: Vec::new(),
            rules: Vec::new(),
            usage_enabled: false,
            usage_config_fingerprint: None,
            rule_ignore: None,
            config_dir: None,
            hints: Vec::new(),
        }
    }

    /// Decide whether a decoded `.drft/config.toml` under `root` is accepted,
    /// and build the configuration it declares. The graph tables are checked
    /// first, in order, and the first refused one ends the load with its
    /// message; then the `[rules]` globs are compiled and each rule entry is
    /// checked in order. A rule entry that names no built-in rule still
    /// configures itself and raises an `unknown-rule` hint.
    pub fn from_raw(raw: &RawConfig, root: &str, content: &str) -> (r: Result<Config, String>)
        ensures
            first_graph_error(raw_graph_tables(*raw), 0) matches Some(m) ==> r matches Err(e) && e@ == m,
            names_bad_glob(*raw) ==> r is Err,
            first_graph_error(raw_graph_tables(*raw), 0) is None && names_buildable_globs(*raw) ==> match first_rule_error(
                join_path_spec(root@, CONFIG_FILE@),
                raw_rule_entries(*raw),
                0,
            ) {
                Some(m) => r matches Err(e) && e@ == m,
                None => r is Ok,
            },
            r matches Ok(c) ==> {
                &&& first_graph_error(raw_graph_tables(*raw), 0) is None
                &&& names_buildable_globs(*raw)
                &&& first_rule_error(join_path_spec(root@, CONFIG_FILE@), raw_rule_entries(*raw), 0) is None
                &&& views(c.ignore@) == match raw.ignore {
                    Some(v) => views(v@),
                    None => Seq::empty(),
                }
                &&& graphs_declared(c.graphs@, raw_graph_tables(*raw))
                &&& c.rules@.len() == raw_rule_entries(*raw).len()
                &&& forall|j: int| 0 <= j < c.rules@.len() ==> {
                    &&& (#[trigger] c.rules@[j]).0@ == raw_rule_entries(*raw)[j].0@
                    &&& c.rules@[j].1.severity == rule_severity(raw_rule_entries(*raw)[j].1)
                    &&& (c.rules@[j].1.ignores_nothing() <==> rule_ignore_globs(raw_rule_entries(*raw)[j].1).len() == 0)
                    &&& (c.rules@[j].1.ignore_compiled matches Some(g) ==> g@ == views(rule_ignore_globs(raw_rule_entries(*raw)[j].1)))
                }
                &&& (c.global_ignore_empty() <==> raw_rule_ignore(*raw).len() == 0)
                &&& (c.rule_ignore matches Some(g) ==> g@ == views(raw_rule_ignore(*raw)))
                &&& c.hints@.len() == unknown_rule_names(raw_rule_entries(*raw)).len()
                &&& forall|j: int| 0 <= j < c.hints@.len()
                    ==> unknown_rule_hint(#[trigger] c.hints@[j], unknown_rule_names(raw_rule_entries(*raw))[j])
                &&& c.usage_enabled == raw.usage_enabled
                &&& opt_view(c.usage_config_fingerprint) == if raw.usage_enabled {
                    Some(hash_spec(content.spec_bytes()))
                } else {
                    None
                }
                &&& opt_view(c.config_dir) == Some(root@)
            },
    {
        let path = config_path(root);
        let ignore = match &raw.ignore {
            Some(v) => copy_strings(v),
            None => {
                let v: Vec<String> = Vec::new();
                assert(views(v@) =~= Seq::<Seq<char>>::empty());
                v
            },
        };
        let graphs = match &raw.graphs {
            Some(gs) => match validate_graphs(gs) {
                Ok(cs) => cs,
                Err(e) => return Err(e),
            },
            None => Vec::new(),
        };
        let mut rules: Vec<(String, RuleConfig)> = Vec::new();
        let mut hints: Vec<Hint> = Vec::new();
        let mut rule_ignore: Option<Globs> = None;
        match &raw.rules {
            Some(rr) => {
                match compile_globs(&rr.ignore) {
                    Ok(set) => {
                        rule_ignore = set;
                    },
                    Err(e) => return Err(chain(owned("failed to compile [rules].ignore globs"), &e)),
                }
                let ghost entries = rr.rules@;
                let mut i: usize = 0;
                while i < rr.rules.len()
                    invariant
                        entries == rr.rules@,
                        entries == raw_rule_entries(*raw),
                        first_graph_error(raw_graph_tables(*raw), 0) is None,
                        path@ == join_path_spec(root@, CONFIG_FILE@),
                        i <= entries.len(),
                        rules@.len() == i,
                        forall|j: int| 0 <= j < i ==> rule_error(path@, (#[trigger] entries[j]).0@, entries[j].1) is None,
                        forall|j: int| 0 <= j < i ==> globs_build(rule_ignore_globs((#[trigger] entries[j]).1)),
                        globs_build(raw_rule_ignore(*raw)),
                        forall|j: int| 0 <= j < i ==> {
                            &&& (#[trigger] rules@[j]).0@ == entries[j].0@
                            &&& rules@[j].1.severity == rule_severity(entries[j].1)
                            &&& (rules@[j].1.ignores_nothing() <==> rule_ignore_globs(entries[j].1).len() == 0)
                            &&& (rules@[j].1.ignore_compiled matches Some(g) ==> g@ == views(rule_ignore_globs(entries[j].1)))
                        },
                        hints@.len() == unknown_rule_names(entries.subrange(0, i as int)).len(),
                        forall|j: int| 0 <= j < hints@.len()
                            ==> unknown_rule_hint(#[trigger] hints@[j], unknown_rule_names(entries.subrange(0, i as int))[j]),
                    decreases entries.len() - i,
                {
                    let name = &rr.rules[i].0;
                    let value = &rr.rules[i].1;
                    let rc = match value {
                        RawRuleValue::Severity(sev) => {
                            let none: Vec<String> = Vec::new();
                            match RuleConfig::new(*sev, &none) {
                                Ok(c) => c,
                                Err(e) => return Err(e),
                            }
                        },
                        RawRuleValue::Table { severity, ignore, unknown } => {
                            if unknown.len() > 0 {
                                let mut m = owned("failed to parse ");
                                push_all(&mut m, path.as_str());
                                push_all(&mut m, ": unknown field `");
                                push_all(&mut m, unknown[0].as_str());
                                push_all(&mut m, "` in rules.");
                                push_all(&mut m, name.as_str());
                                push_all(&mut m, ", expected `severity` or `ignore`");
                                proof {
                                    lemma_first_rule_error_skip(path@, entries, i as int);
                                }
                                return Err(m);
                            }
                            match RuleConfig::new(*severity, ignore) {
                                Ok(c) => c,
                                Err(e) => {
                                    let mut context = owned("invalid globs in rules.");
                                    push_all(&mut context, name.as_str());
                                    return Err(chain(context, &e));
                                },
                            }
                        },
                    };
                    let ghost before = entries.subrange(0, i as int);
                    let ghost after = entries.subrange(0, i + 1);
                    assert(after.drop_last() =~= before);
                    if !is_builtin_rule(name.as_str()) {
                        let h = rule_hint(name);
                        hints.push(h);
                    }
                    rules.push((name.clone(), rc));
                    i = i + 1;
                }
                proof {
                    lemma_first_rule_error_skip(path@, entries, entries.len() as int);
                    assert(entries.subrange(0, entries.len() as int) =~= entries);
                }
            },
            None => {},
        }
        let fingerprint = if raw.usage_enabled {
            Some(hash_bytes(content.as_bytes()))
        } else {
            None
        };
        Ok(
            Config {
                ignore,
                graphs,
                rules,
                usage_enabled: raw.usage_enabled,
                usage_config_fingerprint: fingerprint,
                rule_ignore,
                config_dir: Some(owned(root)),
                hints,
            },
        )
    }

    /// The `@<graph>` namespaces whose parser publishes anchors: the ones a
    /// fragment may be checked against.
    pub fn anchor_namespaces(&self) -> (r: Vec<String>)
        ensures
            views(r@) == anchor_namespaces_spec(self.graphs@),
    {
        let mut r: Vec<String> = Vec::new();
        let mut i: usize = 0;
        while i < self.graphs.len()
            invariant
                i <= self.graphs@.len(),
                views(r@) == anchor_namespaces_spec(self.graphs@.subrange(0, i as int)),
            decreases self.graphs@.len() - i,
        {
            let ghost before = self.graphs@.subrange(0, i as int);
            let ghost after = self.graphs@.subrange(0, i + 1);
            assert(after.drop_last() =~= before);
            if str_eq(self.graphs[i].1.parser.as_str(), "markdown") {
                let ns = namespace(self.graphs[i].0.as_str());
                r.push(ns);
                assert(views(r@) =~= anchor_namespaces_spec(before).push(seq!['@'] + self.graphs@[i as int].0@));
            }
            i = i + 1;
        }
        assert(self.graphs@.subrange(0, self.graphs@.len() as int) =~= self.graphs@);
        r
    }

    /// Glob patterns the `fs` walk removes from the graph.
    pub fn ignore_patterns(&self) -> (r: &[String])
        ensures
            r@ == self.ignore@,
    {
        self.ignore.as_slice()
    }

    /// Whether findings of `rule` on `path` are dropped: by `[rules].ignore`,
    /// or else by the ignore globs of the first entry configuring `rule`.
    pub fn is_rule_ignored(&self, rule: &str, path: &str) -> (r: bool)
        ensures
            r == self.ignored_spec(rule@, path@),
    {
        let global = match &self.rule_ignore {
            Some(set) => set.is_match(path),
            None => false,
        };
        if global {
            return true;
        }
        let mut i: usize = 0;
        while i < self.rules.len()
            invariant
                i <= self.rules@.len(),
                !match self.rule_ignore {
                    Some(g) => globs_match(g@, path@),
                    None => false,
                },
                forall|j: int| 0 <= j < i ==> (#[trigger] self.rules@[j]).0@ != rule@,
            decreases self.rules@.len() - i,
        {
            if str_eq(self.rules[i].0.as_str(), rule) {
                proof {
                    lemma_first_rule_entry_skip(self.rules@, rule@, i as int);
                }
                return self.rules[i].1.is_path_ignored(path);
            }
            i = i + 1;
        }
        proof {
            lemma_first_rule_entry_skip(self.rules@, rule@, i as int);
        }
        false
    }
}

} // verus!
