//! The decisions the commands make around the graph: how a lock is reported,
//! when a projection is large enough to flag, which namespaces a request may
//! name, and what a missed path is told.

use vstd::prelude::*;
use crate::diagnostic::opt_view;
use crate::hints::Hint;
use crate::config::{compile_globs, glob_accepts, glob_set_builds, globs_build, globs_match};
use crate::nodes::{normalize_namespace, normalize_namespace_spec};
use crate::order::{sort_distinct, sorted_members};
use crate::parsers::markdown::{dedup_first, dedup_strings};
use crate::paths::{normalize_relative_path, normalize_spec, str_eq};
use crate::text::{
    chars_of, decimal, decimal_string, join, join_spec, one_line_spec, owned, push_all, push_decimal, push_one_line,
    string_from_chars, views,
};

verus! {

/// The rendered size at which a projection is flagged as large.
pub const LARGE_PROJECTION_BYTES: usize = 65536;

/// The `large-projection` hint for `count` nodes rendered to `bytes` bytes:
/// raised from [`LARGE_PROJECTION_BYTES`] on, naming both numbers (the bytes in
/// whole KB) and the move that narrows the read.
pub fn large_projection_hint(count: usize, bytes: usize, next: &str) -> (r: Option<Hint>)
    ensures
        bytes < LARGE_PROJECTION_BYTES <==> r is None,
        r matches Some(h) ==> {
            &&& h.name@ == "large-projection"@
            &&& h.locus is None
            &&& h.message@ == decimal(count as nat) + " nodes rendered to "@ + decimal((bytes / 1024) as nat)
                + "KB of output"@
            &&& opt_view(h.next) == Some(next@)
        },
{
    if bytes < LARGE_PROJECTION_BYTES {
        return None;
    }
    let mut message = decimal_string(count);
    push_all(&mut message, " nodes rendered to ");
    push_decimal(&mut message, bytes / 1024);
    push_all(&mut message, "KB of output");
    Some(Hint::new("large-projection", message.as_str()).with_next(next))
}

/// `one` for exactly one, else `many`.
pub open spec fn noun(n: nat, one: Seq<char>, many: Seq<char>) -> Seq<char> {
    if n == 1 {
        one
    } else {
        many
    }
}

/// One line per node, each `\n`, then `label`, then the node on one line.
pub open spec fn listed_lines(label: Seq<char>, nodes: Seq<Seq<char>>) -> Seq<char>
    decreases nodes.len(),
{
    if nodes.len() == 0 {
        Seq::empty()
    } else {
        listed_lines(label, nodes.drop_last()) + seq!['\n'] + label + one_line_spec(nodes.last())
    }
}

/// The text report of a lock: how many nodes it locked and entries it
/// dropped, then the locked nodes by name (only for a scoped lock: `--all`
/// would copy the whole lock file) and the dropped ones (always).
pub open spec fn lock_report_spec(all: bool, locked: Seq<Seq<char>>, dropped: Seq<Seq<char>>) -> Seq<char> {
    "locked "@ + decimal(locked.len()) + seq![' '] + noun(locked.len(), "node"@, "nodes"@) + (if dropped.len() > 0 {
        ", dropped "@ + decimal(dropped.len()) + seq![' '] + noun(dropped.len(), "entry"@, "entries"@)
    } else {
        Seq::empty()
    }) + (if all {
        Seq::empty()
    } else {
        listed_lines("  locked  "@, locked)
    }) + listed_lines("  dropped "@, dropped)
}

fn push_listed(out: &mut String, label: &str, nodes: &Vec<String>)
    ensures
        final(out)@ == old(out)@ + listed_lines(label@, views(nodes@)),
{
    let ghost start = out@;
    let mut i: usize = 0;
    while i < nodes.len()
        invariant
            i <= nodes@.len(),
            out@ == start + listed_lines(label@, views(nodes@.subrange(0, i as int))),
        decreases nodes@.len() - i,
    {
        out.push('\n');
        push_all(out, label);
        push_one_line(out, nodes[i].as_str());
        proof {
            let sub = views(nodes@.subrange(0, i + 1));
            assert(sub.drop_last() =~= views(nodes@.subrange(0, i as int)));
            assert(sub.last() == nodes@[i as int]@);
            assert(out@ =~= start + listed_lines(label@, sub));
        }
        i = i + 1;
    }
    assert(nodes@.subrange(0, nodes@.len() as int) =~= nodes@);
}

/// The text report of what a lock wrote.
pub fn lock_report(all: bool, locked: &Vec<String>, dropped: &Vec<String>) -> (r: String)
    ensures
        r@ == lock_report_spec(all, views(locked@), views(dropped@)),
{
    let mut line = owned("locked ");
    push_decimal(&mut line, locked.len());
    line.push(' ');
    if locked.len() == 1 {
        push_all(&mut line, "node");
    } else {
        push_all(&mut line, "nodes");
    }
    if dropped.len() > 0 {
        push_all(&mut line, ", dropped ");
        push_decimal(&mut line, dropped.len());
        line.push(' ');
        if dropped.len() == 1 {
            push_all(&mut line, "entry");
        } else {
            push_all(&mut line, "entries");
        }
    }
    if !all {
        push_listed(&mut line, "  locked  ", locked);
    }
    push_listed(&mut line, "  dropped ", dropped);
    assert(line@ =~= lock_report_spec(all, views(locked@), views(dropped@)));
    line
}

/// Whether a selector carries a glob metacharacter, which makes it a pattern
/// over node keys rather than a path.
pub open spec fn glob_meta(c: char) -> bool {
    c == '*' || c == '?' || c == '[' || c == ']' || c == '{' || c == '}'
}

/// Whether a selector carries glob metacharacters.
pub fn has_glob_meta(selector: &str) -> (r: bool)
    ensures
        r == (exists|i: int| 0 <= i < selector@.len() && glob_meta(#[trigger] selector@[i])),
{
    let cs = crate::text::chars_of(selector);
    let mut i: usize = 0;
    while i < cs.len()
        invariant
            i <= cs@.len(),
            cs@ == selector@,
            forall|j: int| 0 <= j < i ==> !glob_meta(#[trigger] cs@[j]),
        decreases cs@.len() - i,
    {
        let c = cs[i];
        if c == '*' || c == '?' || c == '[' || c == ']' || c == '{' || c == '}' {
            assert(glob_meta(selector@[i as int]));
            return true;
        }
        i = i + 1;
    }
    false
}

/// A namespace argument without its `@`, if it has one.
pub open spec fn bare_namespace(name: Seq<char>) -> Seq<char> {
    if name.len() > 0 && name[0] == '@' {
        name.drop_first()
    } else {
        name
    }
}

/// The graphs a namespace may name: `fs` and every configured graph, sorted.
pub open spec fn declared_graphs(graph_names: Seq<Seq<char>>) -> Seq<Seq<char>> {
    sorted_members(graph_names.push("fs"@).to_set())
}

/// The first namespace from index `i` on that names no declared graph.
pub open spec fn first_unknown(declared: Seq<Seq<char>>, names: Seq<Seq<char>>, i: int) -> Option<int>
    decreases names.len() - i,
{
    if i < 0 || i >= names.len() {
        None
    } else if !declared.contains(bare_namespace(names[i])) {
        Some(i)
    } else {
        first_unknown(declared, names, i + 1)
    }
}

proof fn lemma_first_unknown_skip(declared: Seq<Seq<char>>, names: Seq<Seq<char>>, i: int)
    requires
        0 <= i <= names.len(),
        forall|j: int| 0 <= j < i ==> declared.contains(bare_namespace(#[trigger] names[j])),
    ensures
        first_unknown(declared, names, 0) == first_unknown(declared, names, i),
    decreases i,
{
    if i > 0 {
        lemma_first_unknown_skip(declared, names, i - 1);
    }
}

/// The text of a namespace the request may not name.
pub open spec fn unknown_namespace_message(name: Seq<char>, declared: Seq<Seq<char>>) -> Seq<char> {
    "unknown namespace \""@ + name + "\" — declared graphs: "@ + join_spec(declared, ", "@)
}

/// Check each requested namespace against the declared graphs (`fs` and the
/// configured graphs `graph_names`) and normalize it to its `@<graph>` key,
/// each once, in the order given. The first namespace naming no declared
/// graph is refused, with the declared graphs listed in order.
pub fn resolve_namespaces(graph_names: &Vec<String>, namespaces: &Vec<String>) -> (r: Result<Vec<String>, String>)
    ensures
        match first_unknown(declared_graphs(views(graph_names@)), views(namespaces@), 0) {
            Some(k) => r matches Err(e) && e@ == unknown_namespace_message(
                namespaces@[k]@,
                declared_graphs(views(graph_names@)),
            ),
            None => r matches Ok(keys) && views(keys@) == dedup_first(
                views(namespaces@).map_values(|n: Seq<char>| normalize_namespace_spec(n)),
            ),
        },
{
    let mut all = crate::text::copy_strings(graph_names);
    all.push(owned("fs"));
    assert(views(all@) =~= views(graph_names@).push("fs"@));
    let declared = sort_distinct(&all);
    let ghost dv = views(declared@);
    let ghost nv = views(namespaces@);
    let mut keys: Vec<String> = Vec::new();
    let mut i: usize = 0;
    while i < namespaces.len()
        invariant
            i <= namespaces@.len(),
            dv == views(declared@),
            dv == declared_graphs(views(graph_names@)),
            nv == views(namespaces@),
            keys@.len() == i,
            forall|j: int| 0 <= j < i ==> dv.contains(bare_namespace(#[trigger] nv[j])),
            forall|j: int| 0 <= j < i ==> (#[trigger] keys@[j])@ == normalize_namespace_spec(nv[j]),
        decreases namespaces@.len() - i,
    {
        let name = &namespaces[i];
        let cs = chars_of(name.as_str());
        let bare = if cs.len() > 0 && cs[0] == '@' {
            let mut rest: Vec<char> = Vec::new();
            let mut k: usize = 1;
            while k < cs.len()
                invariant
                    1 <= k <= cs@.len(),
                    rest@ == cs@.subrange(1, k as int),
                decreases cs@.len() - k,
            {
                rest.push(cs[k]);
                assert(cs@.subrange(1, k + 1) =~= cs@.subrange(1, k as int).push(cs@[k as int]));
                k = k + 1;
            }
            assert(rest@ =~= cs@.drop_first());
            string_from_chars(&rest)
        } else {
            string_from_chars(&cs)
        };
        assert(bare@ == bare_namespace(nv[i as int]));
        let mut found = false;
        let mut q: usize = 0;
        while q < declared.len()
            invariant
                q <= declared@.len(),
                dv == views(declared@),
                found == (exists|j: int| 0 <= j < q && dv[j] == bare@),
            decreases declared@.len() - q,
        {
            assert(dv[q as int] == declared@[q as int]@);
            if str_eq(declared[q].as_str(), bare.as_str()) {
                found = true;
            }
            q = q + 1;
        }
        if !found {
            let mut m = owned("unknown namespace \"");
            push_all(&mut m, name.as_str());
            push_all(&mut m, "\" — declared graphs: ");
            let listed = join(&declared, ", ");
            push_all(&mut m, listed.as_str());
            proof {
                assert(!dv.contains(bare_namespace(nv[i as int])));
                lemma_first_unknown_skip(dv, nv, i as int);
            }
            return Err(m);
        }
        proof {
            let j = choose|j: int| 0 <= j < q && dv[j] == bare@;
            assert(dv.contains(bare_namespace(nv[i as int])));
        }
        keys.push(normalize_namespace(name.as_str()));
        i = i + 1;
    }
    proof {
        lemma_first_unknown_skip(dv, nv, nv.len() as int);
        assert(views(keys@) =~= nv.map_values(|n: Seq<char>| normalize_namespace_spec(n)));
    }
    Ok(dedup_strings(&keys))
}

/// Whether `std::path::Path::extension` finds an extension in `path`.
pub uninterp spec fn path_has_extension(path: Seq<char>) -> bool;

/// `std::path::Path::new(path).extension().is_some()`: whether the final
/// component of `path` has an extension, as std reads path components. The
/// answer depends on `path` alone; a path with no `.` at all has none.
#[verifier::external_body]
fn has_extension(path: &str) -> (r: bool)
    ensures
        r == path_has_extension(path@),
        !path@.contains('.') ==> !r,
{
    std::path::Path::new(path).extension().is_some()
}

/// The view of an optional string slice.
pub open spec fn str_opt_view(o: Option<&str>) -> Option<Seq<char>> {
    match o {
        Some(s) => Some(s@),
        None => None,
    }
}

/// A path with `.md` appended.
pub open spec fn with_md(s: Seq<char>) -> Seq<char> {
    s + ".md"@
}

/// What a missed path is compared against: the exact key it resolved to (if
/// any), that key with `.md` when the path has no extension, the path
/// normalized, and that with `.md` when the path has no extension.
pub open spec fn suggestion_needles(path: Seq<char>, exact: Option<Seq<char>>) -> Seq<Seq<char>> {
    let ext = path_has_extension(path);
    let n0: Seq<Seq<char>> = match exact {
        Some(e) => if ext {
            seq![e]
        } else {
            seq![e, with_md(e)]
        },
        None => Seq::empty(),
    };
    let raw = normalize_spec(path);
    let n1 = if n0.contains(raw) {
        n0
    } else {
        n0.push(raw)
    };
    if ext {
        n1
    } else {
        n1.push(with_md(raw))
    }
}

/// Whether the key is the needle or ends with `/` and the needle.
pub open spec fn names_needle(k: Seq<char>, n: Seq<char>) -> bool {
    k == n || (k.len() > n.len() && k.subrange(k.len() - n.len() - 1, k.len() as int) == seq!['/'] + n)
}

/// Whether the key answers one of the needles.
pub open spec fn suggests(k: Seq<char>, needles: Seq<Seq<char>>) -> bool {
    exists|i: int| 0 <= i < needles.len() && names_needle(k, #[trigger] needles[i])
}

/// The keys suggested for a missed path, sorted and distinct.
pub open spec fn suggestions(keys: Seq<Seq<char>>, needles: Seq<Seq<char>>) -> Seq<Seq<char>> {
    sorted_members(Set::new(|k: Seq<char>| keys.contains(k) && suggests(k, needles)))
}

/// How many suggestions an error names: at most five.
pub open spec fn shown_count(n: nat) -> int {
    if n < 5 {
        n as int
    } else {
        5
    }
}

/// The keys of `keys` that answer a needle, in order.
pub open spec fn suggested_in(keys: Seq<Seq<char>>, needles: Seq<Seq<char>>) -> Seq<Seq<char>>
    decreases keys.len(),
{
    if keys.len() == 0 {
        Seq::empty()
    } else if suggests(keys.last(), needles) {
        suggested_in(keys.drop_last(), needles).push(keys.last())
    } else {
        suggested_in(keys.drop_last(), needles)
    }
}

proof fn lemma_suggested_in(keys: Seq<Seq<char>>, needles: Seq<Seq<char>>)
    ensures
        forall|x: Seq<char>| suggested_in(keys, needles).contains(x) <==> (keys.contains(x) && suggests(x, needles)),
    decreases keys.len(),
{
    if keys.len() > 0 {
        let init = keys.drop_last();
        lemma_suggested_in(init, needles);
        assert forall|x: Seq<char>| suggested_in(keys, needles).contains(x) <==> (keys.contains(x) && suggests(x, needles)) by {
            let prev = suggested_in(init, needles);
            if keys.contains(x) {
                let k = choose|k: int| 0 <= k < keys.len() && keys[k] == x;
                if k < keys.len() - 1 {
                    assert(init[k] == x);
                }
            }
            if init.contains(x) {
                let k = choose|k: int| 0 <= k < init.len() && init[k] == x;
                assert(keys[k] == x);
            }
            if suggests(keys.last(), needles) {
                let s = prev.push(keys.last());
                if s.contains(x) {
                    let k = choose|k: int| 0 <= k < s.len() && s[k] == x;
                    if k < prev.len() {
                        assert(prev[k] == x);
                    }
                }
                if prev.contains(x) {
                    let k = choose|k: int| 0 <= k < prev.len() && prev[k] == x;
                    assert(s[k] == x);
                }
                assert(s[prev.len() as int] == keys.last());
            }
        }
    }
}

/// A value in double quotes, on one line.
pub open spec fn quote_line(s: Seq<char>) -> Seq<char> {
    seq!['"'] + one_line_spec(s) + seq!['"']
}

/// The error for a path that names no node, given the suggested keys: none,
/// one (`did you mean`), or several (the first five, and how many more).
pub open spec fn not_found_spec(path: Seq<char>, m: Seq<Seq<char>>) -> Seq<char> {
    let head = "node not found: "@ + quote_line(path);
    if m.len() == 0 {
        head
    } else if m.len() == 1 {
        head + " — did you mean "@ + quote_line(m[0]) + seq!['?']
    } else {
        head + " — multiple matches: "@ + join_spec(
            m.take(shown_count(m.len())).map_values(|k: Seq<char>| quote_line(k)),
            ", "@,
        ) + (
        if m.len() > 5 {
            ", and "@ + decimal((m.len() - 5) as nat) + " more"@
        } else {
            Seq::empty()
        })
    }
}

fn push_quoted_line(out: &mut String, s: &str)
    ensures
        final(out)@ == old(out)@ + quote_line(s@),
{
    out.push('"');
    push_one_line(out, s);
    out.push('"');
    assert(final(out)@ =~= old(out)@ + quote_line(s@));
}

/// Whether the key is the needle or ends with `/` and the needle.
fn names_needle_exec(k: &str, n: &str) -> (r: bool)
    ensures
        r == names_needle(k@, n@),
{
    let kc = chars_of(k);
    let nc = chars_of(n);
    if str_eq(k, n) {
        return true;
    }
    if kc.len() <= nc.len() {
        return false;
    }
    let off = kc.len() - nc.len() - 1;
    if kc[off] != '/' {
        assert(k@.subrange(k@.len() - n@.len() - 1, k@.len() as int)[0] != '/');
        return false;
    }
    let mut j: usize = 0;
    while j < nc.len()
        invariant
            kc@ == k@,
            nc@ == n@,
            kc@.len() > nc@.len(),
            kc@.len() <= usize::MAX,
            off == kc@.len() - nc@.len() - 1,
            j <= nc@.len(),
            forall|q: int| 0 <= q < j ==> kc@[off + 1 + q] == nc@[q],
        decreases nc@.len() - j,
    {
        assert(off + 1 + j < kc@.len());
        if kc[off + 1 + j] != nc[j] {
            assert(k@.subrange(off as int, k@.len() as int)[j + 1] != (seq!['/'] + n@)[j + 1]);
            return false;
        }
        j = j + 1;
    }
    assert(k@.subrange(off as int, k@.len() as int) =~= seq!['/'] + n@);
    true
}

/// The error text for `path`, which names no node among `keys`; `exact` is
/// the key the path resolved to, if it resolved inside the graph. Keys that
/// are a needle or end in `/` and one are suggested; the suggestions never
/// select anything.
pub fn not_found_message(keys: &Vec<String>, path: &str, exact: Option<&str>) -> (r: String)
    ensures
        r@ == not_found_spec(
            path@,
            suggestions(views(keys@), suggestion_needles(path@, str_opt_view(exact))),
        ),
{
    let ext = has_extension(path);
    let mut needles: Vec<String> = Vec::new();
    match exact {
        Some(e) => {
            needles.push(owned(e));
            if !ext {
                let mut m = owned(e);
                push_all(&mut m, ".md");
                needles.push(m);
            }
        },
        None => {},
    }
    let ghost n0 = views(needles@);
    assert(n0 =~= match str_opt_view(exact) {
        Some(e) => if ext {
            seq![e]
        } else {
            seq![e, with_md(e)]
        },
        None => Seq::<Seq<char>>::empty(),
    });
    let raw = normalize_relative_path(path);
    let mut present = false;
    let mut q: usize = 0;
    while q < needles.len()
        invariant
            q <= needles@.len(),
            n0 == views(needles@),
            present == (exists|j: int| 0 <= j < q && n0[j] == raw@),
        decreases needles@.len() - q,
    {
        assert(n0[q as int] == needles@[q as int]@);
        if str_eq(needles[q].as_str(), raw.as_str()) {
            present = true;
        }
        q = q + 1;
    }
    assert(present == n0.contains(raw@));
    if !present {
        needles.push(raw.clone());
    }
    let ghost n1 = views(needles@);
    assert(n1 =~= if n0.contains(raw@) { n0 } else { n0.push(raw@) });
    if !ext {
        let mut m = raw.clone();
        push_all(&mut m, ".md");
        needles.push(m);
    }
    let ghost nv = views(needles@);
    assert(nv =~= suggestion_needles(path@, str_opt_view(exact)));
    let mut hits: Vec<String> = Vec::new();
    let ghost kv = views(keys@);
    let mut i: usize = 0;
    while i < keys.len()
        invariant
            i <= keys@.len(),
            kv == views(keys@),
            nv == views(needles@),
            views(hits@) == suggested_in(kv.subrange(0, i as int), nv),
        decreases keys@.len() - i,
    {
        let mut hit = false;
        let mut q: usize = 0;
        while q < needles.len()
            invariant
                i < keys@.len(),
                kv == views(keys@),
                q <= needles@.len(),
                nv == views(needles@),
                hit == (exists|j: int| 0 <= j < q && names_needle(keys@[i as int]@, #[trigger] nv[j])),
            decreases needles@.len() - q,
        {
            assert(nv[q as int] == needles@[q as int]@);
            if names_needle_exec(keys[i].as_str(), needles[q].as_str()) {
                hit = true;
            }
            q = q + 1;
        }
        proof {
            assert(kv[i as int] == keys@[i as int]@);
            assert(hit == suggests(kv[i as int], nv));
            assert(kv.subrange(0, i + 1).drop_last() =~= kv.subrange(0, i as int));
        }
        if hit {
            hits.push(keys[i].clone());
        }
        i = i + 1;
    }
    let m = sort_distinct(&hits);
    proof {
        assert(kv.subrange(0, kv.len() as int) =~= kv);
        lemma_suggested_in(kv, nv);
        let target = Set::new(|k: Seq<char>| kv.contains(k) && suggests(k, nv));
        assert forall|x: Seq<char>| views(hits@).to_set().contains(x) <==> target.contains(x) by {
        }
        assert(views(hits@).to_set() =~= target);
    }
    let mut out = owned("node not found: ");
    push_quoted_line(&mut out, path);
    if m.len() == 1 {
        push_all(&mut out, " — did you mean ");
        push_quoted_line(&mut out, m[0].as_str());
        out.push('?');
    } else if m.len() > 1 {
        push_all(&mut out, " — multiple matches: ");
        let take: usize = if m.len() < 5 { m.len() } else { 5 };
        let mut shown: Vec<String> = Vec::new();
        let mut j: usize = 0;
        while j < take
            invariant
                j <= take,
                take <= m@.len(),
                take == if m@.len() < 5 { m@.len() } else { 5 },
                shown@.len() == j,
                forall|t: int| 0 <= t < j ==> (#[trigger] shown@[t])@ == quote_line(m@[t]@),
            decreases take - j,
        {
            let mut qs = String::new();
            push_quoted_line(&mut qs, m[j].as_str());
            shown.push(qs);
            j = j + 1;
        }
        let ghost mv = views(m@);
        assert(views(shown@) =~= mv.take(shown_count(mv.len())).map_values(|k: Seq<char>| quote_line(k)));
        let listed = join(&shown, ", ");
        push_all(&mut out, listed.as_str());
        if m.len() > 5 {
            push_all(&mut out, ", and ");
            push_decimal(&mut out, m.len() - 5);
            push_all(&mut out, " more");
        }
    }
    assert(out@ =~= not_found_spec(path@, views(m@)));
    out
}

// ── Selectors ──────────────────────────────────────────────────

/// Whether a selector carries a glob metacharacter.
pub open spec fn is_pattern(sel: Seq<char>) -> bool {
    exists|i: int| 0 <= i < sel.len() && glob_meta(#[trigger] sel[i])
}

/// Whether a pattern selector compiles to a glob set.
pub open spec fn pattern_compiles(sel: Seq<char>) -> bool {
    glob_accepts(sel) && glob_set_builds(seq![sel])
}

/// Whether `k` lies below the directory `p`: it starts with `p/`.
pub open spec fn below(k: Seq<char>, p: Seq<char>) -> bool {
    k.len() > p.len() && k.subrange(0, p.len() + 1 as int) == p + seq!['/']
}

/// Whether a path selector names a directory: the key it resolves to is a
/// directory node, or it ends in `/`.
pub open spec fn names_dir(dirs: Seq<Seq<char>>, sel: Seq<char>) -> bool {
    dirs.contains(normalize_spec(sel)) || (sel.len() > 0 && sel.last() == '/')
}

/// Whether the selector picks the node key `k`: a pattern matches it; a path
/// is it (unless the path names a directory) or has it in its subtree.
pub open spec fn selects(keys: Seq<Seq<char>>, dirs: Seq<Seq<char>>, sel: Seq<char>, k: Seq<char>) -> bool {
    keys.contains(k) && if is_pattern(sel) {
        globs_match(seq![sel], k)
    } else {
        (!names_dir(dirs, sel) && k == normalize_spec(sel)) || below(k, normalize_spec(sel))
    }
}

/// Whether the selector picks no key.
pub open spec fn selects_none(keys: Seq<Seq<char>>, dirs: Seq<Seq<char>>, sel: Seq<char>) -> bool {
    forall|j: int| 0 <= j < keys.len() ==> !selects(keys, dirs, sel, #[trigger] keys[j])
}

/// Whether the selector is refused: a pattern that does not compile, or a
/// path that picks nothing and names no directory node.
pub open spec fn refused(keys: Seq<Seq<char>>, dirs: Seq<Seq<char>>, sel: Seq<char>) -> bool {
    if is_pattern(sel) {
        !pattern_compiles(sel)
    } else {
        selects_none(keys, dirs, sel) && !dirs.contains(normalize_spec(sel))
    }
}

/// The first refused selector from index `i` on.
pub open spec fn first_refused(keys: Seq<Seq<char>>, dirs: Seq<Seq<char>>, sels: Seq<Seq<char>>, i: int) -> Option<int>
    decreases sels.len() - i,
{
    if i < 0 || i >= sels.len() {
        None
    } else if refused(keys, dirs, sels[i]) {
        Some(i)
    } else {
        first_refused(keys, dirs, sels, i + 1)
    }
}

proof fn lemma_first_refused_skip(keys: Seq<Seq<char>>, dirs: Seq<Seq<char>>, sels: Seq<Seq<char>>, i: int)
    requires
        0 <= i <= sels.len(),
        forall|j: int| 0 <= j < i ==> !refused(keys, dirs, #[trigger] sels[j]),
    ensures
        first_refused(keys, dirs, sels, 0) == first_refused(keys, dirs, sels, i),
    decreases i,
{
    if i > 0 {
        lemma_first_refused_skip(keys, dirs, sels, i - 1);
    }
}

/// The selectors, in order, whose empty answer earns a hint: a pattern that
/// matched nothing (`true`), or a directory with nothing below it (`false`).
pub open spec fn empty_answers(keys: Seq<Seq<char>>, dirs: Seq<Seq<char>>, sels: Seq<Seq<char>>) -> Seq<(Seq<char>, bool)>
    decreases sels.len(),
{
    if sels.len() == 0 {
        Seq::empty()
    } else if selects_none(keys, dirs, sels.last()) {
        empty_answers(keys, dirs, sels.drop_last()).push((sels.last(), is_pattern(sels.last())))
    } else {
        empty_answers(keys, dirs, sels.drop_last())
    }
}

/// The `zero-match-selector` hint for a selector that picked nothing.
pub open spec fn zero_match_hint(h: Hint, sel: Seq<char>, pattern: bool) -> bool {
    &&& h.name@ == "zero-match-selector"@
    &&& opt_view(h.locus) == Some(sel)
    &&& if pattern {
        &&& h.message@ == "matched no nodes"@
        &&& opt_view(h.next) == Some(
            "check the pattern against node keys — `*` stops at a path separator, `**` crosses it"@,
        )
    } else {
        &&& h.message@ == "is a directory with no files in the graph"@
        &&& h.next is None
    }
}

/// Whether `k` lies below `p`.
pub(crate) fn below_exec(k: &str, p: &str) -> (r: bool)
    ensures
        r == below(k@, p@),
{
    let kc = chars_of(k);
    let pc = chars_of(p);
    if kc.len() <= pc.len() {
        return false;
    }
    let mut j: usize = 0;
    while j < pc.len()
        invariant
            kc@ == k@,
            pc@ == p@,
            kc@.len() > pc@.len(),
            j <= pc@.len(),
            forall|q: int| 0 <= q < j ==> kc@[q] == pc@[q],
        decreases pc@.len() - j,
    {
        if kc[j] != pc[j] {
            assert(k@.subrange(0, p@.len() + 1 as int)[j as int] != (p@ + seq!['/'])[j as int]);
            return false;
        }
        j = j + 1;
    }
    if kc[pc.len()] != '/' {
        assert(k@.subrange(0, p@.len() + 1 as int)[p@.len() as int] != (p@ + seq!['/'])[p@.len() as int]);
        return false;
    }
    assert(k@.subrange(0, p@.len() + 1 as int) =~= p@ + seq!['/']);
    true
}

/// Whether `s` is among `list`.
pub(crate) fn contains_str(list: &Vec<String>, s: &String) -> (r: bool)
    ensures
        r == views(list@).contains(s@),
{
    let mut i: usize = 0;
    while i < list.len()
        invariant
            i <= list@.len(),
            forall|q: int| 0 <= q < i ==> list@[q]@ != s@,
        decreases list@.len() - i,
    {
        if str_eq(list[i].as_str(), s.as_str()) {
            assert(views(list@)[i as int] == s@);
            return true;
        }
        i = i + 1;
    }
    proof {
        if views(list@).contains(s@) {
            let q = choose|q: int| 0 <= q < views(list@).len() && views(list@)[q] == s@;
            assert(list@[q]@ == s@);
        }
    }
    false
}

/// The keys one selector picks, in key order, or its refusal.
fn select_one(keys: &Vec<String>, dirs: &Vec<String>, sel: &String) -> (r: Result<Vec<String>, String>)
    ensures
        r is Err <==> refused(views(keys@), views(dirs@), sel@),
        !is_pattern(sel@) ==> (r matches Err(e) ==> e@ == not_found_spec(
            sel@,
            suggestions(views(keys@), suggestion_needles(sel@, Some(normalize_spec(sel@)))),
        )),
        r matches Ok(v) ==> forall|x: Seq<char>| views(v@).contains(x) <==> selects(views(keys@), views(dirs@), sel@, x),
{
    let ghost kv = views(keys@);
    let ghost dv = views(dirs@);
    let pattern = has_glob_meta(sel.as_str());
    let mut one: Vec<String> = Vec::new();
    one.push(sel.clone());
    let compiled = if pattern {
        let c = compile_globs(&one);
        proof {
            assert(views(one@) =~= seq![sel@]);
            assert(globs_build(one@) <==> pattern_compiles(sel@)) by {
                assert(views(one@) =~= seq![sel@]);
                if glob_accepts(sel@) {
                    assert forall|i: int| 0 <= i < one@.len() implies glob_accepts(#[trigger] one@[i]@) by {
                        assert(one@[i] == *sel);
                    }
                } else {
                    assert(!glob_accepts(one@[0]@));
                }
            }
        }
        match c {
            Ok(Some(g)) => Some(g),
            Ok(None) => {
                assert(false);
                None
            },
            Err(e) => return Err(e),
        }
    } else {
        None
    };
    let prefix = normalize_relative_path(sel.as_str());
    let is_dir_node = contains_str(dirs, &prefix);
    let scs = chars_of(sel.as_str());
    let slash = scs.len() > 0 && scs[scs.len() - 1] == '/';
    let is_dir = is_dir_node || slash;
    let mut out: Vec<String> = Vec::new();
    let mut i: usize = 0;
    while i < keys.len()
        invariant
            i <= keys@.len(),
            kv == views(keys@),
            dv == views(dirs@),
            pattern == is_pattern(sel@),
            pattern ==> (compiled matches Some(g) && g@ == seq![sel@]),
            prefix@ == normalize_spec(sel@),
            is_dir == names_dir(dv, sel@),
            forall|x: Seq<char>| views(out@).contains(x) <==> (exists|q: int| 0 <= q < i && x == kv[q] && selects(kv, dv, sel@, #[trigger] kv[q])),
        decreases keys@.len() - i,
    {
        let k = &keys[i];
        let hit = if pattern {
            match &compiled {
                Some(g) => g.is_match(k.as_str()),
                None => false,
            }
        } else {
            (!is_dir && str_eq(k.as_str(), prefix.as_str())) || below_exec(k.as_str(), prefix.as_str())
        };
        proof {
            assert(kv[i as int] == k@);
            assert(kv.contains(k@));
            assert(hit == selects(kv, dv, sel@, kv[i as int]));
        }
        let ghost before = views(out@);
        if hit {
            out.push(k.clone());
        }
        proof {
            assert forall|x: Seq<char>| views(out@).contains(x) <==> (exists|q: int| 0 <= q < i + 1 && x == kv[q] && selects(kv, dv, sel@, #[trigger] kv[q])) by {
                if views(out@).contains(x) {
                    let m = choose|m: int| 0 <= m < views(out@).len() && views(out@)[m] == x;
                    if m < before.len() {
                        assert(before[m] == x);
                        assert(before.contains(x));
                        let q = choose|q: int| 0 <= q < i && x == kv[q] && selects(kv, dv, sel@, #[trigger] kv[q]);
                        assert(0 <= q < i + 1 && x == kv[q] && selects(kv, dv, sel@, kv[q]));
                    } else {
                        assert(x == kv[i as int]);
                    }
                }
                if exists|q: int| 0 <= q < i + 1 && x == kv[q] && selects(kv, dv, sel@, #[trigger] kv[q]) {
                    let q = choose|q: int| 0 <= q < i + 1 && x == kv[q] && selects(kv, dv, sel@, #[trigger] kv[q]);
                    if q < i {
                        assert(before.contains(x));
                        let m = choose|m: int| 0 <= m < before.len() && before[m] == x;
                        assert(views(out@)[m] == x);
                    } else {
                        assert(views(out@)[before.len() as int] == x);
                    }
                }
            }
        }
        i = i + 1;
    }
    proof {
        assert forall|x: Seq<char>| views(out@).contains(x) <==> selects(kv, dv, sel@, x) by {
            if selects(kv, dv, sel@, x) {
                let q = choose|q: int| 0 <= q < kv.len() && kv[q] == x;
                assert(selects(kv, dv, sel@, kv[q]));
            }
        }
        if out@.len() == 0 {
            assert forall|j: int| 0 <= j < kv.len() implies !selects(kv, dv, sel@, #[trigger] kv[j]) by {
                if selects(kv, dv, sel@, kv[j]) {
                    assert(views(out@).contains(kv[j]));
                }
            }
        } else {
            assert(views(out@).contains(views(out@)[0]));
            assert(!selects_none(kv, dv, sel@));
        }
    }
    if !pattern && out.len() == 0 && !is_dir_node {
        return Err(not_found_message(keys, sel.as_str(), Some(prefix.as_str())));
    }
    Ok(out)
}

/// The keys a list of selectors picks, as a set over the distinct selectors.
pub open spec fn picked(keys: Seq<Seq<char>>, dirs: Seq<Seq<char>>, sels: Seq<Seq<char>>) -> Set<Seq<char>> {
    Set::new(|k: Seq<char>| exists|i: int| 0 <= i < sels.len() && selects(keys, dirs, #[trigger] sels[i], k))
}

/// Resolve the selectors to node keys, sorted and each once; with none,
/// every key. `keys` are the graph's node keys and `dirs` those that are
/// directories. A selector with glob metacharacters is a pattern over the
/// keys; any other is a path, resolving to its key (unless it names a
/// directory) and every key below it. A repeated selector counts once. The
/// first selector refused (a pattern that does not compile, or a path that
/// picks nothing and names no directory) ends the resolution; a selector that
/// picks nothing raises a `zero-match-selector` hint.
pub fn resolve_selectors(keys: &Vec<String>, dirs: &Vec<String>, selectors: &Vec<String>) -> (r: Result<(Vec<String>, Vec<Hint>), String>)
    ensures
        selectors@.len() == 0 ==> (r matches Ok(out) && views(out.0@) == views(keys@) && out.1@.len() == 0),
        selectors@.len() > 0 ==> match first_refused(views(keys@), views(dirs@), dedup_first(views(selectors@)), 0) {
            Some(i) => r is Err && (!is_pattern(dedup_first(views(selectors@))[i]) ==> (r matches Err(e) && e@ == not_found_spec(
                dedup_first(views(selectors@))[i],
                suggestions(
                    views(keys@),
                    suggestion_needles(dedup_first(views(selectors@))[i], Some(normalize_spec(dedup_first(views(selectors@))[i]))),
                ),
            ))),
            None => r matches Ok(out) && {
                let ds = dedup_first(views(selectors@));
                let hs = empty_answers(views(keys@), views(dirs@), ds);
                &&& views(out.0@) == sorted_members(picked(views(keys@), views(dirs@), ds))
                &&& out.1@.len() == hs.len()
                &&& forall|j: int| 0 <= j < hs.len() ==> zero_match_hint(#[trigger] out.1@[j], hs[j].0, hs[j].1)
            },
        },
{
    if selectors.len() == 0 {
        return Ok((crate::text::copy_strings(keys), Vec::new()));
    }
    let ghost kv = views(keys@);
    let ghost dv = views(dirs@);
    let distinct = dedup_strings(selectors);
    let ghost ds = views(distinct@);
    let mut all: Vec<String> = Vec::new();
    let mut hints: Vec<Hint> = Vec::new();
    let mut i: usize = 0;
    while i < distinct.len()
        invariant
            i <= distinct@.len(),
            selectors@.len() > 0,
            ds == dedup_first(views(selectors@)),
            kv == views(keys@),
            dv == views(dirs@),
            ds == views(distinct@),
            forall|j: int| 0 <= j < i ==> !refused(kv, dv, #[trigger] ds[j]),
            forall|x: Seq<char>| views(all@).contains(x) <==> (exists|q: int| 0 <= q < i && selects(kv, dv, #[trigger] ds[q], x)),
            hints@.len() == empty_answers(kv, dv, ds.subrange(0, i as int)).len(),
            forall|j: int| 0 <= j < hints@.len() ==> zero_match_hint(
                #[trigger] hints@[j],
                empty_answers(kv, dv, ds.subrange(0, i as int))[j].0,
                empty_answers(kv, dv, ds.subrange(0, i as int))[j].1,
            ),
        decreases distinct@.len() - i,
    {
        let sel = &distinct[i];
        assert(ds[i as int] == sel@);
        let one = match select_one(keys, dirs, sel) {
            Ok(v) => v,
            Err(e) => {
                proof {
                    lemma_first_refused_skip(kv, dv, ds, i as int);
                }
                return Err(e);
            },
        };
        let ghost before = views(all@);
        assert(forall|x: Seq<char>| before.contains(x) <==> (exists|q: int| 0 <= q < i && selects(kv, dv, #[trigger] ds[q], x)));
        let ghost ov = views(one@);
        let mut q: usize = 0;
        while q < one.len()
            invariant
                q <= one@.len(),
                ov == views(one@),
                views(all@) == before + ov.subrange(0, q as int),
            decreases one@.len() - q,
        {
            let ghost b2 = views(all@);
            all.push(one[q].clone());
            assert(views(all@) =~= b2.push(ov[q as int]));
            assert(ov.subrange(0, q + 1) =~= ov.subrange(0, q as int).push(ov[q as int]));
            assert(views(all@) =~= before + ov.subrange(0, q + 1));
            q = q + 1;
        }
        assert(views(all@) =~= before + ov);
        if one.len() == 0 {
            let pattern = has_glob_meta(sel.as_str());
            let h = if pattern {
                Hint::new("zero-match-selector", "matched no nodes").at(sel.as_str()).with_next(
                    "check the pattern against node keys — `*` stops at a path separator, `**` crosses it",
                )
            } else {
                Hint::new("zero-match-selector", "is a directory with no files in the graph").at(sel.as_str())
            };
            hints.push(h);
        }
        proof {
            let sub = ds.subrange(0, i + 1);
            assert(sub.drop_last() =~= ds.subrange(0, i as int));
            assert(sub.last() == sel@);
            assert(selects_none(kv, dv, sel@) <==> one@.len() == 0) by {
                if one@.len() > 0 {
                    assert(views(one@).contains(views(one@)[0]));
                    let x = views(one@)[0];
                    assert(selects(kv, dv, sel@, x));
                    let k = choose|k: int| 0 <= k < kv.len() && kv[k] == x;
                    assert(selects(kv, dv, sel@, kv[k]));
                } else {
                    assert forall|j: int| 0 <= j < kv.len() implies !selects(kv, dv, sel@, #[trigger] kv[j]) by {
                        if selects(kv, dv, sel@, kv[j]) {
                            assert(views(one@).contains(kv[j]));
                        }
                    }
                }
            }
            assert forall|x: Seq<char>| views(all@).contains(x) <==> (exists|q: int| 0 <= q < i + 1 && selects(kv, dv, #[trigger] ds[q], x)) by {
                let a = views(all@);
                if a.contains(x) {
                    let k = choose|k: int| 0 <= k < a.len() && a[k] == x;
                    if k < before.len() {
                        assert(before[k] == x);
                        assert(before.contains(x));
                    } else {
                        assert(ov[k - before.len()] == x);
                        assert(ov.contains(x));
                        assert(selects(kv, dv, ds[i as int], x));
                    }
                }
                if exists|q: int| 0 <= q < i + 1 && selects(kv, dv, #[trigger] ds[q], x) {
                    let q = choose|q: int| 0 <= q < i + 1 && selects(kv, dv, #[trigger] ds[q], x);
                    if q < i {
                        assert(before.contains(x));
                        let k = choose|k: int| 0 <= k < before.len() && before[k] == x;
                        assert(a[k] == x);
                    } else {
                        assert(ov.contains(x));
                        let k = choose|k: int| 0 <= k < ov.len() && ov[k] == x;
                        assert(a[before.len() + k] == x);
                    }
                }
            }
        }
        i = i + 1;
    }
    let out = sort_distinct(&all);
    proof {
        assert(ds.subrange(0, ds.len() as int) =~= ds);
        lemma_first_refused_skip(kv, dv, ds, ds.len() as int);
        assert(views(all@).to_set() =~= picked(kv, dv, ds));
    }
    Ok((out, hints))
}

} // verus!
