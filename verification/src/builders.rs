//! Turning a parser's discovered links into edge occurrences: the target a
//! link names, and how its author wrote it.

use vstd::prelude::*;
use crate::diagnostic::opt_view;
use crate::parsers::Link;
use crate::paths::{
    first_hash, is_uri, lemma_first_hash_extends, resolve_link, resolve_spec, slice_chars, trim_chars,
    trim_spec, uri_verdict_spec, url_parse_view,
};
use crate::text::{chars_of, push_all, push_chars, string_from_chars};
use crate::graph::{has_path, index_of, lemma_index_unique, sorted_nodes, Graph, Node};
use crate::lockfile::copy_opt;

verus! {

/// How a fragment-only target is read.
#[derive(Debug, Clone, Copy, PartialEq, Eq, Structural)]
pub enum LinkPolicy {
    /// Body links: a fragment-only target is an intra-file anchor, not an
    /// edge.
    Body,
    /// Declared frontmatter values: every value names another document, so a
    /// fragment-only value is a citation of nothing rather than an anchor.
    Declared,
}

/// How one link was written: its line, the fragment-qualified link when it
/// carried a fragment, and the literal text when resolution moved it.
#[derive(Debug, Clone, PartialEq, Eq)]
pub struct Occurrence {
    pub line: Option<usize>,
    pub link: Option<String>,
    pub raw: Option<String>,
}

/// Whether `s` is a URI, as `is_uri` decides it.
pub open spec fn uri_spec(s: Seq<char>) -> bool {
    uri_verdict_spec(url_parse_view(s))
}

/// What a link resolves to from `source`: its target, its fragment and its
/// base (the text before the fragment), or nothing when there is no target
/// to name — an empty or whitespace-only value, and under the body policy an
/// anchor-only one. A non-URI base is resolved relative to `source`; a
/// resolution that comes out empty names the root as `.`.
pub open spec fn occurrence_spec(source: Seq<char>, raw: Seq<char>, policy: LinkPolicy) -> Option<
    (Seq<char>, Option<Seq<char>>, Seq<char>),
> {
    let t = trim_spec(raw);
    if t.len() == 0 {
        None
    } else if t[0] == '#' && policy == LinkPolicy::Body {
        None
    } else {
        let anchor = t[0] == '#';
        let base = if anchor {
            t
        } else {
            match first_hash(t) {
                Some(i) => t.subrange(0, i),
                None => t,
            }
        };
        let frag: Option<Seq<char>> = if anchor {
            None
        } else {
            match first_hash(t) {
                Some(i) => Some(t.subrange(i, t.len() as int)),
                None => None,
            }
        };
        let target = if uri_spec(base) || anchor {
            base
        } else if resolve_spec(source, base).len() == 0 {
            seq!['.']
        } else {
            resolve_spec(source, base)
        };
        Some((target, frag, base))
    }
}

/// The index of the first `#` in `t`, or its length when there is none.
fn hash_index(t: &Vec<char>) -> (r: usize)
    ensures
        r <= t@.len(),
        match first_hash(t@) {
            Some(i) => r == i && r < t@.len(),
            None => r == t@.len(),
        },
{
    let mut i: usize = 0;
    while i < t.len() && t[i] != '#'
        invariant
            i <= t.len(),
            first_hash(t@.subrange(0, i as int)) is None,
        decreases t.len() - i,
    {
        assert(t@.subrange(0, i + 1).drop_last() =~= t@.subrange(0, i as int));
        i = i + 1;
    }
    if i < t.len() {
        assert(t@.subrange(0, i + 1).drop_last() =~= t@.subrange(0, i as int));
        proof {
            lemma_first_hash_extends(t@, i as int);
        }
    } else {
        assert(t@.subrange(0, t.len() as int) =~= t@);
    }
    i
}

/// Resolve one discovered link into its edge target and the occurrence
/// recording how the author wrote it: its line, the fragment-qualified link
/// when it carried a fragment, and the literal base when resolution moved it
/// (so `./foo.md` stays distinguishable from `foo.md`).
pub fn occurrence(source: &str, link: &Link, policy: LinkPolicy) -> (r: Option<(String, Occurrence)>)
    ensures
        match (r, occurrence_spec(source@, link.target@, policy)) {
            (None, None) => true,
            (Some((target, occ)), Some((t, f, b))) => {
                &&& target@ == t
                &&& occ.line == link.line
                &&& opt_view(occ.link) == match f {
                    Some(x) => Some(t + x),
                    None => None::<Seq<char>>,
                }
                &&& opt_view(occ.raw) == if b != t {
                    Some(b)
                } else {
                    None
                }
            },
            _ => false,
        },
{
    let all = chars_of(link.target.as_str());
    let t = trim_chars(&all);
    if t.len() == 0 {
        return None;
    }
    let anchor = t[0] == '#';
    if anchor && policy == LinkPolicy::Body {
        return None;
    }
    let cut = if anchor {
        t.len()
    } else {
        hash_index(&t)
    };
    let base_chars = slice_chars(&t, 0, cut);
    assert(cut == t.len() ==> base_chars@ =~= t@);
    let base = string_from_chars(&base_chars);
    let target = if is_uri(base.as_str()) || anchor {
        string_from_chars(&base_chars)
    } else {
        let resolved = resolve_link(source, base.as_str());
        if resolved.as_str().is_empty() {
            let mut dot = String::new();
            dot.push('.');
            dot
        } else {
            resolved
        }
    };
    let tchars = chars_of(target.as_str());
    let link_text = if cut < t.len() {
        let frag = slice_chars(&t, cut, t.len());
        let mut s = String::new();
        push_all(&mut s, target.as_str());
        push_chars(&mut s, frag.as_slice());
        Some(s)
    } else {
        None
    };
    let same = if tchars.len() != base_chars.len() {
        false
    } else {
        let mut k: usize = 0;
        let mut eq = true;
        while k < tchars.len()
            invariant
                k <= tchars@.len(),
                tchars@.len() == base_chars@.len(),
                eq == (forall|m: int| 0 <= m < k ==> tchars@[m] == base_chars@[m]),
            decreases tchars@.len() - k,
        {
            if tchars[k] != base_chars[k] {
                eq = false;
            }
            k = k + 1;
        }
        if eq {
            assert(tchars@ =~= base_chars@);
        } else {
            assert(tchars@ != base_chars@);
        }
        eq
    };
    let raw = if same {
        None
    } else {
        Some(base)
    };
    proof {
        let st = trim_spec(link.target@);
        assert(t@ == st);
        let spec_base = if anchor {
            st
        } else {
            match first_hash(st) {
                Some(i) => st.subrange(0, i),
                None => st,
            }
        };
        assert(base_chars@ == spec_base);
        let spec_frag: Option<Seq<char>> = if anchor {
            None
        } else {
            match first_hash(st) {
                Some(i) => Some(st.subrange(i, st.len() as int)),
                None => None,
            }
        };
        assert(cut < t@.len() <==> spec_frag is Some);
        match occurrence_spec(source@, link.target@, policy) {
            Some((tt, f, b)) => {
                assert(b == spec_base);
                assert(f == spec_frag);
                assert(tt == target@);
            },
            None => {
                assert(false);
            },
        }
    }
    Some((target, Occurrence { line: link.line, link: link_text, raw }))
}

// ---------------------------------------------------------------------------
// One edge per target

/// What an occurrence records: its line, its fragment-qualified link and its
/// literal spelling.
pub open spec fn occ_view(o: Occurrence) -> (Option<usize>, Option<Seq<char>>, Option<Seq<char>>) {
    (o.line, opt_view(o.link), opt_view(o.raw))
}

/// Whether an occurrence records nothing.
pub open spec fn occ_empty(v: (Option<usize>, Option<Seq<char>>, Option<Seq<char>>)) -> bool {
    v.0 is None && v.1 is None && v.2 is None
}

/// The target a link names and what its occurrence records, if it names one.
pub open spec fn occ_of(source: Seq<char>, link: Link, policy: LinkPolicy) -> Option<
    (Seq<char>, (Option<usize>, Option<Seq<char>>, Option<Seq<char>>)),
> {
    match occurrence_spec(source, link.target@, policy) {
        Some((t, f, b)) => Some(
            (
                t,
                (
                    link.line,
                    match f {
                        Some(x) => Some(t + x),
                        None => None,
                    },
                    if b != t {
                        Some(b)
                    } else {
                        None
                    },
                ),
            ),
        ),
        None => None,
    }
}

/// The targets and occurrences of the links that name one, in link order.
pub open spec fn occ_list(source: Seq<char>, links: Seq<Link>, policy: LinkPolicy) -> Seq<
    (Seq<char>, (Option<usize>, Option<Seq<char>>, Option<Seq<char>>)),
>
    decreases links.len(),
{
    if links.len() == 0 {
        Seq::empty()
    } else {
        let prev = occ_list(source, links.drop_last(), policy);
        match occ_of(source, links.last(), policy) {
            Some(x) => prev.push(x),
            None => prev,
        }
    }
}

/// The occurrences that record something, of the entries naming `t`, in order.
pub open spec fn occs_for(
    list: Seq<(Seq<char>, (Option<usize>, Option<Seq<char>>, Option<Seq<char>>))>,
    t: Seq<char>,
) -> Seq<(Option<usize>, Option<Seq<char>>, Option<Seq<char>>)>
    decreases list.len(),
{
    if list.len() == 0 {
        Seq::empty()
    } else if list.last().0 == t && !occ_empty(list.last().1) {
        occs_for(list.drop_last(), t).push(list.last().1)
    } else {
        occs_for(list.drop_last(), t)
    }
}

/// `s` with each repeat of an earlier occurrence dropped.
pub open spec fn dedup_occs(
    s: Seq<(Option<usize>, Option<Seq<char>>, Option<Seq<char>>)>,
) -> Seq<(Option<usize>, Option<Seq<char>>, Option<Seq<char>>)>
    decreases s.len(),
{
    if s.len() == 0 {
        Seq::empty()
    } else if s.drop_last().contains(s.last()) {
        dedup_occs(s.drop_last())
    } else {
        dedup_occs(s.drop_last()).push(s.last())
    }
}

/// The sort key of an occurrence: its line, with line-less occurrences last.
pub open spec fn line_key(v: (Option<usize>, Option<Seq<char>>, Option<Seq<char>>)) -> int {
    match v.0 {
        Some(l) => l as int,
        None => 0xFFFF_FFFF_FFFF_FFFFint,
    }
}

/// The first position from `i` whose key exceeds `k`.
pub open spec fn first_above(
    s: Seq<(Option<usize>, Option<Seq<char>>, Option<Seq<char>>)>,
    k: int,
    i: int,
) -> int
    decreases s.len() - i,
{
    if i < 0 || i >= s.len() {
        s.len() as int
    } else if line_key(s[i]) > k {
        i
    } else {
        first_above(s, k, i + 1)
    }
}

/// `s` in line order, stably: each occurrence goes after every earlier one
/// whose line is not greater.
pub open spec fn line_sorted(
    s: Seq<(Option<usize>, Option<Seq<char>>, Option<Seq<char>>)>,
) -> Seq<(Option<usize>, Option<Seq<char>>, Option<Seq<char>>)>
    decreases s.len(),
{
    if s.len() == 0 {
        Seq::empty()
    } else {
        let r = line_sorted(s.drop_last());
        r.insert(first_above(r, line_key(s.last()), 0), s.last())
    }
}

/// An edge a parser's links make: one per target, with every distinct
/// occurrence that records something, in line order.
#[derive(Debug, Clone)]
pub struct LinkEdge {
    pub source: String,
    pub target: String,
    pub occurrences: Vec<Occurrence>,
}

/// The occurrences of an edge, viewed.
pub open spec fn occ_views(os: Seq<Occurrence>) -> Seq<(Option<usize>, Option<Seq<char>>, Option<Seq<char>>)> {
    os.map_values(|o: Occurrence| occ_view(o))
}

proof fn lemma_first_above(s: Seq<(Option<usize>, Option<Seq<char>>, Option<Seq<char>>)>, k: int, i: int)
    requires
        0 <= i <= s.len(),
    ensures
        i <= first_above(s, k, i) <= s.len(),
    decreases s.len() - i,
{
    if i < s.len() && line_key(s[i]) <= k {
        lemma_first_above(s, k, i + 1);
    }
}

proof fn lemma_dedup_contains(s: Seq<(Option<usize>, Option<Seq<char>>, Option<Seq<char>>)>, v: (Option<usize>, Option<Seq<char>>, Option<Seq<char>>))
    ensures
        dedup_occs(s).contains(v) <==> s.contains(v),
    decreases s.len(),
{
    if s.len() > 0 {
        lemma_dedup_contains(s.drop_last(), v);
        if s.contains(v) && !s.drop_last().contains(v) {
            let q = choose|q: int| 0 <= q < s.len() && s[q] == v;
            if q < s.len() - 1 {
                assert(s.drop_last()[q] == v);
            }
        }
        if s.drop_last().contains(v) {
            let q = choose|q: int| 0 <= q < s.drop_last().len() && s.drop_last()[q] == v;
            assert(s[q] == v);
        }
        if !s.drop_last().contains(s.last()) {
            assert(dedup_occs(s) == dedup_occs(s.drop_last()).push(s.last()));
            if dedup_occs(s).contains(v) && !dedup_occs(s.drop_last()).contains(v) {
                let q = choose|q: int| 0 <= q < dedup_occs(s).len() && dedup_occs(s)[q] == v;
                if q < dedup_occs(s.drop_last()).len() {
                    assert(dedup_occs(s.drop_last())[q] == v);
                }
                assert(s[s.len() - 1] == v);
            }
            if v == s.last() {
                assert(dedup_occs(s)[dedup_occs(s).len() - 1] == v);
            }
            if dedup_occs(s.drop_last()).contains(v) {
                let q = choose|q: int| 0 <= q < dedup_occs(s.drop_last()).len() && dedup_occs(s.drop_last())[q] == v;
                assert(dedup_occs(s)[q] == v);
            }
        }
    }
}

/// A copy of an occurrence.
fn copy_occ(o: &Occurrence) -> (r: Occurrence)
    ensures
        occ_view(r) == occ_view(*o),
{
    Occurrence { line: o.line, link: copy_opt(&o.link), raw: copy_opt(&o.raw) }
}

/// Whether two optional strings hold the same text.
fn same_opt(a: &Option<String>, b: &Option<String>) -> (r: bool)
    ensures
        r == (opt_view(*a) == opt_view(*b)),
{
    match (a, b) {
        (Some(x), Some(y)) => crate::paths::str_eq(x.as_str(), y.as_str()),
        (None, None) => true,
        _ => false,
    }
}

/// Whether two occurrences record the same thing.
fn same_occ(a: &Occurrence, b: &Occurrence) -> (r: bool)
    ensures
        r == (occ_view(*a) == occ_view(*b)),
{
    a.line == b.line && same_opt(&a.link, &b.link) && same_opt(&a.raw, &b.raw)
}

/// The sort key of an occurrence.
fn occ_key(o: &Occurrence) -> (k: u64)
    ensures
        k as int == line_key(occ_view(*o)),
{
    match o.line {
        Some(l) => l as u64,
        None => u64::MAX,
    }
}

/// The distinct occurrences naming `t` that record something, in line order.
fn occurrences_for(occs: &Vec<(String, Occurrence)>, t: &String) -> (r: Vec<Occurrence>)
    ensures
        occ_views(r@) == line_sorted(
            dedup_occs(occs_for(occs@.map_values(|p: (String, Occurrence)| (p.0@, occ_view(p.1))), t@)),
        ),
{
    let ghost list = occs@.map_values(|p: (String, Occurrence)| (p.0@, occ_view(p.1)));
    let mut mine: Vec<Occurrence> = Vec::new();
    let mut j: usize = 0;
    while j < occs.len()
        invariant
            j <= occs@.len(),
            list == occs@.map_values(|p: (String, Occurrence)| (p.0@, occ_view(p.1))),
            occ_views(mine@) == dedup_occs(occs_for(list.subrange(0, j as int), t@)),
        decreases occs@.len() - j,
    {
        let ghost pre = list.subrange(0, j as int);
        proof {
            assert(list.subrange(0, j + 1).drop_last() =~= pre);
            assert(list.subrange(0, j + 1).last() == (occs@[j as int].0@, occ_view(occs@[j as int].1)));
        }
        let o = &occs[j].1;
        let empty = o.line.is_none() && o.link.is_none() && o.raw.is_none();
        if crate::paths::str_eq(occs[j].0.as_str(), t.as_str()) && !empty {
            let mut seen = false;
            let mut q: usize = 0;
            while q < mine.len()
                invariant
                    q <= mine@.len(),
                    seen == (exists|m: int| 0 <= m < q && occ_view(mine@[m]) == occ_view(*o)),
                decreases mine@.len() - q,
            {
                if same_occ(&mine[q], o) {
                    seen = true;
                }
                q = q + 1;
            }
            proof {
                let s = occs_for(pre, t@);
                let v = occ_view(*o);
                lemma_dedup_contains(s, v);
                let d = occ_views(mine@);
                if seen {
                    let m = choose|m: int| 0 <= m < mine@.len() && occ_view(mine@[m]) == v;
                    assert(d[m] == v);
                } else {
                    assert forall|m: int| 0 <= m < d.len() implies d[m] != v by {
                        assert(d[m] == occ_view(mine@[m]));
                    }
                }
                assert(occs_for(list.subrange(0, j + 1), t@) == s.push(v));
                assert(s.push(v).drop_last() =~= s);
            }
            if !seen {
                let ghost before = occ_views(mine@);
                mine.push(copy_occ(o));
                assert(occ_views(mine@) =~= before.push(occ_view(*o)));
            }
        }
        j = j + 1;
    }
    assert(list.subrange(0, occs@.len() as int) =~= list);
    let ghost d = occ_views(mine@);
    let mut r: Vec<Occurrence> = Vec::new();
    let mut i: usize = 0;
    while i < mine.len()
        invariant
            i <= mine@.len(),
            d == occ_views(mine@),
            occ_views(r@) == line_sorted(d.subrange(0, i as int)),
        decreases mine@.len() - i,
    {
        let k = occ_key(&mine[i]);
        let ghost rv = occ_views(r@);
        let mut pos: usize = 0;
        proof {
            lemma_first_above(rv, k as int, 0);
        }
        while pos < r.len() && occ_key(&r[pos]) <= k
            invariant
                pos <= r@.len(),
                rv == occ_views(r@),
                first_above(rv, k as int, 0) == first_above(rv, k as int, pos as int),
            decreases r@.len() - pos,
        {
            pos = pos + 1;
        }
        proof {
            assert(d.subrange(0, i + 1).drop_last() =~= d.subrange(0, i as int));
            assert(d.subrange(0, i + 1).last() == occ_view(mine@[i as int]));
        }
        r.insert(pos, copy_occ(&mine[i]));
        assert(occ_views(r@) =~= rv.insert(pos as int, occ_view(mine@[i as int])));
        i = i + 1;
    }
    assert(d.subrange(0, mine@.len() as int) =~= d);
    r
}

/// Whether one of the edges has target `t`.
pub open spec fn edge_for(r: Seq<LinkEdge>, t: Seq<char>) -> bool {
    exists|i: int| 0 <= i < r.len() && #[trigger] r[i].target@ == t
}

/// Whether one of the entries names target `t`.
pub open spec fn listed_target(
    list: Seq<(Seq<char>, (Option<usize>, Option<Seq<char>>, Option<Seq<char>>))>,
    t: Seq<char>,
) -> bool {
    exists|k: int| 0 <= k < list.len() && #[trigger] list[k].0 == t
}

/// Whether `links` from `source` resolve to the given edges: one per target
/// the links name, in target order, each with its distinct recorded
/// occurrences in line order.
pub open spec fn link_edges_spec(source: Seq<char>, links: Seq<Link>, policy: LinkPolicy, r: Seq<LinkEdge>) -> bool {
    let list = occ_list(source, links, policy);
    &&& forall|i: int, j: int| 0 <= i < j < r.len() ==> crate::order::seq_lt(#[trigger] r[i].target@, #[trigger] r[j].target@)
    &&& forall|k: int| 0 <= k < list.len() ==> edge_for(r, (#[trigger] list[k]).0)
    &&& forall|i: int| 0 <= i < r.len() ==> listed_target(list, (#[trigger] r[i]).target@)
    &&& forall|i: int|
        0 <= i < r.len() ==> (#[trigger] r[i]).source@ == source && occ_views(r[i].occurrences@) == line_sorted(
            dedup_occs(occs_for(list, r[i].target@)),
        )
}

/// Whether some node has path `p`.
pub open spec fn names(nodes: Seq<Node>, p: Seq<char>) -> bool {
    exists|m: int| #[trigger] has_path(nodes, m, p)
}

/// Whether one of the first `k` entries names target `p`.
pub open spec fn named_by(occs: Seq<(String, Occurrence)>, k: int, p: Seq<char>) -> bool {
    exists|q: int| 0 <= q < k && #[trigger] occs[q].0@ == p
}

/// The targets and occurrences of the links that name one, in link order.
fn collect_occurrences(source: &str, links: &Vec<Link>, policy: LinkPolicy) -> (occs: Vec<(String, Occurrence)>)
    ensures
        occs@.map_values(|p: (String, Occurrence)| (p.0@, occ_view(p.1))) == occ_list(source@, links@, policy),
{
    let mut occs: Vec<(String, Occurrence)> = Vec::new();
    let mut i: usize = 0;
    while i < links.len()
        invariant
            i <= links@.len(),
            occs@.map_values(|p: (String, Occurrence)| (p.0@, occ_view(p.1))) == occ_list(
                source@,
                links@.subrange(0, i as int),
                policy,
            ),
        decreases links@.len() - i,
    {
        let ghost before = occs@;
        proof {
            assert(links@.subrange(0, i + 1).drop_last() =~= links@.subrange(0, i as int));
            assert(links@.subrange(0, i + 1).last() == links@[i as int]);
        }
        match occurrence(source, &links[i], policy) {
            Some((t, o)) => {
                occs.push((t, o));
                assert(occs@.map_values(|p: (String, Occurrence)| (p.0@, occ_view(p.1))) =~= before.map_values(
                    |p: (String, Occurrence)| (p.0@, occ_view(p.1)),
                ).push((occs@.last().0@, occ_view(occs@.last().1))));
            },
            None => {},
        }
        i = i + 1;
    }
    assert(links@.subrange(0, links@.len() as int) =~= links@);
    occs
}

/// The distinct targets of `occs`, in order, as the nodes of a scratch graph
/// keyed by target.
fn distinct_targets(occs: &Vec<(String, Occurrence)>) -> (keys: Graph)
    ensures
        sorted_nodes(keys.nodes@),
        forall|q: int| 0 <= q < occs@.len() ==> names(keys.nodes@, (#[trigger] occs@[q]).0@),
        forall|m: int| 0 <= m < keys.nodes@.len() ==> named_by(occs@, occs@.len() as int, (#[trigger] keys.nodes@[m]).path@),
{
    let mut keys = Graph::new();
    let mut k: usize = 0;
    while k < occs.len()
        invariant
            k <= occs@.len(),
            sorted_nodes(keys.nodes@),
            forall|q: int| 0 <= q < k ==> names(keys.nodes@, (#[trigger] occs@[q]).0@),
            forall|m: int| 0 <= m < keys.nodes@.len() ==> named_by(occs@, k as int, (#[trigger] keys.nodes@[m]).path@),
        decreases occs@.len() - k,
    {
        let ghost before = keys;
        let ghost p0 = occs@[k as int].0@;
        keys.add_node(Node { path: occs[k].0.clone(), node_type: None, included: false, hash: None });
        proof {
            assert(keys.node_at(p0) is Some);
            assert forall|q: int| 0 <= q < k + 1 implies names(keys.nodes@, (#[trigger] occs@[q]).0@) by {
                let t = occs@[q].0@;
                if t == p0 {
                    assert(index_of(keys.nodes@, p0) is Some);
                    let w = choose|i: int| #[trigger] has_path(keys.nodes@, i, p0);
                    assert(has_path(keys.nodes@, w, t));
                } else {
                    assert(names(before.nodes@, occs@[q].0@));
                    let m0 = choose|m: int| #[trigger] has_path(before.nodes@, m, t);
                    lemma_index_unique(before.nodes@, m0, t);
                    assert(keys.node_at(t) == before.node_at(t));
                    assert(index_of(keys.nodes@, t) is Some);
                    let w = choose|i: int| #[trigger] has_path(keys.nodes@, i, t);
                    assert(has_path(keys.nodes@, w, t));
                }
            }
            assert forall|m: int| 0 <= m < keys.nodes@.len() implies named_by(occs@, k + 1, (#[trigger] keys.nodes@[m]).path@) by {
                let t = keys.nodes@[m].path@;
                if t == p0 {
                    assert(occs@[k as int].0@ == t);
                } else {
                    assert(has_path(keys.nodes@, m, t));
                    lemma_index_unique(keys.nodes@, m, t);
                    assert(keys.node_at(t) == before.node_at(t));
                    assert(index_of(before.nodes@, t) is Some);
                    let m0 = choose|i: int| #[trigger] has_path(before.nodes@, i, t);
                    assert(has_path(before.nodes@, m0, t));
                    assert(named_by(occs@, k as int, before.nodes@[m0].path@));
                    let q = choose|q: int| 0 <= q < k && #[trigger] occs@[q].0@ == t;
                    assert(occs@[q].0@ == t);
                }
            }
        }
        k = k + 1;
    }
    keys
}

/// Resolve a parser's links from `source` into edges, one per target: links
/// to one target collapse into one edge, which records each distinct way the
/// target was written (its line, fragment-qualified link and literal
/// spelling), in line order, line-less ones last. An occurrence that records
/// nothing is left out.
pub fn link_edges(source: &str, links: &Vec<Link>, policy: LinkPolicy) -> (r: Vec<LinkEdge>)
    ensures
        link_edges_spec(source@, links@, policy, r@),
{
    let occs = collect_occurrences(source, links, policy);
    let ghost list = occs@.map_values(|p: (String, Occurrence)| (p.0@, occ_view(p.1)));
    let keys = distinct_targets(&occs);
    let mut out: Vec<LinkEdge> = Vec::new();
    let mut n: usize = 0;
    while n < keys.nodes.len()
        invariant
            n <= keys.nodes@.len(),
            list == occs@.map_values(|p: (String, Occurrence)| (p.0@, occ_view(p.1))),
            list == occ_list(source@, links@, policy),
            out@.len() == n,
            forall|q: int| 0 <= q < n ==> (#[trigger] out@[q]).target@ == keys.nodes@[q].path@,
            forall|q: int|
                0 <= q < n ==> (#[trigger] out@[q]).source@ == source@ && occ_views(out@[q].occurrences@)
                    == line_sorted(dedup_occs(occs_for(list, out@[q].target@))),
        decreases keys.nodes@.len() - n,
    {
        let t = keys.nodes[n].path.clone();
        let os = occurrences_for(&occs, &t);
        out.push(LinkEdge { source: crate::text::owned(source), target: t, occurrences: os });
        n = n + 1;
    }
    proof {
        assert forall|q: int| 0 <= q < list.len() implies edge_for(out@, (#[trigger] list[q]).0) by {
            assert(list[q].0 == occs@[q].0@);
            assert(names(keys.nodes@, occs@[q].0@));
            let m = choose|m: int| #[trigger] has_path(keys.nodes@, m, occs@[q].0@);
            assert(out@[m].target@ == list[q].0);
        }
        assert forall|i: int| 0 <= i < out@.len() implies listed_target(list, (#[trigger] out@[i]).target@) by {
            assert(out@[i].target@ == keys.nodes@[i].path@);
            assert(named_by(occs@, occs@.len() as int, keys.nodes@[i].path@));
            let q = choose|q: int| 0 <= q < occs@.len() && #[trigger] occs@[q].0@ == keys.nodes@[i].path@;
            assert(list[q].0 == occs@[q].0@);
        }
        assert forall|i: int, j: int| 0 <= i < j < out@.len() implies crate::order::seq_lt(
            #[trigger] out@[i].target@,
            #[trigger] out@[j].target@,
        ) by {
            assert(crate::order::seq_lt(keys.nodes@[i].path@, keys.nodes@[j].path@));
        }
    }
    out
}

} // verus!
