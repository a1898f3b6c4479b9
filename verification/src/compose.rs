//! Composition: the projection from the set of per-graph fragments into one
//! composed graph, merging by path coincidence.
//!
//! - Nodes are keyed by path. Each contributing graph's metadata nests under
//!   its `@<graph>` namespace, and the node's provenance lists every
//!   contributing namespace.
//! - Edges are keyed by `(source, target)`. A graph's edge metadata, when it
//!   has any, nests under its namespace; provenance lists every graph that
//!   contributed the edge.
//!
//! Metadata arrives as fields with their rendered values; composition moves
//! it, never reads it.

use vstd::prelude::*;
use crate::model::namespace;
use crate::order::{sort_distinct, sorted_members};
use crate::paths::str_eq;
use crate::projection::fields_view;
use crate::text::{owned, views};

verus! {

/// A node of one graph: its path and its metadata fields.
#[derive(Debug, Clone)]
pub struct FragmentNode {
    pub path: String,
    pub metadata: Vec<(String, String)>,
}

/// An edge of one graph: its ends and its metadata fields (often none).
#[derive(Debug, Clone)]
pub struct FragmentEdge {
    pub source: String,
    pub target: String,
    pub metadata: Vec<(String, String)>,
}

/// One graph of the set: its label (the graph's name), its nodes and edges.
#[derive(Debug, Clone)]
pub struct Fragment {
    pub label: Option<String>,
    pub nodes: Vec<FragmentNode>,
    pub edges: Vec<FragmentEdge>,
}

/// A composed node: its path, one metadata block per contributing namespace
/// (in namespace order), and the contributing namespaces.
#[derive(Debug, Clone)]
pub struct ComposedNode {
    pub path: String,
    pub blocks: Vec<(String, Vec<(String, String)>)>,
    pub graphs: Vec<String>,
}

/// A composed edge: its ends, one block per namespace that gave it metadata,
/// and every namespace that contributed it.
#[derive(Debug, Clone)]
pub struct ComposedEdge {
    pub source: String,
    pub target: String,
    pub blocks: Vec<(String, Vec<(String, String)>)>,
    pub graphs: Vec<String>,
}

/// The composed graph: nodes in path order, edges in `(source, target)`
/// order, each once.
#[derive(Debug, Clone)]
pub struct Composed {
    pub nodes: Vec<ComposedNode>,
    pub edges: Vec<ComposedEdge>,
}

/// The namespace a fragment's metadata nests under: `@` and its label, or
/// `@graph` for an unlabeled one.
pub open spec fn fragment_ns(f: Fragment) -> Seq<char> {
    match f.label {
        Some(l) => seq!['@'] + l@,
        None => "@graph"@,
    }
}

/// The view of optional metadata fields.
pub open spec fn meta_opt_view(o: Option<Vec<(String, String)>>) -> Option<Seq<(Seq<char>, Seq<char>)>> {
    match o {
        Some(v) => Some(fields_view(v@)),
        None => None,
    }
}

/// The views of the namespaces and metadata of a list of blocks.
pub open spec fn block_keys(bs: Seq<(String, Vec<(String, String)>)>) -> Seq<Seq<char>> {
    bs.map_values(|b: (String, Vec<(String, String)>)| b.0@)
}

// ── Nodes ──────────────────────────────────────────────────────

/// Whether the fragment has a node at `p`.
pub open spec fn has_node(f: Fragment, p: Seq<char>) -> bool {
    exists|j: int| 0 <= j < f.nodes@.len() && (#[trigger] f.nodes@[j]).path@ == p
}

/// Every path some fragment has a node at.
pub open spec fn node_paths(frs: Seq<Fragment>) -> Set<Seq<char>> {
    Set::new(|p: Seq<char>| exists|i: int| 0 <= i < frs.len() && has_node(#[trigger] frs[i], p))
}

/// The namespaces of the fragments with a node at `p`.
pub open spec fn node_graphs(frs: Seq<Fragment>, p: Seq<char>) -> Set<Seq<char>> {
    Set::new(|ns: Seq<char>| exists|i: int| 0 <= i < frs.len() && has_node(#[trigger] frs[i], p) && fragment_ns(frs[i]) == ns)
}

/// The metadata of the last node at `p` in a fragment's list.
pub open spec fn last_node(nodes: Seq<FragmentNode>, p: Seq<char>) -> Option<Seq<(Seq<char>, Seq<char>)>>
    decreases nodes.len(),
{
    if nodes.len() == 0 {
        None
    } else if nodes.last().path@ == p {
        Some(fields_view(nodes.last().metadata@))
    } else {
        last_node(nodes.drop_last(), p)
    }
}

/// The metadata the node at `p` carries under `ns`: the last fragment of that
/// namespace with a node there decides.
pub open spec fn node_meta(frs: Seq<Fragment>, ns: Seq<char>, p: Seq<char>) -> Option<Seq<(Seq<char>, Seq<char>)>>
    decreases frs.len(),
{
    if frs.len() == 0 {
        None
    } else if fragment_ns(frs.last()) == ns && last_node(frs.last().nodes@, p) is Some {
        last_node(frs.last().nodes@, p)
    } else {
        node_meta(frs.drop_last(), ns, p)
    }
}

proof fn lemma_last_node(nodes: Seq<FragmentNode>, p: Seq<char>)
    ensures
        (last_node(nodes, p) is Some) <==> (exists|j: int| 0 <= j < nodes.len() && (#[trigger] nodes[j]).path@ == p),
    decreases nodes.len(),
{
    if nodes.len() > 0 {
        lemma_last_node(nodes.drop_last(), p);
        if exists|j: int| 0 <= j < nodes.len() && (#[trigger] nodes[j]).path@ == p {
            let j = choose|j: int| 0 <= j < nodes.len() && (#[trigger] nodes[j]).path@ == p;
            if j < nodes.len() - 1 {
                assert(nodes.drop_last()[j] == nodes[j]);
            }
        }
        if exists|j: int| 0 <= j < nodes.len() - 1 && (#[trigger] nodes.drop_last()[j]).path@ == p {
            let j = choose|j: int| 0 <= j < nodes.len() - 1 && (#[trigger] nodes.drop_last()[j]).path@ == p;
            assert(nodes[j] == nodes.drop_last()[j]);
        }
    }
}

proof fn lemma_node_meta_some(frs: Seq<Fragment>, ns: Seq<char>, p: Seq<char>)
    requires
        node_graphs(frs, p).contains(ns),
    ensures
        node_meta(frs, ns, p) is Some,
    decreases frs.len(),
{
    let i = choose|i: int| 0 <= i < frs.len() && has_node(#[trigger] frs[i], p) && fragment_ns(frs[i]) == ns;
    lemma_last_node(frs.last().nodes@, p);
    if !(fragment_ns(frs.last()) == ns && last_node(frs.last().nodes@, p) is Some) {
        assert(i != frs.len() - 1);
        assert(frs.drop_last()[i] == frs[i]);
        assert(node_graphs(frs.drop_last(), p).contains(ns));
        lemma_node_meta_some(frs.drop_last(), ns, p);
    }
}

/// A copy of metadata fields.
fn copy_fields(fs: &Vec<(String, String)>) -> (r: Vec<(String, String)>)
    ensures
        fields_view(r@) == fields_view(fs@),
{
    let mut r: Vec<(String, String)> = Vec::new();
    let mut j: usize = 0;
    while j < fs.len()
        invariant
            j <= fs@.len(),
            fields_view(r@) == fields_view(fs@.subrange(0, j as int)),
        decreases fs@.len() - j,
    {
        r.push((fs[j].0.clone(), fs[j].1.clone()));
        assert(fields_view(fs@.subrange(0, j + 1)) =~= fields_view(fs@.subrange(0, j as int)).push(
            (fs@[j as int].0@, fs@[j as int].1@),
        ));
        assert(fields_view(r@) =~= fields_view(fs@.subrange(0, j + 1)));
        j = j + 1;
    }
    assert(fs@.subrange(0, fs@.len() as int) =~= fs@);
    r
}

/// The namespace a fragment's metadata nests under.
fn fragment_namespace(f: &Fragment) -> (r: String)
    ensures
        r@ == fragment_ns(*f),
{
    match &f.label {
        Some(l) => namespace(l.as_str()),
        None => owned("@graph"),
    }
}

/// The metadata of the last node at `p` in `nodes`.
fn last_node_exec(nodes: &Vec<FragmentNode>, p: &String) -> (r: Option<Vec<(String, String)>>)
    ensures
        meta_opt_view(r) == last_node(nodes@, p@),
{
    let mut k: usize = nodes.len();
    assert(nodes@.subrange(0, k as int) =~= nodes@);
    while k > 0
        invariant
            k <= nodes@.len(),
            last_node(nodes@, p@) == last_node(nodes@.subrange(0, k as int), p@),
        decreases k,
    {
        let ghost sub = nodes@.subrange(0, k as int);
        assert(sub.drop_last() =~= nodes@.subrange(0, k - 1));
        assert(sub.last() == nodes@[k - 1]);
        if str_eq(nodes[k - 1].path.as_str(), p.as_str()) {
            return Some(copy_fields(&nodes[k - 1].metadata));
        }
        k = k - 1;
    }
    None
}

/// The metadata the node at `p` carries under `ns`.
fn node_meta_exec(frs: &Vec<Fragment>, ns: &String, p: &String) -> (r: Option<Vec<(String, String)>>)
    ensures
        meta_opt_view(r) == node_meta(frs@, ns@, p@),
{
    let mut k: usize = frs.len();
    assert(frs@.subrange(0, k as int) =~= frs@);
    while k > 0
        invariant
            k <= frs@.len(),
            node_meta(frs@, ns@, p@) == node_meta(frs@.subrange(0, k as int), ns@, p@),
        decreases k,
    {
        let ghost sub = frs@.subrange(0, k as int);
        assert(sub.drop_last() =~= frs@.subrange(0, k - 1));
        assert(sub.last() == frs@[k - 1]);
        let name = fragment_namespace(&frs[k - 1]);
        if str_eq(name.as_str(), ns.as_str()) {
            let found = last_node_exec(&frs[k - 1].nodes, p);
            if found.is_some() {
                return found;
            }
        }
        k = k - 1;
    }
    None
}

/// Every node path of every fragment, repeats included.
fn all_node_paths(frs: &Vec<Fragment>) -> (r: Vec<String>)
    ensures
        forall|x: Seq<char>| views(r@).contains(x) <==> node_paths(frs@).contains(x),
{
    let mut r: Vec<String> = Vec::new();
    let mut i: usize = 0;
    while i < frs.len()
        invariant
            i <= frs@.len(),
            forall|x: Seq<char>| views(r@).contains(x) <==> (exists|q: int| 0 <= q < i && has_node(#[trigger] frs@[q], x)),
        decreases frs@.len() - i,
    {
        let nodes = &frs[i].nodes;
        let mut j: usize = 0;
        while j < nodes.len()
            invariant
                i < frs@.len(),
                nodes@ == frs@[i as int].nodes@,
                j <= nodes@.len(),
                forall|x: Seq<char>| views(r@).contains(x) <==> ((exists|q: int| 0 <= q < i && has_node(#[trigger] frs@[q], x))
                    || (exists|m: int| 0 <= m < j && (#[trigger] nodes@[m]).path@ == x)),
            decreases nodes@.len() - j,
        {
            let ghost before = views(r@);
            r.push(nodes[j].path.clone());
            proof {
                assert(views(r@) =~= before.push(nodes@[j as int].path@));
                assert forall|x: Seq<char>| views(r@).contains(x) <==> ((exists|q: int| 0 <= q < i && has_node(#[trigger] frs@[q], x))
                    || (exists|m: int| 0 <= m < j + 1 && (#[trigger] nodes@[m]).path@ == x)) by {
                    if views(r@).contains(x) {
                        let k = choose|k: int| 0 <= k < views(r@).len() && views(r@)[k] == x;
                        if k < before.len() {
                            assert(before[k] == x);
                            assert(before.contains(x));
                        }
                    }
                    if before.contains(x) {
                        let k = choose|k: int| 0 <= k < before.len() && before[k] == x;
                        assert(views(r@)[k] == x);
                    }
                    if x == nodes@[j as int].path@ {
                        assert(views(r@)[before.len() as int] == x);
                    }
                }
            }
            j = j + 1;
        }
        proof {
            assert forall|x: Seq<char>| views(r@).contains(x) <==> (exists|q: int| 0 <= q < i + 1 && has_node(#[trigger] frs@[q], x)) by {
                if exists|m: int| 0 <= m < nodes@.len() && (#[trigger] nodes@[m]).path@ == x {
                    assert(has_node(frs@[i as int], x));
                }
                if has_node(frs@[i as int], x) {
                    let m = choose|m: int| 0 <= m < frs@[i as int].nodes@.len() && (#[trigger] frs@[i as int].nodes@[m]).path@ == x;
                    assert(nodes@[m].path@ == x);
                }
            }
        }
        i = i + 1;
    }
    r
}

/// The namespaces of the fragments with a node at `p`, repeats included.
fn node_namespaces(frs: &Vec<Fragment>, p: &String) -> (r: Vec<String>)
    ensures
        forall|x: Seq<char>| views(r@).contains(x) <==> node_graphs(frs@, p@).contains(x),
{
    let mut r: Vec<String> = Vec::new();
    let mut i: usize = 0;
    while i < frs.len()
        invariant
            i <= frs@.len(),
            forall|x: Seq<char>| views(r@).contains(x) <==> (exists|q: int|
                0 <= q < i && has_node(#[trigger] frs@[q], p@) && fragment_ns(frs@[q]) == x),
        decreases frs@.len() - i,
    {
        let found = last_node_exec(&frs[i].nodes, p);
        proof {
            lemma_last_node(frs@[i as int].nodes@, p@);
        }
        let ghost before = views(r@);
        if found.is_some() {
            r.push(fragment_namespace(&frs[i]));
        }
        proof {
            assert forall|x: Seq<char>| views(r@).contains(x) <==> (exists|q: int|
                0 <= q < i + 1 && has_node(#[trigger] frs@[q], p@) && fragment_ns(frs@[q]) == x) by {
                if views(r@).contains(x) {
                    let k = choose|k: int| 0 <= k < views(r@).len() && views(r@)[k] == x;
                    if k < before.len() {
                        assert(before[k] == x);
                        assert(before.contains(x));
                    } else {
                        assert(has_node(frs@[i as int], p@));
                    }
                }
                if exists|q: int| 0 <= q < i + 1 && has_node(#[trigger] frs@[q], p@) && fragment_ns(frs@[q]) == x {
                    let q = choose|q: int| 0 <= q < i + 1 && has_node(#[trigger] frs@[q], p@) && fragment_ns(frs@[q]) == x;
                    if q < i {
                        assert(before.contains(x));
                        let k = choose|k: int| 0 <= k < before.len() && before[k] == x;
                        assert(views(r@)[k] == x);
                    } else {
                        assert(views(r@)[before.len() as int] == x);
                    }
                }
            }
        }
        i = i + 1;
    }
    r
}

/// A composed node as the fragments give it: each contributing namespace,
/// in order, with the metadata that namespace gives the path.
pub open spec fn node_composed(c: ComposedNode, frs: Seq<Fragment>) -> bool {
    let gs = sorted_members(node_graphs(frs, c.path@));
    &&& views(c.graphs@) == gs
    &&& block_keys(c.blocks@) == gs
    &&& forall|k: int| 0 <= k < c.blocks@.len() ==> Some(fields_view((#[trigger] c.blocks@[k]).1@)) == node_meta(frs, gs[k], c.path@)
}

/// Merge the fragments' nodes by path.
fn compose_nodes(frs: &Vec<Fragment>) -> (r: Vec<ComposedNode>)
    ensures
        r@.map_values(|c: ComposedNode| c.path@) == sorted_members(node_paths(frs@)),
        forall|i: int| 0 <= i < r@.len() ==> node_composed(#[trigger] r@[i], frs@),
{
    let all = all_node_paths(frs);
    let paths = sort_distinct(&all);
    proof {
        assert(views(all@).to_set() =~= node_paths(frs@));
    }
    let mut r: Vec<ComposedNode> = Vec::new();
    let mut i: usize = 0;
    while i < paths.len()
        invariant
            i <= paths@.len(),
            r@.len() == i,
            forall|q: int| 0 <= q < i ==> (#[trigger] r@[q]).path@ == paths@[q]@,
            forall|q: int| 0 <= q < i ==> node_composed(#[trigger] r@[q], frs@),
        decreases paths@.len() - i,
    {
        let p = &paths[i];
        let nss = node_namespaces(frs, p);
        let graphs = sort_distinct(&nss);
        proof {
            assert(views(nss@).to_set() =~= node_graphs(frs@, p@));
        }
        let ghost gs = views(graphs@);
        let mut blocks: Vec<(String, Vec<(String, String)>)> = Vec::new();
        let mut k: usize = 0;
        while k < graphs.len()
            invariant
                k <= graphs@.len(),
                gs == views(graphs@),
                gs == sorted_members(node_graphs(frs@, p@)),
                forall|x: Seq<char>| gs.contains(x) <==> node_graphs(frs@, p@).contains(x),
                blocks@.len() == k,
                forall|m: int| 0 <= m < k ==> (#[trigger] blocks@[m]).0@ == gs[m],
                forall|m: int| 0 <= m < k ==> Some(fields_view((#[trigger] blocks@[m]).1@)) == node_meta(frs@, gs[m], p@),
            decreases graphs@.len() - k,
        {
            proof {
                assert(gs.contains(gs[k as int]));
                lemma_node_meta_some(frs@, gs[k as int], p@);
            }
            let meta = node_meta_exec(frs, &graphs[k], p);
            match meta {
                Some(m) => {
                    blocks.push((graphs[k].clone(), m));
                },
                None => {
                    assert(false);
                    blocks.push((graphs[k].clone(), Vec::new()));
                },
            }
            k = k + 1;
        }
        let node = ComposedNode { path: p.clone(), blocks, graphs };
        proof {
            assert(block_keys(node.blocks@) =~= gs);
        }
        r.push(node);
        i = i + 1;
    }
    assert(r@.map_values(|c: ComposedNode| c.path@) =~= views(paths@));
    r
}

// ── Edges ──────────────────────────────────────────────────────

/// Whether the fragment has an edge from `s` to `t`.
pub open spec fn has_edge(f: Fragment, s: Seq<char>, t: Seq<char>) -> bool {
    exists|j: int| 0 <= j < f.edges@.len() && (#[trigger] f.edges@[j]).source@ == s && f.edges@[j].target@ == t
}

/// Every source some fragment has an edge from.
pub open spec fn edge_sources(frs: Seq<Fragment>) -> Set<Seq<char>> {
    Set::new(|s: Seq<char>| exists|i: int, t: Seq<char>| 0 <= i < frs.len() && #[trigger] has_edge(frs[i], s, t))
}

/// Every target some fragment has an edge to from `s`.
pub open spec fn edge_targets(frs: Seq<Fragment>, s: Seq<char>) -> Set<Seq<char>> {
    Set::new(|t: Seq<char>| exists|i: int| 0 <= i < frs.len() && #[trigger] has_edge(frs[i], s, t))
}

/// The namespaces of the fragments with an edge from `s` to `t`.
pub open spec fn edge_graphs(frs: Seq<Fragment>, s: Seq<char>, t: Seq<char>) -> Set<Seq<char>> {
    Set::new(|ns: Seq<char>| exists|i: int| 0 <= i < frs.len() && #[trigger] has_edge(frs[i], s, t) && fragment_ns(frs[i]) == ns)
}

/// The metadata of the last edge from `s` to `t` in a fragment's list that
/// carries any.
pub open spec fn last_edge(edges: Seq<FragmentEdge>, s: Seq<char>, t: Seq<char>) -> Option<Seq<(Seq<char>, Seq<char>)>>
    decreases edges.len(),
{
    if edges.len() == 0 {
        None
    } else if edges.last().source@ == s && edges.last().target@ == t && edges.last().metadata@.len() > 0 {
        Some(fields_view(edges.last().metadata@))
    } else {
        last_edge(edges.drop_last(), s, t)
    }
}

/// The namespaces of the fragments that give the edge from `s` to `t` metadata.
pub open spec fn edge_meta_graphs(frs: Seq<Fragment>, s: Seq<char>, t: Seq<char>) -> Set<Seq<char>> {
    Set::new(|ns: Seq<char>| exists|i: int| 0 <= i < frs.len() && last_edge((#[trigger] frs[i]).edges@, s, t) is Some && fragment_ns(frs[i]) == ns)
}

/// The metadata the edge from `s` to `t` carries under `ns`: the last
/// fragment of that namespace that gives it any decides.
pub open spec fn edge_meta(frs: Seq<Fragment>, ns: Seq<char>, s: Seq<char>, t: Seq<char>) -> Option<Seq<(Seq<char>, Seq<char>)>>
    decreases frs.len(),
{
    if frs.len() == 0 {
        None
    } else if fragment_ns(frs.last()) == ns && last_edge(frs.last().edges@, s, t) is Some {
        last_edge(frs.last().edges@, s, t)
    } else {
        edge_meta(frs.drop_last(), ns, s, t)
    }
}

/// The edge keys in order: each source of `ss` in turn with its targets,
/// sorted.
pub open spec fn edge_keys(frs: Seq<Fragment>, ss: Seq<Seq<char>>) -> Seq<(Seq<char>, Seq<char>)>
    decreases ss.len(),
{
    if ss.len() == 0 {
        Seq::empty()
    } else {
        edge_keys(frs, ss.drop_last()) + sorted_members(edge_targets(frs, ss.last())).map_values(
            |t: Seq<char>| (ss.last(), t),
        )
    }
}

/// A composed edge as the fragments give it.
pub open spec fn edge_composed(c: ComposedEdge, frs: Seq<Fragment>) -> bool {
    let gs = sorted_members(edge_graphs(frs, c.source@, c.target@));
    let ms = sorted_members(edge_meta_graphs(frs, c.source@, c.target@));
    &&& views(c.graphs@) == gs
    &&& block_keys(c.blocks@) == ms
    &&& forall|k: int| 0 <= k < c.blocks@.len() ==> Some(fields_view((#[trigger] c.blocks@[k]).1@)) == edge_meta(frs, ms[k], c.source@, c.target@)
}

proof fn lemma_edge_meta_some(frs: Seq<Fragment>, ns: Seq<char>, s: Seq<char>, t: Seq<char>)
    requires
        edge_meta_graphs(frs, s, t).contains(ns),
    ensures
        edge_meta(frs, ns, s, t) is Some,
    decreases frs.len(),
{
    let i = choose|i: int| 0 <= i < frs.len() && last_edge((#[trigger] frs[i]).edges@, s, t) is Some && fragment_ns(frs[i]) == ns;
    if !(fragment_ns(frs.last()) == ns && last_edge(frs.last().edges@, s, t) is Some) {
        assert(i != frs.len() - 1);
        assert(frs.drop_last()[i] == frs[i]);
        assert(edge_meta_graphs(frs.drop_last(), s, t).contains(ns));
        lemma_edge_meta_some(frs.drop_last(), ns, s, t);
    }
}

/// The metadata of the last edge from `s` to `t` in `edges` that carries any.
fn last_edge_exec(edges: &Vec<FragmentEdge>, s: &String, t: &String) -> (r: Option<Vec<(String, String)>>)
    ensures
        meta_opt_view(r) == last_edge(edges@, s@, t@),
{
    let mut k: usize = edges.len();
    assert(edges@.subrange(0, k as int) =~= edges@);
    while k > 0
        invariant
            k <= edges@.len(),
            last_edge(edges@, s@, t@) == last_edge(edges@.subrange(0, k as int), s@, t@),
        decreases k,
    {
        let ghost sub = edges@.subrange(0, k as int);
        assert(sub.drop_last() =~= edges@.subrange(0, k - 1));
        assert(sub.last() == edges@[k - 1]);
        let e = &edges[k - 1];
        if str_eq(e.source.as_str(), s.as_str()) && str_eq(e.target.as_str(), t.as_str()) && e.metadata.len() > 0 {
            return Some(copy_fields(&e.metadata));
        }
        k = k - 1;
    }
    None
}

/// Whether `edges` holds an edge from `s` to `t`.
fn holds_edge(edges: &Vec<FragmentEdge>, s: &String, t: &String) -> (r: bool)
    ensures
        r == (exists|j: int| 0 <= j < edges@.len() && (#[trigger] edges@[j]).source@ == s@ && edges@[j].target@ == t@),
{
    let mut j: usize = 0;
    while j < edges.len()
        invariant
            j <= edges@.len(),
            forall|m: int| 0 <= m < j ==> !((#[trigger] edges@[m]).source@ == s@ && edges@[m].target@ == t@),
        decreases edges@.len() - j,
    {
        if str_eq(edges[j].source.as_str(), s.as_str()) && str_eq(edges[j].target.as_str(), t.as_str()) {
            return true;
        }
        j = j + 1;
    }
    false
}

/// The metadata the edge from `s` to `t` carries under `ns`.
fn edge_meta_exec(frs: &Vec<Fragment>, ns: &String, s: &String, t: &String) -> (r: Option<Vec<(String, String)>>)
    ensures
        meta_opt_view(r) == edge_meta(frs@, ns@, s@, t@),
{
    let mut k: usize = frs.len();
    assert(frs@.subrange(0, k as int) =~= frs@);
    while k > 0
        invariant
            k <= frs@.len(),
            edge_meta(frs@, ns@, s@, t@) == edge_meta(frs@.subrange(0, k as int), ns@, s@, t@),
        decreases k,
    {
        let ghost sub = frs@.subrange(0, k as int);
        assert(sub.drop_last() =~= frs@.subrange(0, k - 1));
        assert(sub.last() == frs@[k - 1]);
        let name = fragment_namespace(&frs[k - 1]);
        if str_eq(name.as_str(), ns.as_str()) {
            let found = last_edge_exec(&frs[k - 1].edges, s, t);
            if found.is_some() {
                return found;
            }
        }
        k = k - 1;
    }
    None
}

/// Every edge source of every fragment, repeats included.
fn all_sources(frs: &Vec<Fragment>) -> (r: Vec<String>)
    ensures
        forall|x: Seq<char>| views(r@).contains(x) <==> edge_sources(frs@).contains(x),
{
    let mut r: Vec<String> = Vec::new();
    let mut i: usize = 0;
    while i < frs.len()
        invariant
            i <= frs@.len(),
            forall|x: Seq<char>| views(r@).contains(x) <==> (exists|q: int, t: Seq<char>| 0 <= q < i && #[trigger] has_edge(frs@[q], x, t)),
        decreases frs@.len() - i,
    {
        let edges = &frs[i].edges;
        let mut j: usize = 0;
        while j < edges.len()
            invariant
                i < frs@.len(),
                edges@ == frs@[i as int].edges@,
                j <= edges@.len(),
                forall|x: Seq<char>| views(r@).contains(x) <==> ((exists|q: int, t: Seq<char>| 0 <= q < i && #[trigger] has_edge(frs@[q], x, t))
                    || (exists|m: int| 0 <= m < j && (#[trigger] edges@[m]).source@ == x)),
            decreases edges@.len() - j,
        {
            let ghost before = views(r@);
            r.push(edges[j].source.clone());
            proof {
                assert(views(r@) =~= before.push(edges@[j as int].source@));
                assert forall|x: Seq<char>| views(r@).contains(x) <==> ((exists|q: int, t: Seq<char>| 0 <= q < i && #[trigger] has_edge(frs@[q], x, t))
                    || (exists|m: int| 0 <= m < j + 1 && (#[trigger] edges@[m]).source@ == x)) by {
                    if views(r@).contains(x) {
                        let k = choose|k: int| 0 <= k < views(r@).len() && views(r@)[k] == x;
                        if k < before.len() {
                            assert(before[k] == x);
                            assert(before.contains(x));
                        }
                    }
                    if before.contains(x) {
                        let k = choose|k: int| 0 <= k < before.len() && before[k] == x;
                        assert(views(r@)[k] == x);
                    }
                    if x == edges@[j as int].source@ {
                        assert(views(r@)[before.len() as int] == x);
                    }
                }
            }
            j = j + 1;
        }
        proof {
            assert forall|x: Seq<char>| views(r@).contains(x) <==> (exists|q: int, t: Seq<char>| 0 <= q < i + 1 && #[trigger] has_edge(frs@[q], x, t)) by {
                if exists|m: int| 0 <= m < edges@.len() && (#[trigger] edges@[m]).source@ == x {
                    let m = choose|m: int| 0 <= m < edges@.len() && (#[trigger] edges@[m]).source@ == x;
                    assert(has_edge(frs@[i as int], x, edges@[m].target@));
                }
                if exists|q: int, t: Seq<char>| 0 <= q < i + 1 && #[trigger] has_edge(frs@[q], x, t) {
                    let (q, t) = choose|q: int, t: Seq<char>| 0 <= q < i + 1 && #[trigger] has_edge(frs@[q], x, t);
                    if q == i {
                        let m = choose|m: int| 0 <= m < frs@[i as int].edges@.len() && (#[trigger] frs@[i as int].edges@[m]).source@ == x
                            && frs@[i as int].edges@[m].target@ == t;
                        assert(edges@[m].source@ == x);
                    }
                }
            }
        }
        i = i + 1;
    }
    proof {
        assert forall|x: Seq<char>| views(r@).contains(x) <==> edge_sources(frs@).contains(x) by {
        }
    }
    r
}

/// Every target of an edge from `s`, repeats included.
fn all_targets(frs: &Vec<Fragment>, s: &String) -> (r: Vec<String>)
    ensures
        forall|x: Seq<char>| views(r@).contains(x) <==> edge_targets(frs@, s@).contains(x),
{
    let mut r: Vec<String> = Vec::new();
    let mut i: usize = 0;
    while i < frs.len()
        invariant
            i <= frs@.len(),
            forall|x: Seq<char>| views(r@).contains(x) <==> (exists|q: int| 0 <= q < i && #[trigger] has_edge(frs@[q], s@, x)),
        decreases frs@.len() - i,
    {
        let edges = &frs[i].edges;
        let mut j: usize = 0;
        while j < edges.len()
            invariant
                i < frs@.len(),
                edges@ == frs@[i as int].edges@,
                j <= edges@.len(),
                forall|x: Seq<char>| views(r@).contains(x) <==> ((exists|q: int| 0 <= q < i && #[trigger] has_edge(frs@[q], s@, x))
                    || (exists|m: int| 0 <= m < j && (#[trigger] edges@[m]).source@ == s@ && edges@[m].target@ == x)),
            decreases edges@.len() - j,
        {
            let ghost before = views(r@);
            if str_eq(edges[j].source.as_str(), s.as_str()) {
                r.push(edges[j].target.clone());
            }
            proof {
                assert forall|x: Seq<char>| views(r@).contains(x) <==> ((exists|q: int| 0 <= q < i && #[trigger] has_edge(frs@[q], s@, x))
                    || (exists|m: int| 0 <= m < j + 1 && (#[trigger] edges@[m]).source@ == s@ && edges@[m].target@ == x)) by {
                    if views(r@).contains(x) {
                        let k = choose|k: int| 0 <= k < views(r@).len() && views(r@)[k] == x;
                        if k < before.len() {
                            assert(before[k] == x);
                            assert(before.contains(x));
                        } else {
                            assert(edges@[j as int].source@ == s@ && edges@[j as int].target@ == x);
                        }
                    }
                    if before.contains(x) {
                        let k = choose|k: int| 0 <= k < before.len() && before[k] == x;
                        assert(views(r@)[k] == x);
                    }
                    if edges@[j as int].source@ == s@ && x == edges@[j as int].target@ {
                        assert(views(r@)[before.len() as int] == x);
                    }
                }
            }
            j = j + 1;
        }
        proof {
            assert forall|x: Seq<char>| views(r@).contains(x) <==> (exists|q: int| 0 <= q < i + 1 && #[trigger] has_edge(frs@[q], s@, x)) by {
                if exists|m: int| 0 <= m < edges@.len() && (#[trigger] edges@[m]).source@ == s@ && edges@[m].target@ == x {
                    assert(has_edge(frs@[i as int], s@, x));
                }
                if has_edge(frs@[i as int], s@, x) {
                    let m = choose|m: int| 0 <= m < frs@[i as int].edges@.len() && (#[trigger] frs@[i as int].edges@[m]).source@ == s@
                        && frs@[i as int].edges@[m].target@ == x;
                    assert(edges@[m].source@ == s@);
                }
            }
        }
        i = i + 1;
    }
    r
}

/// The namespaces of the fragments with an edge from `s` to `t` (`meta`:
/// only those that give it metadata), repeats included.
fn edge_namespaces(frs: &Vec<Fragment>, s: &String, t: &String, meta: bool) -> (r: Vec<String>)
    ensures
        !meta ==> forall|x: Seq<char>| views(r@).contains(x) <==> edge_graphs(frs@, s@, t@).contains(x),
        meta ==> forall|x: Seq<char>| views(r@).contains(x) <==> edge_meta_graphs(frs@, s@, t@).contains(x),
{
    let mut r: Vec<String> = Vec::new();
    let mut i: usize = 0;
    while i < frs.len()
        invariant
            i <= frs@.len(),
            !meta ==> forall|x: Seq<char>| views(r@).contains(x) <==> (exists|q: int|
                0 <= q < i && #[trigger] has_edge(frs@[q], s@, t@) && fragment_ns(frs@[q]) == x),
            meta ==> forall|x: Seq<char>| views(r@).contains(x) <==> (exists|q: int|
                0 <= q < i && last_edge((#[trigger] frs@[q]).edges@, s@, t@) is Some && fragment_ns(frs@[q]) == x),
        decreases frs@.len() - i,
    {
        let hit = if meta {
            last_edge_exec(&frs[i].edges, s, t).is_some()
        } else {
            holds_edge(&frs[i].edges, s, t)
        };
        let ghost before = views(r@);
        assert(!meta ==> forall|x: Seq<char>| before.contains(x) <==> (exists|q: int|
            0 <= q < i && #[trigger] has_edge(frs@[q], s@, t@) && fragment_ns(frs@[q]) == x));
        assert(meta ==> forall|x: Seq<char>| before.contains(x) <==> (exists|q: int|
            0 <= q < i && last_edge((#[trigger] frs@[q]).edges@, s@, t@) is Some && fragment_ns(frs@[q]) == x));
        if hit {
            r.push(fragment_namespace(&frs[i]));
        }
        proof {
            let f = frs@[i as int];
            assert(!meta ==> (hit == has_edge(f, s@, t@)));
            assert(meta ==> (hit == (last_edge(f.edges@, s@, t@) is Some)));
            assert forall|x: Seq<char>| views(r@).contains(x) <==> (before.contains(x) || (hit && x == fragment_ns(f))) by {
                if views(r@).contains(x) {
                    let k = choose|k: int| 0 <= k < views(r@).len() && views(r@)[k] == x;
                    if k < before.len() {
                        assert(before[k] == x);
                    }
                }
                if before.contains(x) {
                    let k = choose|k: int| 0 <= k < before.len() && before[k] == x;
                    assert(views(r@)[k] == x);
                }
                if hit && x == fragment_ns(f) {
                    assert(views(r@)[before.len() as int] == x);
                }
            }
            if !meta {
                assert forall|x: Seq<char>| views(r@).contains(x) <==> (exists|q: int|
                    0 <= q < i + 1 && #[trigger] has_edge(frs@[q], s@, t@) && fragment_ns(frs@[q]) == x) by {
                    if views(r@).contains(x) {
                        if before.contains(x) {
                            let q = choose|q: int| 0 <= q < i && #[trigger] has_edge(frs@[q], s@, t@) && fragment_ns(frs@[q]) == x;
                            assert(0 <= q < i + 1 && has_edge(frs@[q], s@, t@) && fragment_ns(frs@[q]) == x);
                        } else {
                            assert(has_edge(frs@[i as int], s@, t@) && fragment_ns(frs@[i as int]) == x);
                        }
                    }
                    if exists|q: int| 0 <= q < i + 1 && #[trigger] has_edge(frs@[q], s@, t@) && fragment_ns(frs@[q]) == x {
                        let q = choose|q: int| 0 <= q < i + 1 && #[trigger] has_edge(frs@[q], s@, t@) && fragment_ns(frs@[q]) == x;
                        if q < i {
                            assert(before.contains(x));
                        }
                    }
                }
            } else {
                assert forall|x: Seq<char>| views(r@).contains(x) <==> (exists|q: int|
                    0 <= q < i + 1 && last_edge((#[trigger] frs@[q]).edges@, s@, t@) is Some && fragment_ns(frs@[q]) == x) by {
                    if views(r@).contains(x) {
                        if before.contains(x) {
                            let q = choose|q: int| 0 <= q < i && last_edge((#[trigger] frs@[q]).edges@, s@, t@) is Some && fragment_ns(frs@[q]) == x;
                            assert(0 <= q < i + 1 && last_edge(frs@[q].edges@, s@, t@) is Some && fragment_ns(frs@[q]) == x);
                        } else {
                            assert(last_edge(frs@[i as int].edges@, s@, t@) is Some && fragment_ns(frs@[i as int]) == x);
                        }
                    }
                    if exists|q: int| 0 <= q < i + 1 && last_edge((#[trigger] frs@[q]).edges@, s@, t@) is Some && fragment_ns(frs@[q]) == x {
                        let q = choose|q: int| 0 <= q < i + 1 && last_edge((#[trigger] frs@[q]).edges@, s@, t@) is Some && fragment_ns(frs@[q]) == x;
                        if q < i {
                            assert(before.contains(x));
                        }
                    }
                }
            }
        }
        i = i + 1;
    }
    r
}

/// The `(source, target)` keys of composed edges.
pub open spec fn edge_key_view(cs: Seq<ComposedEdge>) -> Seq<(Seq<char>, Seq<char>)> {
    cs.map_values(|c: ComposedEdge| (c.source@, c.target@))
}

/// One composed edge from `s` to `t`.
fn compose_edge(frs: &Vec<Fragment>, s: &String, t: &String) -> (c: ComposedEdge)
    ensures
        c.source@ == s@,
        c.target@ == t@,
        edge_composed(c, frs@),
{
    let gs_raw = edge_namespaces(frs, s, t, false);
    let graphs = sort_distinct(&gs_raw);
    let ms_raw = edge_namespaces(frs, s, t, true);
    let metas = sort_distinct(&ms_raw);
    proof {
        assert(views(gs_raw@).to_set() =~= edge_graphs(frs@, s@, t@));
        assert(views(ms_raw@).to_set() =~= edge_meta_graphs(frs@, s@, t@));
    }
    let ghost ms = views(metas@);
    let mut blocks: Vec<(String, Vec<(String, String)>)> = Vec::new();
    let mut k: usize = 0;
    while k < metas.len()
        invariant
            k <= metas@.len(),
            ms == views(metas@),
            ms == sorted_members(edge_meta_graphs(frs@, s@, t@)),
            forall|x: Seq<char>| ms.contains(x) <==> edge_meta_graphs(frs@, s@, t@).contains(x),
            blocks@.len() == k,
            forall|m: int| 0 <= m < k ==> (#[trigger] blocks@[m]).0@ == ms[m],
            forall|m: int| 0 <= m < k ==> Some(fields_view((#[trigger] blocks@[m]).1@)) == edge_meta(frs@, ms[m], s@, t@),
        decreases metas@.len() - k,
    {
        proof {
            assert(ms.contains(ms[k as int]));
            lemma_edge_meta_some(frs@, ms[k as int], s@, t@);
        }
        let meta = edge_meta_exec(frs, &metas[k], s, t);
        match meta {
            Some(m) => {
                blocks.push((metas[k].clone(), m));
            },
            None => {
                assert(false);
                blocks.push((metas[k].clone(), Vec::new()));
            },
        }
        k = k + 1;
    }
    let c = ComposedEdge { source: s.clone(), target: t.clone(), blocks, graphs };
    proof {
        assert(block_keys(c.blocks@) =~= ms);
    }
    c
}

/// Merge the fragments' edges by `(source, target)`.
fn compose_edges(frs: &Vec<Fragment>) -> (r: Vec<ComposedEdge>)
    ensures
        edge_key_view(r@) == edge_keys(frs@, sorted_members(edge_sources(frs@))),
        forall|i: int| 0 <= i < r@.len() ==> edge_composed(#[trigger] r@[i], frs@),
{
    let all = all_sources(frs);
    let sources = sort_distinct(&all);
    proof {
        assert(views(all@).to_set() =~= edge_sources(frs@));
    }
    let ghost ss = views(sources@);
    let mut r: Vec<ComposedEdge> = Vec::new();
    let mut i: usize = 0;
    assert(edge_key_view(r@) =~= edge_keys(frs@, ss.subrange(0, 0)));
    while i < sources.len()
        invariant
            i <= sources@.len(),
            ss == views(sources@),
            ss == sorted_members(edge_sources(frs@)),
            edge_key_view(r@) == edge_keys(frs@, ss.subrange(0, i as int)),
            forall|q: int| 0 <= q < r@.len() ==> edge_composed(#[trigger] r@[q], frs@),
        decreases sources@.len() - i,
    {
        let s = &sources[i];
        let ts = all_targets(frs, s);
        let targets = sort_distinct(&ts);
        proof {
            assert(views(ts@).to_set() =~= edge_targets(frs@, s@));
        }
        let ghost tv = views(targets@);
        let ghost base = edge_key_view(r@);
        let mut k: usize = 0;
        assert(edge_key_view(r@) =~= base + tv.subrange(0, 0).map_values(|t: Seq<char>| (ss[i as int], t)));
        while k < targets.len()
            invariant
                i < sources@.len(),
                ss == views(sources@),
                s@ == ss[i as int],
                k <= targets@.len(),
                tv == views(targets@),
                edge_key_view(r@) == base + tv.subrange(0, k as int).map_values(|t: Seq<char>| (ss[i as int], t)),
                forall|q: int| 0 <= q < r@.len() ==> edge_composed(#[trigger] r@[q], frs@),
            decreases targets@.len() - k,
        {
            let c = compose_edge(frs, s, &targets[k]);
            let ghost before = edge_key_view(r@);
            r.push(c);
            proof {
                assert(edge_key_view(r@) =~= before.push((s@, targets@[k as int]@)));
                assert(tv.subrange(0, k + 1).map_values(|t: Seq<char>| (ss[i as int], t)) =~= tv.subrange(0, k as int).map_values(
                    |t: Seq<char>| (ss[i as int], t),
                ).push((ss[i as int], tv[k as int])));
                assert(edge_key_view(r@) =~= base + tv.subrange(0, k + 1).map_values(|t: Seq<char>| (ss[i as int], t)));
            }
            k = k + 1;
        }
        proof {
            let sub = ss.subrange(0, i + 1);
            assert(sub.drop_last() =~= ss.subrange(0, i as int));
            assert(sub.last() == ss[i as int]);
            assert(tv.subrange(0, tv.len() as int) =~= tv);
            assert(edge_key_view(r@) =~= edge_keys(frs@, sub));
        }
        i = i + 1;
    }
    assert(ss.subrange(0, ss.len() as int) =~= ss);
    r
}

/// Merge the set of per-graph fragments into one composed graph: nodes by
/// path, in path order, with each contributing namespace's metadata and the
/// contributing namespaces; edges once per `(source, target)`, in that order,
/// with the metadata each namespace gives them and every namespace that
/// contributed them.
pub fn compose(set: &Vec<Fragment>) -> (r: Composed)
    ensures
        r.nodes@.map_values(|c: ComposedNode| c.path@) == sorted_members(node_paths(set@)),
        forall|i: int| 0 <= i < r.nodes@.len() ==> node_composed(#[trigger] r.nodes@[i], set@),
        edge_key_view(r.edges@) == edge_keys(set@, sorted_members(edge_sources(set@))),
        forall|i: int| 0 <= i < r.edges@.len() ==> edge_composed(#[trigger] r.edges@[i], set@),
{
    Composed { nodes: compose_nodes(set), edges: compose_edges(set) }
}

} // verus!
