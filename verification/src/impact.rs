//! The impacted set of a change to some seed nodes: every node reached from
//! the seeds by walking dependents (inbound), dependencies (outbound) or
//! both, each with the neighbour it was reached through, its distance, the
//! number of nodes that depend on it, the line(s) to review and the
//! instruction to review them. Traversal is cycle-safe: each node is reported
//! once, at its shortest distance.

use vstd::prelude::*;
use crate::analyses::impact_radius::dependents_of;
use crate::graph::{has_path, sorted_nodes, Graph};
use crate::order::{lemma_lt_irrefl, seq_lt};
use crate::reach::{
    adj_ok, allowed, at_level, bfs, bfs_post, count_of, edge, lemma_bfs_reachable,
    lemma_level_unique, single, single_source, within,
};
use crate::structure::{edge_ends, g_edge, graph_adj, graph_rel, opt_int};
use crate::text::{comma_numbers, push_all, push_comma_numbers};

verus! {

/// Which way to walk from the seeds. Inbound finds dependents — what must be
/// reviewed when a seed changes; outbound finds dependencies.
#[derive(Debug, Clone, Copy, PartialEq, Eq, Structural)]
pub enum Direction {
    Inbound,
    Outbound,
    Both,
}

/// One impacted node.
#[derive(Debug)]
pub struct Impacted {
    pub node: String,
    /// The neighbour through which this node was reached.
    pub via: String,
    /// The number of steps from the nearest seed.
    pub depth: usize,
    /// The number of nodes that transitively depend on this node.
    pub impact_radius: usize,
    /// The line(s) in `node` where it links `via`, when the node was reached
    /// as a dependent; empty when it was reached as a dependency.
    pub lines: Vec<usize>,
    /// The review instruction.
    pub fix: String,
}

/// Line numbers as a `:n,m` suffix, or nothing when there are none.
pub open spec fn suffix_spec(lines: Seq<usize>) -> Seq<char> {
    if lines.len() == 0 {
        Seq::empty()
    } else {
        seq![':'] + comma_numbers(lines)
    }
}

/// Render line numbers as a `:n,m` suffix, or empty when there are none.
pub fn lines_suffix(lines: &Vec<usize>) -> (out: String)
    ensures
        out@ == suffix_spec(lines@),
{
    let mut out = String::new();
    if lines.len() > 0 {
        out.push(':');
        push_comma_numbers(&mut out, lines);
        assert(out@ =~= suffix_spec(lines@));
    }
    out
}

impl Impacted {
    /// The node path annotated with its link line(s), e.g. `README.md:42`.
    pub fn location(&self) -> (out: String)
        ensures
            out@ == self.node@ + suffix_spec(self.lines@),
    {
        let mut out = String::new();
        push_all(&mut out, self.node.as_str());
        let suffix = lines_suffix(&self.lines);
        push_all(&mut out, suffix.as_str());
        assert(out@ =~= self.node@ + suffix_spec(self.lines@));
        out
    }
}

/// The review instruction for `node`, reached through `via`.
pub open spec fn fix_spec(via: Seq<char>, node: Seq<char>, lines: Seq<usize>) -> Seq<char> {
    via + " may change — review "@ + node + suffix_spec(lines)
        + " to ensure it still accurately reflects "@ + via
}

/// The step relation of a walk in `dir`: inbound steps go from a node to the
/// nodes that link it, outbound steps to the nodes it links.
pub open spec fn dir_rel(g: Graph, dir: Direction) -> spec_fn(int, int) -> bool {
    |x: int, y: int|
        match dir {
            Direction::Inbound => graph_rel(g, true)(x, y),
            Direction::Outbound => graph_rel(g, false)(x, y),
            Direction::Both => graph_rel(g, true)(x, y) || graph_rel(g, false)(x, y),
        }
}

/// Whether node `i` is named by one of the seeds.
pub open spec fn seeded(g: Graph, seeds: Seq<String>, i: int) -> bool {
    exists|j: int| 0 <= j < seeds.len() && #[trigger] seeds[j]@ == g.nodes@[i].path@
}

/// The nodes named by the seeds; seeds that name no node are skipped.
pub open spec fn seed_marks(g: Graph, seeds: Seq<String>) -> Seq<bool> {
    Seq::new(g.nodes@.len(), |i: int| seeded(g, seeds, i))
}

/// Whether `lines` are those of some edge from node `v` to node `p`.
pub open spec fn edge_lines_are(g: Graph, v: int, p: int, lines: Seq<usize>) -> bool {
    exists|k: int|
        0 <= k < g.edges@.len() && #[trigger] g.src_of(k) == v && g.tgt_of(k) == Some(p)
            && lines == g.edges@[k].lines@
}

/// The lines reported for `v` reached through `p`: the link's lines when `v`
/// holds a link to `p` (it was reached as a dependent), none otherwise.
pub open spec fn lines_ok(g: Graph, dir: Direction, v: int, p: int, lines: Seq<usize>) -> bool {
    match dir {
        Direction::Inbound => edge_lines_are(g, v, p, lines),
        Direction::Outbound => lines.len() == 0,
        Direction::Both => edge_lines_are(g, v, p, lines) || (lines.len() == 0 && !g_edge(g, v, p)),
    }
}

/// Whether `e` reports node `v`, reached through node `p`.
pub open spec fn reached_entry(
    g: Graph,
    seeds: Seq<String>,
    dir: Direction,
    limit: Option<usize>,
    e: Impacted,
    v: int,
    p: int,
) -> bool {
    let n = g.nodes@.len();
    let rel = dir_rel(g, dir);
    let src = seed_marks(g, seeds);
    &&& 0 <= v < n
    &&& 0 <= p < n
    &&& e.node@ == g.nodes@[v].path@
    &&& e.via@ == g.nodes@[p].path@
    &&& e.depth >= 1
    &&& allowed(e.depth as nat, limit)
    &&& at_level(rel, src, v, e.depth as nat)
    &&& rel(p, v)
    &&& at_level(rel, src, p, (e.depth - 1) as nat)
    &&& e.impact_radius == count_of(n, dependents_of(g, v))
    &&& lines_ok(g, dir, v, p, e.lines@)
    &&& e.fix@ == fix_spec(e.via@, e.node@, e.lines@)
}

/// Whether `e` reports some reached node.
pub open spec fn reports_reached(
    g: Graph,
    seeds: Seq<String>,
    dir: Direction,
    limit: Option<usize>,
    e: Impacted,
) -> bool {
    exists|v: int, p: int| #[trigger] reached_entry(g, seeds, dir, limit, e, v, p)
}

/// Whether every entry of `out` reports some reached node.
pub open spec fn entries_ok(
    g: Graph,
    seeds: Seq<String>,
    dir: Direction,
    limit: Option<usize>,
    out: Seq<Impacted>,
) -> bool {
    forall|q: int| 0 <= q < out.len() ==> #[trigger] reports_reached(g, seeds, dir, limit, out[q])
}

/// What `compute` returns: one entry for every node whose shortest distance
/// from the seeds is at least one step and within the limit, in path order,
/// and nothing else.
pub open spec fn impact_spec(
    g: Graph,
    seeds: Seq<String>,
    dir: Direction,
    limit: Option<usize>,
    out: Seq<Impacted>,
) -> bool {
    let n = g.nodes@.len();
    &&& entries_ok(g, seeds, dir, limit, out)
    &&& forall|v: int, d: nat|
        0 <= v < n && 1 <= d && allowed(d, limit) && #[trigger] at_level(
            dir_rel(g, dir),
            seed_marks(g, seeds),
            v,
            d,
        ) ==> exists|q: int| 0 <= q < out.len() && #[trigger] out[q].node@ == g.nodes@[v].path@
    &&& forall|q: int, t: int| 0 <= q < t < out.len() ==> seq_lt(#[trigger] out[q].node@, #[trigger] out[t].node@)
}

/// The marks of the nodes the seeds name.
pub(crate) fn seed_mark_vec(g: &Graph, seeds: &Vec<String>) -> (r: Vec<bool>)
    requires
        sorted_nodes(g.nodes@),
    ensures
        r@ == seed_marks(*g, seeds@),
{
    let n = g.nodes.len();
    let mut r: Vec<bool> = Vec::new();
    let mut i: usize = 0;
    while i < n
        invariant
            i <= n,
            n == g.nodes@.len(),
            r@.len() == i,
            forall|x: int| 0 <= x < i ==> !#[trigger] r@[x],
        decreases n - i,
    {
        r.push(false);
        i = i + 1;
    }
    let mut j: usize = 0;
    while j < seeds.len()
        invariant
            j <= seeds@.len(),
            n == g.nodes@.len(),
            sorted_nodes(g.nodes@),
            r@.len() == n,
            forall|x: int|
                0 <= x < n ==> (#[trigger] r@[x] <==> exists|y: int|
                    0 <= y < j && #[trigger] seeds@[y]@ == g.nodes@[x].path@),
        decreases seeds@.len() - j,
    {
        let found = g.index_of(seeds[j].as_str());
        let ghost before = r@;
        match found {
            Some(i) => {
                r.set(i, true);
            },
            None => {},
        }
        proof {
            assert forall|x: int|
                0 <= x < n implies (#[trigger] r@[x] <==> exists|y: int|
                    0 <= y < j + 1 && #[trigger] seeds@[y]@ == g.nodes@[x].path@) by {
                if seeds@[j as int]@ == g.nodes@[x].path@ {
                    match found {
                        Some(i) => {
                            if i != x {
                                assert(has_path(g.nodes@, x, seeds@[j as int]@));
                                assert(has_path(g.nodes@, i as int, seeds@[j as int]@));
                                crate::graph::lemma_index_unique(g.nodes@, x, seeds@[j as int]@);
                                crate::graph::lemma_index_unique(g.nodes@, i as int, seeds@[j as int]@);
                            }
                        },
                        None => {
                            assert(has_path(g.nodes@, x, seeds@[j as int]@));
                        },
                    }
                }
                if r@[x] && !before[x] {
                    assert(seeds@[j as int]@ == g.nodes@[x].path@);
                }
            }
        }
        j = j + 1;
    }
    proof {
        assert forall|x: int| 0 <= x < n implies r@[x] == seed_marks(*g, seeds@)[x] by {
            if r@[x] {
                let y = choose|y: int| 0 <= y < seeds@.len() && #[trigger] seeds@[y]@ == g.nodes@[x].path@;
                assert(seeded(*g, seeds@, x));
            }
            if seeded(*g, seeds@, x) {
                let y = choose|y: int| 0 <= y < seeds@.len() && #[trigger] seeds@[y]@ == g.nodes@[x].path@;
            }
        }
        assert(r@ =~= seed_marks(*g, seeds@));
    }
    r
}

/// A copy of `v`.
pub(crate) fn copy_lines(v: &Vec<usize>) -> (r: Vec<usize>)
    ensures
        r@ == v@,
{
    let mut r: Vec<usize> = Vec::new();
    let mut i: usize = 0;
    while i < v.len()
        invariant
            i <= v@.len(),
            r@ == v@.subrange(0, i as int),
        decreases v@.len() - i,
    {
        r.push(v[i]);
        i = i + 1;
        assert(r@ =~= v@.subrange(0, i as int));
    }
    assert(v@.subrange(0, v@.len() as int) =~= v@);
    r
}

/// Adjacency lists holding both sets of neighbours.
fn union_adj(a: &Vec<Vec<usize>>, b: &Vec<Vec<usize>>) -> (r: Vec<Vec<usize>>)
    requires
        a@.len() == b@.len(),
        adj_ok(a@),
        adj_ok(b@),
    ensures
        r@.len() == a@.len(),
        adj_ok(r@),
        forall|u: int, v: int| #[trigger] edge(r@, u, v) <==> edge(a@, u, v) || edge(b@, u, v),
{
    let n = a.len();
    let mut r: Vec<Vec<usize>> = Vec::new();
    let mut u: usize = 0;
    while u < n
        invariant
            u <= n,
            n == a@.len(),
            n == b@.len(),
            adj_ok(a@),
            adj_ok(b@),
            r@.len() == u,
            forall|x: int| 0 <= x < u ==> #[trigger] r@[x]@ == a@[x]@ + b@[x]@,
        decreases n - u,
    {
        let mut row = copy_lines(&a[u]);
        let mut j: usize = 0;
        while j < b[u].len()
            invariant
                u < n,
                n == b@.len(),
                j <= b@[u as int]@.len(),
                row@ == a@[u as int]@ + b@[u as int]@.subrange(0, j as int),
            decreases b@[u as int]@.len() - j,
        {
            row.push(b[u][j]);
            j = j + 1;
            assert(row@ =~= a@[u as int]@ + b@[u as int]@.subrange(0, j as int));
        }
        assert(b@[u as int]@.subrange(0, j as int) =~= b@[u as int]@);
        r.push(row);
        u = u + 1;
    }
    proof {
        assert forall|x: int, j: int| 0 <= x < r@.len() && 0 <= j < r@[x]@.len() implies #[trigger] r@[x]@[j] < r@.len() by {
            if j < a@[x]@.len() {
                assert(r@[x]@[j] == a@[x]@[j]);
            } else {
                assert(r@[x]@[j] == b@[x]@[j - a@[x]@.len()]);
            }
        }
        assert forall|x: int, y: int| #[trigger] edge(r@, x, y) <==> edge(a@, x, y) || edge(b@, x, y) by {
            if 0 <= x < n {
                let ra = a@[x]@;
                let rb = b@[x]@;
                if edge(r@, x, y) {
                    let j = choose|j: int| 0 <= j < r@[x]@.len() && r@[x]@[j] == y;
                    if j < ra.len() {
                        assert(ra[j] == y);
                    } else {
                        assert(rb[j - ra.len()] == y);
                    }
                }
                if edge(a@, x, y) {
                    let j = choose|j: int| 0 <= j < ra.len() && ra[j] == y;
                    assert(r@[x]@[j] == y);
                }
                if edge(b@, x, y) {
                    let j = choose|j: int| 0 <= j < rb.len() && rb[j] == y;
                    assert(r@[x]@[ra.len() + j] == y);
                }
            }
        }
    }
    r
}

/// The lines of the first edge from node `a` to node `b`, if there is one.
fn edge_lines(g: &Graph, ends: &Vec<(usize, Option<usize>)>, a: usize, b: usize) -> (r: Option<Vec<usize>>)
    requires
        ends@.len() == g.edges@.len(),
        forall|k: int|
            0 <= k < ends@.len() ==> (#[trigger] ends@[k]).0 == g.src_of(k) && opt_int(ends@[k].1)
                == g.tgt_of(k),
    ensures
        match r {
            Some(ls) => edge_lines_are(*g, a as int, b as int, ls@),
            None => !g_edge(*g, a as int, b as int),
        },
{
    let mut k: usize = 0;
    while k < ends.len()
        invariant
            k <= ends@.len(),
            ends@.len() == g.edges@.len(),
            forall|q: int|
                0 <= q < ends@.len() ==> (#[trigger] ends@[q]).0 == g.src_of(q) && opt_int(ends@[q].1)
                    == g.tgt_of(q),
            forall|q: int| 0 <= q < k ==> !(#[trigger] g.src_of(q) == a && g.tgt_of(q) == Some(b as int)),
        decreases ends@.len() - k,
    {
        let (s, t) = ends[k];
        if s == a {
            match t {
                Some(t) => {
                    if t == b {
                        let ls = copy_lines(&g.edges[k].lines);
                        assert(g.src_of(k as int) == a && g.tgt_of(k as int) == Some(b as int));
                        return Some(ls);
                    }
                },
                None => {},
            }
        }
        k = k + 1;
    }
    None
}

/// The number of nodes other than `v` that depend on it, given the reversed
/// adjacency of `g`.
fn dependents_count(radj: &Vec<Vec<usize>>, v: usize, Ghost(g): Ghost<Graph>) -> (r: usize)
    requires
        radj@.len() == g.nodes@.len(),
        adj_ok(radj@),
        v < g.nodes@.len(),
        forall|u: int, w: int|
            0 <= u < radj@.len() ==> (#[trigger] graph_rel(g, true)(u, w) <==> edge(radj@, u, w)),
        forall|u: int, w: int| #[trigger] graph_rel(g, true)(u, w) ==> 0 <= u < radj@.len() && 0 <= w < radj@.len(),
    ensures
        r == count_of(g.nodes@.len(), dependents_of(g, v as int)),
{
    let n = radj.len();
    let ghost rel = graph_rel(g, true);
    let src = single_source(n, v);
    let (dist, prev) = bfs(radj, &src, None, Ghost(rel));
    let ghost s = src@;
    let ghost is_dep = dependents_of(g, v as int);
    let mut count: usize = 0;
    let mut w: usize = 0;
    while w < n
        invariant
            w <= n,
            n == g.nodes@.len(),
            s == single(n as nat, v as int),
            rel == graph_rel(g, true),
            bfs_post(rel, s, None, dist@, prev@),
            is_dep == dependents_of(g, v as int),
            count == count_of(w as nat, is_dep),
            count <= w,
        decreases n - w,
    {
        proof {
            lemma_bfs_reachable(rel, s, dist@, prev@, w as int);
        }
        if dist[w].is_some() && w != v {
            count = count + 1;
        }
        w = w + 1;
    }
    count
}

/// Compute the impacted set for `seeds`, walking in `direction` at most
/// `max_depth` steps (`None`: no limit). Seeds that name no node are skipped.
/// Every node whose shortest distance from the seeds is at least one step
/// and within the limit is reported once, at that distance, through a
/// neighbour one step closer; entries come in path order.
pub fn compute(graph: &Graph, seeds: &Vec<String>, direction: Direction, max_depth: Option<usize>) -> (r: Vec<
    Impacted,
>)
    requires
        graph.wf(),
    ensures
        impact_spec(*graph, seeds@, direction, max_depth, r@),
{
    let n = graph.nodes.len();
    let ghost g = *graph;
    let ghost rel = dir_rel(g, direction);
    let marks = seed_mark_vec(graph, seeds);
    let radj = graph_adj(graph, true);
    let adj = match direction {
        Direction::Inbound => graph_adj(graph, true),
        Direction::Outbound => graph_adj(graph, false),
        Direction::Both => {
            let a = graph_adj(graph, true);
            let b = graph_adj(graph, false);
            union_adj(&a, &b)
        },
    };
    proof {
        assert forall|u: int, v: int| 0 <= u < adj@.len() implies (#[trigger] rel(u, v) <==> edge(adj@, u, v)) by {
            assert(graph_rel(g, true)(u, v) ==> 0 <= v < n);
            assert(graph_rel(g, false)(u, v) ==> 0 <= v < n);
        }
        assert forall|u: int, v: int| #[trigger] rel(u, v) implies 0 <= u < adj@.len() && 0 <= v < adj@.len() by {
            assert(graph_rel(g, true)(u, v) ==> 0 <= u < n && 0 <= v < n);
            assert(graph_rel(g, false)(u, v) ==> 0 <= u < n && 0 <= v < n);
        }
    }
    let (dist, prev) = bfs(&adj, &marks, max_depth, Ghost(rel));
    let ends = edge_ends(graph);
    let ghost s = marks@;
    let mut out: Vec<Impacted> = Vec::new();
    let ghost mut idx: Seq<int> = Seq::empty();
    let mut v: usize = 0;
    while v < n
        invariant
            v <= n,
            n == graph.nodes@.len(),
            g == *graph,
            graph.wf(),
            rel == dir_rel(g, direction),
            s == seed_marks(g, seeds@),
            bfs_post(rel, s, max_depth, dist@, prev@),
            radj@.len() == n,
            adj_ok(radj@),
            forall|u: int, w: int|
                0 <= u < radj@.len() ==> (#[trigger] graph_rel(g, true)(u, w) <==> edge(radj@, u, w)),
            forall|u: int, w: int| #[trigger] graph_rel(g, true)(u, w) ==> 0 <= u < radj@.len() && 0 <= w < radj@.len(),
            ends@.len() == g.edges@.len(),
            forall|k: int|
                0 <= k < ends@.len() ==> (#[trigger] ends@[k]).0 == g.src_of(k) && opt_int(ends@[k].1)
                    == g.tgt_of(k),
            idx.len() == out@.len(),
            forall|q: int| 0 <= q < out@.len() ==> 0 <= #[trigger] idx[q] < v,
            forall|q: int, t: int| 0 <= q < t < out@.len() ==> #[trigger] idx[q] < #[trigger] idx[t],
            forall|q: int|
                0 <= q < out@.len() ==> #[trigger] out@[q].node@ == g.nodes@[idx[q]].path@,
            entries_ok(g, seeds@, direction, max_depth, out@),
            forall|w: int|
                0 <= w < v && (match #[trigger] dist@[w] {
                    Some(d) => d >= 1,
                    None => false,
                }) ==> exists|q: int| 0 <= q < out@.len() && #[trigger] out@[q].node@ == g.nodes@[w].path@,
        decreases n - v,
    {
        match dist[v] {
            Some(d) => {
                if d >= 1 {
                    let p = prev[v];
                    let lines = match direction {
                        Direction::Outbound => Vec::new(),
                        _ => match edge_lines(graph, &ends, v, p) {
                            Some(ls) => ls,
                            None => Vec::new(),
                        },
                    };
                    let node = graph.nodes[v].path.clone();
                    let via = graph.nodes[p].path.clone();
                    let radius = dependents_count(&radj, v, Ghost(g));
                    let suffix = lines_suffix(&lines);
                    let mut fix = String::new();
                    push_all(&mut fix, via.as_str());
                    push_all(&mut fix, " may change — review ");
                    push_all(&mut fix, node.as_str());
                    push_all(&mut fix, suffix.as_str());
                    push_all(&mut fix, " to ensure it still accurately reflects ");
                    push_all(&mut fix, via.as_str());
                    let item = Impacted { node, via, depth: d, impact_radius: radius, lines, fix };
                    proof {
                        assert(item.fix@ =~= fix_spec(item.via@, item.node@, item.lines@));
                        assert(rel(p as int, v as int));
                        match direction {
                            Direction::Inbound => {
                                assert(graph_rel(g, true)(p as int, v as int));
                                assert(g_edge(g, v as int, p as int));
                            },
                            _ => {},
                        }
                        assert(lines_ok(g, direction, v as int, p as int, item.lines@));
                        assert(reached_entry(g, seeds@, direction, max_depth, item, v as int, p as int));
                    }
                    let ghost before = out@;
                    out.push(item);
                    proof {
                        idx = idx.push(v as int);
                        assert(reports_reached(g, seeds@, direction, max_depth, out@[before.len() as int]));
                        assert forall|q: int| 0 <= q < out@.len() implies #[trigger] reports_reached(
                            g,
                            seeds@,
                            direction,
                            max_depth,
                            out@[q],
                        ) by {
                            if q < before.len() {
                                assert(out@[q] == before[q]);
                            }
                        }
                        assert(entries_ok(g, seeds@, direction, max_depth, out@));
                        assert forall|q: int| 0 <= q < out@.len() implies #[trigger] out@[q].node@ == g.nodes@[idx[q]].path@ by {
                            if q < before.len() {
                                assert(out@[q] == before[q]);
                            }
                        }
                        assert forall|w: int|
                            0 <= w < v + 1 && (match #[trigger] dist@[w] {
                                Some(d) => d >= 1,
                                None => false,
                            }) implies exists|q: int| 0 <= q < out@.len() && #[trigger] out@[q].node@ == g.nodes@[w].path@ by {
                            if w < v {
                                let q = choose|q: int| 0 <= q < before.len() && #[trigger] before[q].node@ == g.nodes@[w].path@;
                                assert(out@[q] == before[q]);
                            } else {
                                assert(out@[before.len() as int].node@ == g.nodes@[w].path@);
                            }
                        }
                    }
                }
            },
            None => {},
        }
        v = v + 1;
    }
    proof {
        assert forall|x: int, d: nat|
            0 <= x < n && 1 <= d && allowed(d, max_depth) && #[trigger] at_level(rel, s, x, d) implies exists|q: int|
                0 <= q < out@.len() && #[trigger] out@[q].node@ == g.nodes@[x].path@ by {
            match dist@[x] {
                Some(e) => {
                    lemma_level_unique(rel, s, x, d, e as nat);
                },
                None => {
                    assert(!within(rel, s, x, d));
                },
            }
        }
        assert forall|q: int, t: int| 0 <= q < t < out@.len() implies seq_lt(#[trigger] out@[q].node@, #[trigger] out@[t].node@) by {
            assert(idx[q] < idx[t]);
            assert(sorted_nodes(g.nodes@));
            assert(seq_lt(g.nodes@[idx[q]].path@, g.nodes@[idx[t]].path@));
        }
    }
    out
}

} // verus!
