//! Edges implied by a longer path: an edge `s → t` is redundant when `t` is
//! still reachable from `s` without it.

use vstd::prelude::*;
use crate::graph::Graph;
use crate::reach::{
    at_level, bfs, bfs_post, is_walk, lemma_bfs_reachable, lemma_within_zero, reachable, single,
    single_source, within,
};
use crate::sort::{sort_by_key, sorted_by_key};
use crate::structure::{adj_from_pairs, edge_ends, graph_pairs, graph_rel, has_pair, opt_int};

verus! {

/// A redundant edge and the first node on a path that makes it redundant.
#[derive(Debug, Clone)]
pub struct RedundantEdge {
    pub source: String,
    pub target: String,
    pub via: String,
}

/// The redundant edges, ordered by source then target.
#[derive(Debug, Clone)]
pub struct TransitiveReductionResult {
    pub redundant_edges: Vec<RedundantEdge>,
}

/// The transitive-reduction analysis.
pub struct TransitiveReduction;

/// The graph's edges without the direct step from `s` to `t`.
pub open spec fn skip_rel(g: Graph, s: int, t: int) -> spec_fn(int, int) -> bool {
    |x: int, y: int| graph_rel(g, false)(x, y) && !(x == s && y == t)
}

/// Whether edge `k` joins two distinct nodes and its target stays reachable
/// from its source without any direct step between them.
pub open spec fn is_redundant(g: Graph, k: int) -> bool {
    match g.tgt_of(k) {
        Some(t) => g.src_of(k) != t && reachable(
            skip_rel(g, g.src_of(k), t),
            single(g.nodes@.len(), g.src_of(k)),
            t,
        ),
        None => false,
    }
}

/// The redundant edges among the first `m`, as `(source, target, edge)`
/// index triples in edge order.
pub open spec fn redundant_rows(g: Graph, m: nat) -> Seq<(usize, usize, usize)>
    decreases m,
{
    if m == 0 {
        Seq::empty()
    } else if is_redundant(g, m - 1) {
        redundant_rows(g, (m - 1) as nat).push(
            (g.src_of(m - 1) as usize, g.tgt_of(m - 1)->Some_0 as usize, (m - 1) as usize),
        )
    } else {
        redundant_rows(g, (m - 1) as nat)
    }
}

/// Whether `v` is a successor of `s` (other than by the skipped step) from
/// which `t` is reachable without that step.
pub open spec fn via_ok(g: Graph, s: int, t: int, v: int) -> bool {
    &&& at_level(skip_rel(g, s, t), single(g.nodes@.len(), s), v, 1)
    &&& reachable(skip_rel(g, s, t), single(g.nodes@.len(), v), t)
}

/// Whether a reported row matches an index triple.
pub open spec fn row_matches(g: Graph, e: RedundantEdge, row: (usize, usize, usize)) -> bool {
    &&& e.source@ == g.nodes@[row.0 as int].path@
    &&& e.target@ == g.nodes@[row.1 as int].path@
    &&& exists|v: int| 0 <= v < g.nodes@.len() && via_ok(g, row.0 as int, row.1 as int, v) && e.via@ == g.nodes@[v].path@
}

/// `pairs` without any `(s, t)`.
fn pairs_without(pairs: &Vec<(usize, usize)>, s: usize, t: usize, n: usize) -> (r: Vec<(usize, usize)>)
    requires
        forall|q: int| 0 <= q < pairs@.len() ==> (#[trigger] pairs@[q]).0 < n && pairs@[q].1 < n,
    ensures
        forall|q: int| 0 <= q < r@.len() ==> (#[trigger] r@[q]).0 < n && r@[q].1 < n,
        forall|u: int, v: int| has_pair(r@, u, v) <==> (has_pair(pairs@, u, v) && !(u == s && v == t)),
{
    let mut r: Vec<(usize, usize)> = Vec::new();
    let mut q: usize = 0;
    while q < pairs.len()
        invariant
            q <= pairs@.len(),
            forall|i: int| 0 <= i < pairs@.len() ==> (#[trigger] pairs@[i]).0 < n && pairs@[i].1 < n,
            forall|i: int| 0 <= i < r@.len() ==> (#[trigger] r@[i]).0 < n && r@[i].1 < n,
            forall|u: int, v: int| has_pair(r@, u, v) <==> (has_pair(pairs@.subrange(0, q as int), u, v) && !(u == s && v == t)),
        decreases pairs@.len() - q,
    {
        let (a, b) = pairs[q];
        let ghost before = r@;
        if !(a == s && b == t) {
            r.push((a, b));
        }
        proof {
            let pre = pairs@.subrange(0, q as int);
            let post = pairs@.subrange(0, q + 1);
            assert(post =~= pre.push((a, b)));
            assert forall|u: int, v: int| has_pair(r@, u, v) <==> (has_pair(post, u, v) && !(u == s && v == t)) by {
                if has_pair(r@, u, v) {
                    let i = choose|i: int| 0 <= i < r@.len() && (#[trigger] r@[i]).0 == u && r@[i].1 == v;
                    if i < before.len() {
                        assert(has_pair(before, u, v));
                        let j = choose|j: int| 0 <= j < pre.len() && (#[trigger] pre[j]).0 == u && pre[j].1 == v;
                        assert(post[j] == pre[j]);
                    } else {
                        assert(post[q as int] == (a, b));
                    }
                }
                if has_pair(post, u, v) && !(u == s && v == t) {
                    let j = choose|j: int| 0 <= j < post.len() && (#[trigger] post[j]).0 == u && post[j].1 == v;
                    if j < q {
                        assert(pre[j] == post[j]);
                        assert(has_pair(pre, u, v));
                        assert(has_pair(before, u, v));
                        let i = choose|i: int| 0 <= i < before.len() && (#[trigger] before[i]).0 == u && before[i].1 == v;
                        assert(r@[i] == before[i]);
                    } else {
                        assert(r@[before.len() as int] == (a, b));
                    }
                }
            }
        }
        q = q + 1;
    }
    assert(pairs@.subrange(0, pairs@.len() as int) =~= pairs@);
    r
}

/// Walk the search tree back from `t` to the vertex at distance one.
fn first_hop(
    dist: &Vec<Option<usize>>,
    prev: &Vec<usize>,
    t: usize,
    Ghost(rel): Ghost<spec_fn(int, int) -> bool>,
    Ghost(src): Ghost<Seq<bool>>,
    Ghost(n): Ghost<nat>,
) -> (v: usize)
    requires
        bfs_post(rel, src, None, dist@, prev@),
        src.len() == n,
        t < n,
        dist@[t as int] matches Some(d) && d >= 1,
    ensures
        v < n,
        at_level(rel, src, v as int, 1),
        reachable(rel, single(n, v as int), t as int),
{
    let mut x = t;
    let ghost mut p: Seq<int> = seq![t as int];
    proof {
        lemma_bfs_reachable(rel, src, dist@, prev@, t as int);
    }
    loop
        invariant
            bfs_post(rel, src, None, dist@, prev@),
            src.len() == n,
            x < n,
            dist@[x as int] matches Some(d) && d >= 1,
            p.len() > 0,
            p[0] == x as int,
            p.last() == t as int,
            forall|i: int| 0 <= i < p.len() - 1 ==> #[trigger] rel(p[i], p[i + 1]),
        ensures
            x < n,
            dist@[x as int] == Some(1usize),
            p.len() > 0,
            p[0] == x as int,
            p.last() == t as int,
            forall|i: int| 0 <= i < p.len() - 1 ==> #[trigger] rel(p[i], p[i + 1]),
        decreases dist@[x as int]->Some_0,
    {
        let d = match dist[x] {
            Some(d) => d,
            None => 0,
        };
        if d <= 1 {
            break;
        }
        let y = prev[x];
        proof {
            assert(at_level(rel, src, y as int, (d - 1) as nat));
            lemma_bfs_reachable(rel, src, dist@, prev@, y as int);
            let q = seq![y as int] + p;
            assert forall|i: int| 0 <= i < q.len() - 1 implies #[trigger] rel(q[i], q[i + 1]) by {
                if i > 0 {
                    assert(q[i] == p[i - 1] && q[i + 1] == p[(i - 1) + 1]);
                    assert(rel(p[i - 1], p[(i - 1) + 1]));
                }
            }
            p = q;
        }
        x = y;
    }
    proof {
        lemma_bfs_reachable(rel, src, dist@, prev@, x as int);
        assert(at_level(rel, src, x as int, 1));
        assert(is_walk(rel, single(n, x as int), p, t as int));
        assert(within(rel, single(n, x as int), t as int, (p.len() - 1) as nat));
    }
    x
}

impl TransitiveReduction {
    /// The analysis name.
    pub fn name(&self) -> (r: &'static str)
        ensures
            r@ == "transitive-reduction"@,
    {
        "transitive-reduction"
    }

    /// Every edge between two distinct nodes whose target stays reachable
    /// from its source without the direct step, with a first node on such a
    /// path, ordered by source then target (parallel edges each appear).
    pub fn run(&self, graph: &Graph) -> (r: TransitiveReductionResult)
        requires
            graph.wf(),
        ensures
            exists|rows: Seq<(usize, usize, usize)>|
                {
                    &&& rows.len() == r.redundant_edges@.len()
                    &&& sorted_by_key(rows)
                    &&& rows.to_multiset() == redundant_rows(*graph, graph.edges@.len()).to_multiset()
                    &&& forall|q: int| 0 <= q < rows.len() ==> row_matches(*graph, #[trigger] r.redundant_edges@[q], rows[q])
                },
    {
        let n = graph.nodes.len();
        let ends = edge_ends(graph);
        let pairs = graph_pairs(graph, false);
        let m = ends.len();
        let mut rows: Vec<(usize, usize, usize)> = Vec::new();
        let mut vias: Vec<usize> = Vec::new();
        let mut k: usize = 0;
        while k < m
            invariant
                k <= m,
                m == graph.edges@.len(),
                n == graph.nodes@.len(),
                graph.wf(),
                ends@.len() == m,
                forall|q: int|
                    0 <= q < m ==> (#[trigger] ends@[q]).0 == graph.src_of(q) && opt_int(ends@[q].1)
                        == graph.tgt_of(q),
                forall|q: int| 0 <= q < m ==> (#[trigger] ends@[q]).0 < n,
                forall|q: int| 0 <= q < m ==> match (#[trigger] ends@[q]).1 {
                    Some(t) => t < n,
                    None => true,
                },
                forall|q: int| 0 <= q < pairs@.len() ==> (#[trigger] pairs@[q]).0 < n && pairs@[q].1 < n,
                forall|u: int, v: int| 0 <= u < n ==> (has_pair(pairs@, u, v) <==> #[trigger] graph_rel(*graph, false)(u, v)),
                rows@ == redundant_rows(*graph, k as nat),
                vias@.len() == k,
                forall|q: int| 0 <= q < rows@.len() ==> (#[trigger] rows@[q]).2 < k && rows@[q].0 < n && rows@[q].1 < n,
                forall|q: int| 0 <= q < rows@.len() ==> {
                    let row = #[trigger] rows@[q];
                    vias@[row.2 as int] < n && via_ok(*graph, row.0 as int, row.1 as int, vias@[row.2 as int] as int)
                },
            decreases m - k,
        {
            let (s, t) = ends[k];
            let mut via: usize = 0;
            let ghost before = rows@;
            match t {
                Some(tv) => {
                    if s != tv {
                        let p2 = pairs_without(&pairs, s, tv, n);
                        let adj = adj_from_pairs(n, &p2);
                        let src = single_source(n, s);
                        let ghost rel = skip_rel(*graph, s as int, tv as int);
                        proof {
                            assert forall|u: int, v: int| 0 <= u < adj@.len() implies (#[trigger] rel(u, v) <==> crate::reach::edge(adj@, u, v)) by {
                                assert(has_pair(p2@, u, v) <==> (has_pair(pairs@, u, v) && !(u == s && v == tv)));
                            }
                            assert forall|u: int, v: int| #[trigger] rel(u, v) implies 0 <= u < adj@.len() && 0 <= v < adj@.len() by {}
                        }
                        let (dist, prev) = bfs(&adj, &src, None, Ghost(rel));
                        proof {
                            lemma_bfs_reachable(rel, src@, dist@, prev@, tv as int);
                        }
                        match dist[tv] {
                            Some(d) => {
                                proof {
                                    if d == 0 {
                                        lemma_within_zero(rel, src@, tv as int);
                                    }
                                }
                                via = first_hop(&dist, &prev, tv, Ghost(rel), Ghost(src@), Ghost(n as nat));
                                rows.push((s, tv, k));
                            },
                            None => {},
                        }
                    }
                },
                None => {},
            }
            vias.push(via);
            proof {
                assert(rows@ == redundant_rows(*graph, (k + 1) as nat));
                assert forall|q: int| 0 <= q < rows@.len() implies {
                    let row = #[trigger] rows@[q];
                    vias@[row.2 as int] < n && via_ok(*graph, row.0 as int, row.1 as int, vias@[row.2 as int] as int)
                } by {
                    if q < before.len() {
                        assert(rows@[q] == before[q]);
                    }
                }
            }
            k = k + 1;
        }
        let sorted = sort_by_key(&rows);
        let mut out: Vec<RedundantEdge> = Vec::new();
        let mut q: usize = 0;
        while q < sorted.len()
            invariant
                q <= sorted@.len(),
                n == graph.nodes@.len(),
                m == graph.edges@.len(),
                vias@.len() == m,
                sorted@.to_multiset() == rows@.to_multiset(),
                forall|i: int| 0 <= i < rows@.len() ==> (#[trigger] rows@[i]).2 < m && rows@[i].0 < n && rows@[i].1 < n,
                forall|i: int| 0 <= i < rows@.len() ==> {
                    let row = #[trigger] rows@[i];
                    vias@[row.2 as int] < n && via_ok(*graph, row.0 as int, row.1 as int, vias@[row.2 as int] as int)
                },
                out@.len() == q,
                forall|i: int| 0 <= i < q ==> row_matches(*graph, #[trigger] out@[i], sorted@[i]),
            decreases sorted@.len() - q,
        {
            let row = sorted[q];
            proof {
                vstd::seq_lib::to_multiset_contains(sorted@, row);
                assert(sorted@.to_multiset().count(row) > 0);
                vstd::seq_lib::to_multiset_contains(rows@, row);
                let i = choose|i: int| 0 <= i < rows@.len() && rows@[i] == row;
                assert(rows@[i] == row);
            }
            let v = vias[row.2];
            out.push(RedundantEdge {
                source: graph.nodes[row.0].path.clone(),
                target: graph.nodes[row.1].path.clone(),
                via: graph.nodes[v].path.clone(),
            });
            q = q + 1;
        }
        TransitiveReductionResult { redundant_edges: out }
    }
}

} // verus!
