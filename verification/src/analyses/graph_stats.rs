//! Whole-graph statistics over the included nodes: how many there are, how
//! many edges join them, and — when every one reaches every other — the
//! longest and the total shortest distance between them. Density and the
//! average path length are the ratios of these counts.

use vstd::prelude::*;
use crate::analyses::{included_below, included_indices, lemma_included_below};
use crate::graph::Graph;
use crate::reach::{
    lemma_level_lt, lemma_within_zero, adj_ok, at_level, bfs, bfs_post, edge, lemma_bfs_reachable, lemma_level_unique, reachable, single,
    single_source,
};
use crate::structure::{edge_ends, incl_adj, incl_rel, opt_int};

verus! {

/// The integer statistics of a graph.
#[derive(Debug, Clone, Copy)]
pub struct PathStats {
    /// The number of included nodes.
    pub node_count: usize,
    /// The number of edges whose target is an included node.
    pub edge_count: usize,
    /// The longest shortest distance between two included nodes, when every
    /// included node reaches every other (0 with fewer than two nodes).
    pub diameter: Option<usize>,
    /// The sum of the shortest distances over all ordered pairs of distinct
    /// included nodes, under the same condition.
    pub total_path_length: Option<u128>,
    /// The number of ordered pairs of distinct included nodes.
    pub pair_count: u64,
}

/// The graph-statistics analysis.
pub struct GraphStats;

/// The shortest distance from `u` to `v` along edges between included nodes.
pub open spec fn sdist(g: Graph, u: int, v: int) -> nat {
    choose|d: nat| at_level(incl_rel(g, false), single(g.nodes@.len(), u), v, d)
}

/// Whether `u` reaches `v` along edges between included nodes.
pub open spec fn links_to(g: Graph, u: int, v: int) -> bool {
    reachable(incl_rel(g, false), single(g.nodes@.len(), u), v)
}

/// Whether the pair `(u, v)` is an ordered pair of distinct included nodes.
pub open spec fn pair(g: Graph, u: int, v: int) -> bool {
    0 <= u < g.nodes@.len() && 0 <= v < g.nodes@.len() && u != v && g.nodes@[u].included && g.nodes@[v].included
}

/// Whether every included node reaches every other.
pub open spec fn all_linked(g: Graph) -> bool {
    forall|u: int, v: int| #[trigger] pair(g, u, v) ==> links_to(g, u, v)
}

/// The sum of `u`'s distances to the included nodes below `m` other than `u`.
pub open spec fn row_total(g: Graph, u: int, m: int) -> nat
    decreases m,
{
    if m <= 0 {
        0
    } else {
        row_total(g, u, m - 1) + if pair(g, u, m - 1) {
            sdist(g, u, m - 1)
        } else {
            0
        }
    }
}

/// The sum of the distances from the included nodes below `m`.
pub open spec fn grand_total(g: Graph, m: int) -> nat
    decreases m,
{
    if m <= 0 {
        0
    } else {
        grand_total(g, m - 1) + if g.nodes@[m - 1].included {
            row_total(g, m - 1, g.nodes@.len() as int)
        } else {
            0
        }
    }
}

/// The number of edges among the first `m` whose target is an included node.
pub open spec fn internal_edges(g: Graph, m: int) -> nat
    decreases m,
{
    if m <= 0 {
        0
    } else {
        internal_edges(g, m - 1) + match g.tgt_of(m - 1) {
            Some(t) => if g.nodes@[t].included {
                1nat
            } else {
                0nat
            },
            None => 0nat,
        }
    }
}

/// What the analysis reports.
pub open spec fn stats_spec(g: Graph, r: PathStats) -> bool {
    let n = included_indices(g).len();
    &&& r.node_count == n
    &&& r.edge_count == internal_edges(g, g.edges@.len() as int)
    &&& r.pair_count == n * (n - 1)
    &&& n <= 1 ==> r.diameter == Some(0usize) && r.total_path_length == Some(0u128)
    &&& n > 1 ==> (r.diameter is Some <==> all_linked(g))
    &&& n > 1 ==> (r.total_path_length is Some <==> all_linked(g))
    &&& r.total_path_length matches Some(t) ==> n <= 1 || t == grand_total(g, g.nodes@.len() as int)
    &&& r.diameter matches Some(dm) ==> n <= 1 || ((forall|u: int, v: int| #[trigger] pair(g, u, v) ==> sdist(g, u, v) <= dm)
        && exists|u: int, v: int| #[trigger] pair(g, u, v) && sdist(g, u, v) == dm)
}

proof fn lemma_included_count(g: Graph, m: int)
    requires
        0 <= m <= g.nodes@.len(),
    ensures
        included_below(g, m).len() <= m,
    decreases m,
{
    if m > 0 {
        lemma_included_count(g, m - 1);
    }
}

proof fn lemma_row_total_bound(g: Graph, u: int, m: int)
    requires
        0 <= m <= g.nodes@.len(),
        forall|v: int| 0 <= v < m && #[trigger] pair(g, u, v) ==> sdist(g, u, v) <= g.nodes@.len(),
    ensures
        row_total(g, u, m) <= m * g.nodes@.len(),
    decreases m,
{
    if m > 0 {
        lemma_row_total_bound(g, u, m - 1);
        assert((m - 1) * g.nodes@.len() + g.nodes@.len() == m * g.nodes@.len()) by (nonlinear_arith);
    }
}

/// Every distance is below the number of nodes.
proof fn lemma_sdist_bound(g: Graph, u: int, v: int, d: nat)
    requires
        0 <= u < g.nodes@.len(),
        at_level(incl_rel(g, false), single(g.nodes@.len(), u), v, d),
        d <= g.nodes@.len(),
    ensures
        sdist(g, u, v) == d,
{
    let e = sdist(g, u, v);
    lemma_level_unique(incl_rel(g, false), single(g.nodes@.len(), u), v, d, e);
}

/// With two included nodes there is a pair of them.
proof fn lemma_two_included(g: Graph)
    requires
        included_indices(g).len() > 1,
    ensures
        exists|u: int, v: int| #[trigger] pair(g, u, v),
{
    let ii = included_indices(g);
    lemma_included_below(g, g.nodes@.len() as int);
    assert(ii[0] < ii[1]);
    assert(pair(g, ii[0], ii[1]));
}

/// Distinct linked nodes are at least one step apart.
proof fn lemma_positive_distance(g: Graph, u: int, v: int)
    requires
        pair(g, u, v),
        links_to(g, u, v),
    ensures
        sdist(g, u, v) >= 1,
{
    let rel = incl_rel(g, false);
    let s = single(g.nodes@.len(), u);
    let k = choose|k: nat| crate::reach::within(rel, s, v, k);
    let d = crate::reach::lemma_has_level(rel, s, v, k);
    let e = sdist(g, u, v);
    lemma_level_unique(rel, s, v, d, e);
    if e == 0 {
        lemma_within_zero(rel, s, v);
    }
}

impl GraphStats {
    /// The analysis name.
    pub fn name(&self) -> (r: &'static str)
        ensures
            r@ == "graph-stats"@,
    {
        "graph-stats"
    }

    /// Count the included nodes and the edges into them; when there are at
    /// least two and each reaches every other along those edges, also the
    /// greatest and the total shortest distance over all ordered pairs.
    pub fn run(&self, graph: &Graph) -> (r: PathStats)
        requires
            graph.wf(),
            graph.nodes@.len() <= 4294967295,
        ensures
            stats_spec(*graph, r),
    {
        let n = graph.nodes.len();
        let ghost g = *graph;
        // Included nodes.
        let mut count: usize = 0;
        let mut i: usize = 0;
        while i < n
            invariant
                i <= n,
                n == g.nodes@.len(),
                g == *graph,
                count == included_below(g, i as int).len(),
                count <= i,
            decreases n - i,
        {
            if graph.nodes[i].included {
                count = count + 1;
            }
            i = i + 1;
        }
        assert(included_below(g, n as int) == included_indices(g));
        // Edges into included nodes.
        let ends = edge_ends(graph);
        let mut edge_count: usize = 0;
        let mut k: usize = 0;
        while k < ends.len()
            invariant
                k <= ends@.len(),
                n == g.nodes@.len(),
                g == *graph,
                ends@.len() == g.edges@.len(),
                forall|q: int|
                    0 <= q < ends@.len() ==> (#[trigger] ends@[q]).0 == g.src_of(q) && opt_int(ends@[q].1)
                        == g.tgt_of(q),
                forall|q: int| 0 <= q < ends@.len() ==> match (#[trigger] ends@[q]).1 {
                    Some(t) => t < n,
                    None => true,
                },
                edge_count == internal_edges(g, k as int),
                edge_count <= k,
            decreases ends@.len() - k,
        {
            match ends[k].1 {
                Some(t) => {
                    if graph.nodes[t].included {
                        edge_count = edge_count + 1;
                    }
                },
                None => {},
            }
            k = k + 1;
        }
        let ghost cnt = count as int;
        assert(count <= 4294967295);
        let c64: u64 = count as u64;
        let m64: u64 = if count > 0 { (count - 1) as u64 } else { 0u64 };
        assert(c64 * m64 <= 4294967295 * 4294967295) by (nonlinear_arith)
            requires
                c64 <= 4294967295,
                m64 <= 4294967295,
        ;
        let pair_count: u64 = c64 * m64;
        assert(pair_count == cnt * (cnt - 1)) by (nonlinear_arith)
            requires
                pair_count == c64 * m64,
                c64 == cnt,
                m64 == (if cnt > 0 { cnt - 1 } else { 0 }),
                cnt >= 0,
        ;
        if count <= 1 {
            return PathStats { node_count: count, edge_count, diameter: Some(0), total_path_length: Some(0), pair_count };
        }
        let adj = incl_adj(graph, false);
        let ghost rel = incl_rel(g, false);
        let mut total: u128 = 0;
        let mut diam: usize = 0;
        let ghost mut witness: (int, int) = (0, 0);
        let mut u: usize = 0;
        while u < n
            invariant
                u <= n,
                n == g.nodes@.len(),
                n <= 4294967295,
                g == *graph,
                count == included_indices(g).len(),
                count > 1,
                adj@.len() == n,
                adj_ok(adj@),
                rel == incl_rel(g, false),
                forall|x: int, w: int| 0 <= x < adj@.len() ==> (#[trigger] rel(x, w) <==> edge(adj@, x, w)),
                forall|x: int, w: int| #[trigger] rel(x, w) ==> 0 <= x < adj@.len() && 0 <= w < adj@.len(),
                total == grand_total(g, u as int),
                total <= u * n * n,
                pair_count == count * (count - 1),
                edge_count == internal_edges(g, g.edges@.len() as int),
                forall|x: int, w: int| 0 <= x < u && #[trigger] pair(g, x, w) ==> links_to(g, x, w) && sdist(g, x, w) <= diam,
                diam > 0 ==> pair(g, witness.0, witness.1) && sdist(g, witness.0, witness.1) == diam,
            decreases n - u,
        {
            proof {
                assert(u * n * n <= (u + 1) * n * n) by (nonlinear_arith);
            }
            if graph.nodes[u].included {
                let src = single_source(n, u);
                let (dist, prev) = bfs(&adj, &src, None, Ghost(rel));
                let ghost s = src@;
                let mut row: u64 = 0;
                let mut v: usize = 0;
                while v < n
                    invariant
                        v <= n,
                        u < n,
                        n == g.nodes@.len(),
                        n <= 4294967295,
                        g == *graph,
                        g.nodes@[u as int].included,
                        rel == incl_rel(g, false),
                        s == single(n as nat, u as int),
                        bfs_post(rel, s, None, dist@, prev@),
                        row == row_total(g, u as int, v as int),
                        row <= v * n,
                        count == included_indices(g).len(),
                        count > 1,
                        pair_count == count * (count - 1),
                        edge_count == internal_edges(g, g.edges@.len() as int),
                        total == grand_total(g, u as int),
                        total <= u * n * n,
                        forall|x: int, w: int| 0 <= x < u && #[trigger] pair(g, x, w) ==> links_to(g, x, w) && sdist(g, x, w) <= diam,
                        forall|w: int| 0 <= w < v && #[trigger] pair(g, u as int, w) ==> links_to(g, u as int, w) && sdist(g, u as int, w) <= diam,
                        diam > 0 ==> pair(g, witness.0, witness.1) && sdist(g, witness.0, witness.1) == diam,
                    decreases n - v,
                {
                    proof {
                        lemma_bfs_reachable(rel, s, dist@, prev@, v as int);
                        assert(v * n <= (v + 1) * n) by (nonlinear_arith);
                    }
                    if v != u && graph.nodes[v].included {
                        match dist[v] {
                            None => {
                                proof {
                                    assert(pair(g, u as int, v as int) && !links_to(g, u as int, v as int));
                                    assert(!all_linked(g));
                                }
                                return PathStats { node_count: count, edge_count, diameter: None, total_path_length: None, pair_count };
                            },
                            Some(d) => {
                                proof {
                                    assert(at_level(rel, s, v as int, d as nat));
                                    assert(d <= n) by {
                                        lemma_level_lt(rel, s, v as int, d as nat);
                                    }
                                    lemma_sdist_bound(g, u as int, v as int, d as nat);
                                    assert(row + d <= (v + 1) * n) by (nonlinear_arith)
                                        requires
                                            row <= v * n,
                                            d <= n,
                                    ;
                                    assert((v + 1) * n <= 4294967295 * 4294967295) by (nonlinear_arith)
                                        requires
                                            v < n,
                                            n <= 4294967295,
                                    ;
                                }
                                row = row + d as u64;
                                if d > diam {
                                    diam = d;
                                    proof {
                                        witness = (u as int, v as int);
                                    }
                                }
                            },
                        }
                    }
                    v = v + 1;
                }
                proof {
                    assert(row <= n * n) by (nonlinear_arith)
                        requires
                            row <= v * n,
                            v == n,
                    ;
                    assert(total + row <= (u + 1) * n * n) by (nonlinear_arith)
                        requires
                            total <= u * n * n,
                            row <= n * n,
                    ;
                    assert((u + 1) * n * n <= 4294967296 * 4294967295 * 4294967295) by (nonlinear_arith)
                        requires
                            u < n,
                            n <= 4294967295,
                    ;
                }
                total = total + row as u128;
            }
            u = u + 1;
        }
        proof {
            assert forall|x: int, w: int| #[trigger] pair(g, x, w) implies links_to(g, x, w) by {}
            if diam == 0 {
                // Two distinct included nodes exist and every distance is 0,
                // which only a node and itself have; so some distance is positive.
                lemma_two_included(g);
                let (x, w) = choose|x: int, w: int| #[trigger] pair(g, x, w);
                lemma_positive_distance(g, x, w);
            }
        }
        PathStats { node_count: count, edge_count, diameter: Some(diam), total_path_length: Some(total), pair_count }
    }
}

} // verus!
