//! The graph read as indices: edge endpoints by node index, adjacency lists
//! built from pairs, and the facts that tie them back to the graph.

use vstd::prelude::*;
use crate::graph::{has_path, lemma_index_unique, Graph};
use crate::reach::edge;

verus! {

/// An optional index, widened.
pub open spec fn opt_int(o: Option<usize>) -> Option<int> {
    match o {
        Some(i) => Some(i as int),
        None => None,
    }
}

/// Every edge's endpoints as node indices: the source's index, and the
/// target's when it names a node.
pub fn edge_ends(g: &Graph) -> (r: Vec<(usize, Option<usize>)>)
    requires
        g.wf(),
    ensures
        r@.len() == g.edges@.len(),
        forall|k: int|
            0 <= k < r@.len() ==> (#[trigger] r@[k]).0 == g.src_of(k) && opt_int(r@[k].1) == g.tgt_of(k),
        forall|k: int| 0 <= k < r@.len() ==> (#[trigger] r@[k]).0 < g.nodes@.len(),
        forall|k: int| 0 <= k < r@.len() ==> match (#[trigger] r@[k]).1 {
            Some(t) => t < g.nodes@.len(),
            None => true,
        },
{
    let mut out: Vec<(usize, Option<usize>)> = Vec::new();
    let mut k: usize = 0;
    while k < g.edges.len()
        invariant
            k <= g.edges@.len(),
            g.wf(),
            out@.len() == k,
            forall|q: int|
                0 <= q < k ==> (#[trigger] out@[q]).0 == g.src_of(q) && opt_int(out@[q].1) == g.tgt_of(q),
            forall|q: int| 0 <= q < k ==> (#[trigger] out@[q]).0 < g.nodes@.len(),
            forall|q: int| 0 <= q < k ==> match (#[trigger] out@[q]).1 {
                Some(t) => t < g.nodes@.len(),
                None => true,
            },
        decreases g.edges@.len() - k,
    {
        let e = &g.edges[k];
        let s = g.index_of(e.source.as_str());
        let t = g.index_of(e.target.as_str());
        proof {
            assert(exists|i: int| #[trigger] has_path(g.nodes@, i, g.edges@[k as int].source@) && g.nodes@[i].included);
        }
        match s {
            Some(si) => {
                proof {
                    lemma_index_unique(g.nodes@, si as int, e.source@);
                    let c = g.src_of(k as int);
                    lemma_index_unique(g.nodes@, c, e.source@);
                    match t {
                        Some(ti) => lemma_index_unique(g.nodes@, ti as int, e.target@),
                        None => {},
                    }
                }
                out.push((si, t));
            },
            None => {
                proof {
                    let c = choose|i: int| #[trigger] has_path(g.nodes@, i, g.edges@[k as int].source@) && g.nodes@[i].included;
                    assert(has_path(g.nodes@, c, e.source@));
                }
                out.push((0, t));
            },
        }
        k = k + 1;
    }
    out
}

/// Whether `(u, v)` occurs in `pairs`.
pub open spec fn has_pair(pairs: Seq<(usize, usize)>, u: int, v: int) -> bool {
    exists|q: int| 0 <= q < pairs.len() && (#[trigger] pairs[q]).0 == u && pairs[q].1 == v
}

/// Adjacency lists over `n` vertices holding exactly the pairs given.
pub fn adj_from_pairs(n: usize, pairs: &Vec<(usize, usize)>) -> (adj: Vec<Vec<usize>>)
    requires
        forall|q: int| 0 <= q < pairs@.len() ==> (#[trigger] pairs@[q]).0 < n && pairs@[q].1 < n,
    ensures
        adj@.len() == n,
        crate::reach::adj_ok(adj@),
        forall|u: int, v: int| 0 <= u < n ==> (edge(adj@, u, v) <==> has_pair(pairs@, u, v)),
{
    let mut adj: Vec<Vec<usize>> = Vec::new();
    let mut i: usize = 0;
    while i < n
        invariant
            i <= n,
            adj@.len() == i,
            forall|u: int| 0 <= u < i ==> (#[trigger] adj@[u])@.len() == 0,
        decreases n - i,
    {
        adj.push(Vec::new());
        i = i + 1;
    }
    let mut q: usize = 0;
    while q < pairs.len()
        invariant
            q <= pairs@.len(),
            adj@.len() == n,
            forall|r: int| 0 <= r < pairs@.len() ==> (#[trigger] pairs@[r]).0 < n && pairs@[r].1 < n,
            crate::reach::adj_ok(adj@),
            forall|u: int, v: int| 0 <= u < n ==> (edge(adj@, u, v) <==> has_pair(pairs@.subrange(0, q as int), u, v)),
        decreases pairs@.len() - q,
    {
        let (a, b) = pairs[q];
        let ghost before = adj@;
        adj[a].push(b);
        proof {
            assert(adj@[a as int]@ =~= before[a as int]@.push(b));
            assert(forall|u: int| 0 <= u < n && u != a ==> adj@[u] == before[u]);
            let pre = pairs@.subrange(0, q as int);
            let post = pairs@.subrange(0, q + 1);
            assert forall|u: int, v: int| 0 <= u < n && edge(adj@, u, v) implies has_pair(post, u, v) by {
                let j = choose|j: int| 0 <= j < adj@[u]@.len() && adj@[u]@[j] == v;
                if u == a && j == before[u]@.len() {
                    assert(v == b);
                    assert(post[q as int] == (a, b));
                } else {
                    assert(adj@[u]@[j] == before[u]@[j]);
                    assert(edge(before, u, v));
                    assert(edge(before, u, v) <==> has_pair(pre, u, v));
                    let r = choose|r: int| 0 <= r < pre.len() && (#[trigger] pre[r]).0 == u && pre[r].1 == v;
                    assert(post[r] == pre[r]);
                }
            }
            assert forall|u: int, v: int| 0 <= u < n && has_pair(post, u, v) implies edge(adj@, u, v) by {
                let r = choose|r: int| 0 <= r < post.len() && (#[trigger] post[r]).0 == u && post[r].1 == v;
                if r == q {
                    assert(u == a && v == b);
                    assert(adj@[u]@[before[u]@.len() as int] == b);
                } else {
                    assert(pre[r] == post[r]);
                    assert(has_pair(pre, u, v));
                    assert(edge(before, u, v) <==> has_pair(pre, u, v));
                    let j = choose|j: int| 0 <= j < before[u]@.len() && before[u]@[j] == v;
                    assert(adj@[u]@[j] == v);
                }
            }
            assert forall|u: int, j: int| 0 <= u < adj@.len() && 0 <= j < adj@[u]@.len() implies #[trigger] adj@[u]@[j] < adj@.len() by {
                if u == a && j == before[u]@.len() {
                } else {
                    assert(adj@[u]@[j] == before[u]@[j]);
                }
            }
        }
        q = q + 1;
    }
    assert(pairs@.subrange(0, pairs@.len() as int) =~= pairs@);
    adj
}


/// Whether some edge leads from node `u` to node `v`.
pub open spec fn g_edge(g: Graph, u: int, v: int) -> bool {
    exists|k: int| 0 <= k < g.edges@.len() && #[trigger] g.src_of(k) == u && g.tgt_of(k) == Some(v)
}

/// The graph's edges as a relation on node indices, forward or reversed.
pub open spec fn graph_rel(g: Graph, reverse: bool) -> spec_fn(int, int) -> bool {
    |x: int, y: int|
        0 <= x < g.nodes@.len() && 0 <= y < g.nodes@.len() && if reverse {
            g_edge(g, y, x)
        } else {
            g_edge(g, x, y)
        }
}

/// Every edge whose target names a node, as a pair of node indices, forward
/// or reversed.
pub fn graph_pairs(g: &Graph, reverse: bool) -> (pairs: Vec<(usize, usize)>)
    requires
        g.wf(),
    ensures
        forall|q: int| 0 <= q < pairs@.len() ==> (#[trigger] pairs@[q]).0 < g.nodes@.len() && pairs@[q].1 < g.nodes@.len(),
        forall|u: int, v: int| 0 <= u < g.nodes@.len() ==> (has_pair(pairs@, u, v) <==> #[trigger] graph_rel(*g, reverse)(u, v)),
{
    let n = g.nodes.len();
    let ends = edge_ends(g);
    let mut pairs: Vec<(usize, usize)> = Vec::new();
    let mut k: usize = 0;
    while k < ends.len()
        invariant
            k <= ends@.len(),
            ends@.len() == g.edges@.len(),
            n == g.nodes@.len(),
            forall|q: int|
                0 <= q < ends@.len() ==> (#[trigger] ends@[q]).0 == g.src_of(q) && opt_int(ends@[q].1)
                    == g.tgt_of(q),
            forall|q: int| 0 <= q < ends@.len() ==> (#[trigger] ends@[q]).0 < n,
            forall|q: int| 0 <= q < ends@.len() ==> match (#[trigger] ends@[q]).1 {
                Some(t) => t < n,
                None => true,
            },
            forall|q: int| 0 <= q < pairs@.len() ==> (#[trigger] pairs@[q]).0 < n && pairs@[q].1 < n,
            forall|u: int, v: int|
                has_pair(pairs@, u, v) <==> (exists|q: int|
                    0 <= q < k && #[trigger] g.src_of(q) == (if reverse {
                        v
                    } else {
                        u
                    }) && g.tgt_of(q) == Some(if reverse {
                        u
                    } else {
                        v
                    })),
        decreases ends@.len() - k,
    {
        let (a, b) = ends[k];
        let ghost before = pairs@;
        match b {
            Some(t) => {
                if reverse {
                    pairs.push((t, a));
                } else {
                    pairs.push((a, t));
                }
            },
            None => {},
        }
        proof {
            assert forall|u: int, v: int|
                has_pair(pairs@, u, v) <==> (exists|q: int|
                    0 <= q < k + 1 && #[trigger] g.src_of(q) == (if reverse {
                        v
                    } else {
                        u
                    }) && g.tgt_of(q) == Some(if reverse {
                        u
                    } else {
                        v
                    })) by {
                if has_pair(pairs@, u, v) {
                    let r = choose|r: int| 0 <= r < pairs@.len() && (#[trigger] pairs@[r]).0 == u && pairs@[r].1 == v;
                    if r < before.len() {
                        assert(has_pair(before, u, v));
                    } else {
                        assert(g.src_of(k as int) == (if reverse { v } else { u }));
                    }
                }
                if exists|q: int|
                    0 <= q < k + 1 && #[trigger] g.src_of(q) == (if reverse {
                        v
                    } else {
                        u
                    }) && g.tgt_of(q) == Some(if reverse {
                        u
                    } else {
                        v
                    }) {
                    let q = choose|q: int|
                        0 <= q < k + 1 && #[trigger] g.src_of(q) == (if reverse {
                            v
                        } else {
                            u
                        }) && g.tgt_of(q) == Some(if reverse {
                            u
                        } else {
                            v
                        });
                    if q < k {
                        assert(has_pair(before, u, v));
                        let r = choose|r: int| 0 <= r < before.len() && (#[trigger] before[r]).0 == u && before[r].1 == v;
                        assert(pairs@[r] == before[r]);
                    } else {
                        assert(pairs@[before.len() as int] == (u as usize, v as usize));
                    }
                }
            }
        }
        k = k + 1;
    }
    proof {
        assert forall|u: int, v: int| 0 <= u < g.nodes@.len() implies (has_pair(pairs@, u, v) <==> #[trigger] graph_rel(*g, reverse)(u, v)) by {
            if has_pair(pairs@, u, v) {
                let r = choose|r: int| 0 <= r < pairs@.len() && (#[trigger] pairs@[r]).0 == u && pairs@[r].1 == v;
            }
            if graph_rel(*g, reverse)(u, v) {
                if reverse {
                    let q = choose|q: int| 0 <= q < g.edges@.len() && #[trigger] g.src_of(q) == v && g.tgt_of(q) == Some(u);
                } else {
                    let q = choose|q: int| 0 <= q < g.edges@.len() && #[trigger] g.src_of(q) == u && g.tgt_of(q) == Some(v);
                }
            }
        }
    }
    pairs
}

/// Adjacency lists for every edge whose target names a node, forward or
/// reversed.
pub fn graph_adj(g: &Graph, reverse: bool) -> (adj: Vec<Vec<usize>>)
    requires
        g.wf(),
    ensures
        adj@.len() == g.nodes@.len(),
        crate::reach::adj_ok(adj@),
        forall|u: int, v: int|
            0 <= u < adj@.len() ==> (#[trigger] graph_rel(*g, reverse)(u, v) <==> edge(adj@, u, v)),
        forall|u: int, v: int|
            #[trigger] graph_rel(*g, reverse)(u, v) ==> 0 <= u < adj@.len() && 0 <= v < adj@.len(),
{
    let pairs = graph_pairs(g, reverse);
    adj_from_pairs(g.nodes.len(), &pairs)
}


/// Whether an edge `a → b` is kept in an undirected reading: its target is
/// included, and so is its source when `need_src`; self-loops are dropped
/// when `drop_loops`.
pub open spec fn keep_pair(g: Graph, a: int, b: int, need_src: bool, drop_loops: bool) -> bool {
    g.nodes@[b].included && (!need_src || g.nodes@[a].included) && (!drop_loops || a != b)
}

/// The kept edges read in both directions.
pub open spec fn sym_rel(g: Graph, need_src: bool, drop_loops: bool) -> spec_fn(int, int) -> bool {
    |x: int, y: int|
        0 <= x < g.nodes@.len() && 0 <= y < g.nodes@.len() && ((keep_pair(g, x, y, need_src, drop_loops)
            && g_edge(g, x, y)) || (keep_pair(g, y, x, need_src, drop_loops) && g_edge(g, y, x)))
}

/// Undirected adjacency lists over the kept edges.
pub fn sym_adj(g: &Graph, need_src: bool, drop_loops: bool) -> (adj: Vec<Vec<usize>>)
    requires
        g.wf(),
    ensures
        adj@.len() == g.nodes@.len(),
        crate::reach::adj_ok(adj@),
        forall|u: int, v: int|
            0 <= u < adj@.len() ==> (#[trigger] sym_rel(*g, need_src, drop_loops)(u, v) <==> edge(adj@, u, v)),
        forall|u: int, v: int|
            #[trigger] sym_rel(*g, need_src, drop_loops)(u, v) ==> 0 <= u < adj@.len() && 0 <= v < adj@.len(),
{
    let n = g.nodes.len();
    let pairs = graph_pairs(g, false);
    let mut out: Vec<(usize, usize)> = Vec::new();
    let mut q: usize = 0;
    while q < pairs.len()
        invariant
            q <= pairs@.len(),
            n == g.nodes@.len(),
            forall|i: int| 0 <= i < pairs@.len() ==> (#[trigger] pairs@[i]).0 < n && pairs@[i].1 < n,
            forall|i: int| 0 <= i < out@.len() ==> (#[trigger] out@[i]).0 < n && out@[i].1 < n,
            forall|x: int, y: int|
                #![trigger has_pair(out@, x, y)]
                has_pair(out@, x, y) <==> ((keep_pair(*g, x, y, need_src, drop_loops) && has_pair(
                    pairs@.subrange(0, q as int),
                    x,
                    y,
                )) || (keep_pair(*g, y, x, need_src, drop_loops) && has_pair(pairs@.subrange(0, q as int), y, x))),
        decreases pairs@.len() - q,
    {
        let (a, b) = pairs[q];
        let keep = g.nodes[b].included && (!need_src || g.nodes[a].included) && (!drop_loops || a != b);
        let ghost before = out@;
        let ghost post = pairs@.subrange(0, q + 1);
        if keep {
            out.push((a, b));
            out.push((b, a));
        }
        proof {
            assert(keep == keep_pair(*g, a as int, b as int, need_src, drop_loops));
            let pre = pairs@.subrange(0, q as int);
            assert(post =~= pre.push((a, b)));
            assert forall|x: int, y: int|
                has_pair(post, x, y) <==> (has_pair(pre, x, y) || (x == a && y == b)) by {
                if has_pair(post, x, y) {
                    let j = choose|j: int| 0 <= j < post.len() && (#[trigger] post[j]).0 == x && post[j].1 == y;
                    if j < q {
                        assert(pre[j] == post[j]);
                    }
                }
                if has_pair(pre, x, y) {
                    let j = choose|j: int| 0 <= j < pre.len() && (#[trigger] pre[j]).0 == x && pre[j].1 == y;
                    assert(post[j] == pre[j]);
                }
                if x == a && y == b {
                    assert(post[q as int] == (a, b));
                }
            }
            assert forall|x: int, y: int|
                has_pair(out@, x, y) <==> (has_pair(before, x, y) || (keep && ((x == a && y == b) || (x == b && y == a)))) by {
                if has_pair(out@, x, y) {
                    let j = choose|j: int| 0 <= j < out@.len() && (#[trigger] out@[j]).0 == x && out@[j].1 == y;
                    if j < before.len() {
                        assert(out@[j] == before[j]);
                    }
                }
                if has_pair(before, x, y) {
                    let j = choose|j: int| 0 <= j < before.len() && (#[trigger] before[j]).0 == x && before[j].1 == y;
                    assert(out@[j] == before[j]);
                }
                if keep && x == a && y == b {
                    assert(out@[before.len() as int] == (a, b));
                }
                if keep && x == b && y == a {
                    assert(out@[before.len() as int + 1] == (b, a));
                }
            }
            assert forall|x: int, y: int|
                #![trigger has_pair(out@, x, y)]
                has_pair(out@, x, y) <==> ((keep_pair(*g, x, y, need_src, drop_loops) && has_pair(post, x, y))
                    || (keep_pair(*g, y, x, need_src, drop_loops) && has_pair(post, y, x))) by {
                assert(has_pair(post, x, y) <==> (has_pair(pre, x, y) || (x == a && y == b)));
                assert(has_pair(post, y, x) <==> (has_pair(pre, y, x) || (y == a && x == b)));
                assert(has_pair(before, x, y) <==> ((keep_pair(*g, x, y, need_src, drop_loops) && has_pair(pre, x, y))
                    || (keep_pair(*g, y, x, need_src, drop_loops) && has_pair(pre, y, x))));
            }
        }
        q = q + 1;
        assert(pairs@.subrange(0, q as int) == post);
    }
    assert(pairs@.subrange(0, pairs@.len() as int) =~= pairs@);
    let adj = adj_from_pairs(n, &out);
    proof {
        assert forall|u: int, v: int|
            0 <= u < adj@.len() implies (#[trigger] sym_rel(*g, need_src, drop_loops)(u, v) <==> edge(adj@, u, v)) by {
            if 0 <= v < n {
                assert(has_pair(pairs@, u, v) <==> graph_rel(*g, false)(u, v));
                assert(has_pair(pairs@, v, u) <==> graph_rel(*g, false)(v, u));
            } else {
                if has_pair(out@, u, v) {
                    let j = choose|j: int| 0 <= j < out@.len() && (#[trigger] out@[j]).0 == u && out@[j].1 == v;
                }
            }
        }
    }
    adj
}


/// The edges between included nodes, forward or reversed.
pub open spec fn incl_rel(g: Graph, reverse: bool) -> spec_fn(int, int) -> bool {
    |x: int, y: int| graph_rel(g, reverse)(x, y) && g.nodes@[x].included && g.nodes@[y].included
}

/// Adjacency lists over the edges between included nodes, forward or
/// reversed.
pub fn incl_adj(g: &Graph, reverse: bool) -> (adj: Vec<Vec<usize>>)
    requires
        g.wf(),
    ensures
        adj@.len() == g.nodes@.len(),
        crate::reach::adj_ok(adj@),
        forall|u: int, v: int|
            0 <= u < adj@.len() ==> (#[trigger] incl_rel(*g, reverse)(u, v) <==> edge(adj@, u, v)),
        forall|u: int, v: int|
            #[trigger] incl_rel(*g, reverse)(u, v) ==> 0 <= u < adj@.len() && 0 <= v < adj@.len(),
{
    let n = g.nodes.len();
    let pairs = graph_pairs(g, reverse);
    let mut out: Vec<(usize, usize)> = Vec::new();
    let mut q: usize = 0;
    while q < pairs.len()
        invariant
            q <= pairs@.len(),
            n == g.nodes@.len(),
            forall|i: int| 0 <= i < pairs@.len() ==> (#[trigger] pairs@[i]).0 < n && pairs@[i].1 < n,
            forall|i: int| 0 <= i < out@.len() ==> (#[trigger] out@[i]).0 < n && out@[i].1 < n,
            forall|x: int, y: int|
                #![trigger has_pair(out@, x, y)]
                has_pair(out@, x, y) <==> (0 <= x < n && 0 <= y < n && g.nodes@[x].included
                    && g.nodes@[y].included && has_pair(pairs@.subrange(0, q as int), x, y)),
        decreases pairs@.len() - q,
    {
        let (a, b) = pairs[q];
        let keep = g.nodes[a].included && g.nodes[b].included;
        let ghost before = out@;
        let ghost pre = pairs@.subrange(0, q as int);
        let ghost post = pairs@.subrange(0, q + 1);
        if keep {
            out.push((a, b));
        }
        proof {
            assert(post =~= pre.push((a, b)));
            assert forall|x: int, y: int| has_pair(post, x, y) <==> (has_pair(pre, x, y) || (x == a && y == b)) by {
                if has_pair(post, x, y) {
                    let j = choose|j: int| 0 <= j < post.len() && (#[trigger] post[j]).0 == x && post[j].1 == y;
                    if j < q {
                        assert(pre[j] == post[j]);
                    }
                }
                if has_pair(pre, x, y) {
                    let j = choose|j: int| 0 <= j < pre.len() && (#[trigger] pre[j]).0 == x && pre[j].1 == y;
                    assert(post[j] == pre[j]);
                }
                if x == a && y == b {
                    assert(post[q as int] == (a, b));
                }
            }
            assert forall|x: int, y: int|
                #![trigger has_pair(out@, x, y)]
                has_pair(out@, x, y) <==> (0 <= x < n && 0 <= y < n && g.nodes@[x].included
                    && g.nodes@[y].included && has_pair(post, x, y)) by {
                if has_pair(out@, x, y) {
                    let j = choose|j: int| 0 <= j < out@.len() && (#[trigger] out@[j]).0 == x && out@[j].1 == y;
                    if j < before.len() {
                        assert(out@[j] == before[j]);
                        assert(has_pair(before, x, y));
                    }
                }
                if has_pair(before, x, y) {
                    let j = choose|j: int| 0 <= j < before.len() && (#[trigger] before[j]).0 == x && before[j].1 == y;
                    assert(out@[j] == before[j]);
                }
                if keep && x == a && y == b {
                    assert(out@[before.len() as int] == (a, b));
                }
            }
        }
        q = q + 1;
        assert(pairs@.subrange(0, q as int) == post);
    }
    assert(pairs@.subrange(0, pairs@.len() as int) =~= pairs@);
    let adj = adj_from_pairs(n, &out);
    proof {
        assert forall|u: int, v: int|
            0 <= u < adj@.len() implies (#[trigger] incl_rel(*g, reverse)(u, v) <==> edge(adj@, u, v)) by {
            if 0 <= v < n {
                assert(has_pair(pairs@, u, v) <==> graph_rel(*g, reverse)(u, v));
            } else {
                if has_pair(out@, u, v) {
                    let j = choose|j: int| 0 <= j < out@.len() && (#[trigger] out@[j]).0 == u && out@[j].1 == v;
                }
            }
        }
    }
    adj
}

} // verus!
