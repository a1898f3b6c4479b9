//! For every node: how many nodes depend on it, directly and transitively.

use vstd::prelude::*;
use crate::graph::Graph;
use crate::reach::{at_level, bfs, bfs_post, count_of, lemma_bfs_reachable, reachable, single, single_source};
use crate::structure::{graph_adj, graph_rel};

verus! {

/// One node's dependents.
#[derive(Debug, Clone)]
pub struct ImpactRadiusNode {
    pub node: String,
    /// Count of transitive dependents (nodes reachable via reverse edges).
    pub radius: usize,
    /// Count of direct dependents.
    pub direct_dependents: usize,
    /// Longest shortest reverse path from this node to a dependent.
    pub max_depth: usize,
}

/// The dependents of every node, in path order.
#[derive(Debug, Clone)]
pub struct ImpactRadiusResult {
    pub nodes: Vec<ImpactRadiusNode>,
}

/// The impact-radius analysis.
pub struct ImpactRadius;

/// Whether `w` depends on node `v` through a chain of edges (`w` is
/// reachable from `v` walking edges backwards).
pub open spec fn depends_on(g: Graph, v: int, w: int) -> bool {
    reachable(graph_rel(g, true), single(g.nodes@.len(), v), w)
}

/// Whether `w`'s shortest chain of edges to `v` has exactly `d` steps.
pub open spec fn dependency_distance(g: Graph, v: int, w: int, d: nat) -> bool {
    at_level(graph_rel(g, true), single(g.nodes@.len(), v), w, d)
}

/// The nodes other than `v` that depend on it.
pub open spec fn dependents_of(g: Graph, v: int) -> spec_fn(int) -> bool {
    |w: int| w != v && depends_on(g, v, w)
}

/// The nodes that depend on `v` directly.
pub open spec fn direct_dependents_of(g: Graph, v: int) -> spec_fn(int) -> bool {
    |w: int| dependency_distance(g, v, w, 1)
}

/// What the analysis reports for node `v`.
pub open spec fn radius_node_spec(g: Graph, v: int, r: ImpactRadiusNode) -> bool {
    let n = g.nodes@.len();
    &&& r.node@ == g.nodes@[v].path@
    &&& r.radius == count_of(n, dependents_of(g, v))
    &&& r.direct_dependents == count_of(n, direct_dependents_of(g, v))
    &&& forall|w: int, d: nat| 0 <= w < n && #[trigger] dependency_distance(g, v, w, d) ==> d <= r.max_depth
    &&& r.max_depth > 0 ==> exists|w: int| 0 <= w < n && #[trigger] dependency_distance(g, v, w, r.max_depth as nat)
}

impl ImpactRadius {
    /// The analysis name.
    pub fn name(&self) -> (r: &'static str)
        ensures
            r@ == "impact-radius"@,
    {
        "impact-radius"
    }

    /// For every node, in path order: the number of nodes that transitively
    /// depend on it, the number that depend on it directly, and the greatest
    /// shortest distance to a dependent.
    pub fn run(&self, graph: &Graph) -> (r: ImpactRadiusResult)
        requires
            graph.wf(),
        ensures
            r.nodes@.len() == graph.nodes@.len(),
            forall|v: int| 0 <= v < r.nodes@.len() ==> radius_node_spec(*graph, v, #[trigger] r.nodes@[v]),
    {
        let n = graph.nodes.len();
        let adj = graph_adj(graph, true);
        let ghost rel = graph_rel(*graph, true);
        let mut nodes: Vec<ImpactRadiusNode> = Vec::new();
        let mut v: usize = 0;
        while v < n
            invariant
                v <= n,
                n == graph.nodes@.len(),
                adj@.len() == n,
                crate::reach::adj_ok(adj@),
                rel == graph_rel(*graph, true),
                forall|u: int, w: int| 0 <= u < adj@.len() ==> (#[trigger] rel(u, w) <==> crate::reach::edge(adj@, u, w)),
                forall|u: int, w: int| #[trigger] rel(u, w) ==> 0 <= u < adj@.len() && 0 <= w < adj@.len(),
                nodes@.len() == v,
                forall|x: int| 0 <= x < v ==> radius_node_spec(*graph, x, #[trigger] nodes@[x]),
            decreases n - v,
        {
            let src = single_source(n, v);
            let (dist, prev) = bfs(&adj, &src, None, Ghost(rel));
            let ghost s = src@;
            let ghost is_dep = dependents_of(*graph, v as int);
            let ghost is_direct = direct_dependents_of(*graph, v as int);
            let mut radius: usize = 0;
            let mut direct: usize = 0;
            let mut maxd: usize = 0;
            let mut w: usize = 0;
            while w < n
                invariant
                    w <= n,
                    n == graph.nodes@.len(),
                    s == single(n as nat, v as int),
                    rel == graph_rel(*graph, true),
                    bfs_post(rel, s, None, dist@, prev@),
                    v < n,
                    radius == count_of(w as nat, is_dep),
                    direct == count_of(w as nat, is_direct),
                    radius <= w,
                    direct <= w,
                    is_dep == dependents_of(*graph, v as int),
                    is_direct == direct_dependents_of(*graph, v as int),
                    forall|x: int, d: nat| 0 <= x < w && #[trigger] dependency_distance(*graph, v as int, x, d) ==> d <= maxd,
                    maxd > 0 ==> exists|x: int| 0 <= x < w && #[trigger] dependency_distance(*graph, v as int, x, maxd as nat),
                decreases n - w,
            {
                proof {
                    lemma_bfs_reachable(rel, s, dist@, prev@, w as int);
                }
                match dist[w] {
                    Some(d) => {
                        if w != v {
                            radius = radius + 1;
                        }
                        if d == 1 {
                            direct = direct + 1;
                        }
                        let ghost old_max = maxd;
                        if d > maxd {
                            maxd = d;
                        }
                        proof {
                            assert(at_level(rel, s, w as int, d as nat));
                            if d != 1 {
                                if dependency_distance(*graph, v as int, w as int, 1) {
                                    assert(dist@[w as int] == Some(1usize));
                                }
                            }
                        }
                    },
                    None => {
                        proof {
                            assert forall|d: nat| !dependency_distance(*graph, v as int, w as int, d) by {
                                if dependency_distance(*graph, v as int, w as int, d) {
                                    assert(dist@[w as int] == Some(d as usize));
                                }
                            }
                        }
                    },
                }
                proof {
                    if maxd > 0 {
                        if dist@[w as int] == Some(maxd) {
                            assert(dependency_distance(*graph, v as int, w as int, maxd as nat));
                        } else {
                            let x = choose|x: int| 0 <= x < w && dependency_distance(*graph, v as int, x, maxd as nat);
                            assert(0 <= x < w + 1);
                        }
                    }
                    assert forall|x: int, d: nat| 0 <= x < w + 1 && #[trigger] dependency_distance(*graph, v as int, x, d) implies d <= maxd by {
                        if x == w {
                            assert(dist@[w as int] == Some(d as usize));
                        }
                    }
                }
                w = w + 1;
            }
            let item = ImpactRadiusNode {
                node: graph.nodes[v].path.clone(),
                radius,
                direct_dependents: direct,
                max_depth: maxd,
            };
            proof {
                assert(w == n);
                assert(forall|x: int, d: nat| 0 <= x < n && #[trigger] dependency_distance(*graph, v as int, x, d) ==> d <= item.max_depth);
                assert(item.max_depth > 0 ==> exists|x: int| 0 <= x < n && #[trigger] dependency_distance(*graph, v as int, x, item.max_depth as nat));
                assert(radius_node_spec(*graph, v as int, item));
            }
            nodes.push(item);
            v = v + 1;
        }
        ImpactRadiusResult { nodes }
    }
}

} // verus!
