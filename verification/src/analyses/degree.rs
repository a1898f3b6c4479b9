//! In- and out-degree of every included node.

use vstd::prelude::*;
use crate::analyses::{included_below, included_indices, lemma_included_below};
use crate::graph::Graph;
use crate::structure::{edge_ends, opt_int};

verus! {

/// One node's degree.
#[derive(Debug, Clone)]
pub struct NodeDegree {
    pub node: String,
    pub in_degree: usize,
    pub out_degree: usize,
}

/// The degree of every included node, in path order.
#[derive(Debug, Clone)]
pub struct DegreeResult {
    pub nodes: Vec<NodeDegree>,
}

/// The degree analysis.
pub struct Degree;

/// Edges among the first `m` that enter node `v` from an included node.
pub open spec fn in_degree_spec(g: Graph, v: int, m: nat) -> nat
    decreases m,
{
    if m == 0 {
        0
    } else {
        in_degree_spec(g, v, (m - 1) as nat) + if g.tgt_of(m - 1) == Some(v)
            && g.nodes@[g.src_of(m - 1)].included {
            1nat
        } else {
            0nat
        }
    }
}

/// Edges among the first `m` that leave node `v` for an included node.
pub open spec fn out_degree_spec(g: Graph, v: int, m: nat) -> nat
    decreases m,
{
    if m == 0 {
        0
    } else {
        out_degree_spec(g, v, (m - 1) as nat) + if g.src_of(m - 1) == v && match g.tgt_of(m - 1) {
            Some(t) => g.nodes@[t].included,
            None => false,
        } {
            1nat
        } else {
            0nat
        }
    }
}

impl Degree {
    /// The analysis name.
    pub fn name(&self) -> (r: &'static str)
        ensures
            r@ == "degree"@,
    {
        "degree"
    }

    /// For every included node, in path order: how many edges enter it from an
    /// included node, and how many leave it for an included node. A self-loop
    /// counts once each way.
    pub fn run(&self, graph: &Graph) -> (r: DegreeResult)
        requires
            graph.wf(),
        ensures
            r.nodes@.len() == included_indices(*graph).len(),
            forall|q: int|
                0 <= q < r.nodes@.len() ==> {
                    let i = included_indices(*graph)[q];
                    &&& (#[trigger] r.nodes@[q]).node@ == graph.nodes@[i].path@
                    &&& r.nodes@[q].in_degree == in_degree_spec(*graph, i, graph.edges@.len())
                    &&& r.nodes@[q].out_degree == out_degree_spec(*graph, i, graph.edges@.len())
                },
    {
        let n = graph.nodes.len();
        let ends = edge_ends(graph);
        let mut ins: Vec<usize> = Vec::new();
        let mut outs: Vec<usize> = Vec::new();
        let mut i: usize = 0;
        while i < n
            invariant
                i <= n,
                ins@.len() == i,
                outs@.len() == i,
                forall|v: int| 0 <= v < i ==> #[trigger] ins@[v] == 0,
                forall|v: int| 0 <= v < i ==> #[trigger] outs@[v] == 0,
            decreases n - i,
        {
            ins.push(0);
            outs.push(0);
            i = i + 1;
        }
        let m = ends.len();
        let mut k: usize = 0;
        while k < m
            invariant
                k <= m,
                m == graph.edges@.len(),
                n == graph.nodes@.len(),
                graph.wf(),
                ins@.len() == n,
                outs@.len() == n,
                ends@.len() == m,
                forall|q: int|
                    0 <= q < m ==> (#[trigger] ends@[q]).0 == graph.src_of(q) && opt_int(ends@[q].1)
                        == graph.tgt_of(q),
                forall|q: int| 0 <= q < m ==> (#[trigger] ends@[q]).0 < n,
                forall|q: int| 0 <= q < m ==> match (#[trigger] ends@[q]).1 {
                    Some(t) => t < n,
                    None => true,
                },
                forall|v: int| 0 <= v < n ==> #[trigger] ins@[v] == in_degree_spec(*graph, v, k as nat),
                forall|v: int| 0 <= v < n ==> #[trigger] outs@[v] == out_degree_spec(*graph, v, k as nat),
                forall|v: int| 0 <= v < n ==> #[trigger] ins@[v] <= k,
                forall|v: int| 0 <= v < n ==> #[trigger] outs@[v] <= k,
            decreases m - k,
        {
            let (s, t) = ends[k];
            match t {
                Some(tv) => {
                    if graph.nodes[s].included {
                        ins.set(tv, ins[tv] + 1);
                    }
                    if graph.nodes[tv].included {
                        outs.set(s, outs[s] + 1);
                    }
                },
                None => {},
            }
            assert forall|v: int| 0 <= v < n implies #[trigger] ins@[v] == in_degree_spec(
                *graph,
                v,
                (k + 1) as nat,
            ) by {
                assert(in_degree_spec(*graph, v, (k + 1) as nat) == in_degree_spec(*graph, v, k as nat)
                    + if graph.tgt_of(k as int) == Some(v) && graph.nodes@[graph.src_of(k as int)].included {
                    1nat
                } else {
                    0nat
                });
            }
            assert forall|v: int| 0 <= v < n implies #[trigger] outs@[v] == out_degree_spec(
                *graph,
                v,
                (k + 1) as nat,
            ) by {
                assert(out_degree_spec(*graph, v, (k + 1) as nat) == out_degree_spec(*graph, v, k as nat)
                    + if graph.src_of(k as int) == v && match graph.tgt_of(k as int) {
                    Some(t) => graph.nodes@[t].included,
                    None => false,
                } {
                    1nat
                } else {
                    0nat
                });
            }
            k = k + 1;
        }
        let mut nodes: Vec<NodeDegree> = Vec::new();
        let mut v: usize = 0;
        while v < n
            invariant
                v <= n,
                n == graph.nodes@.len(),
                m == graph.edges@.len(),
                ins@.len() == n,
                outs@.len() == n,
                forall|w: int| 0 <= w < n ==> #[trigger] ins@[w] == in_degree_spec(*graph, w, m as nat),
                forall|w: int| 0 <= w < n ==> #[trigger] outs@[w] == out_degree_spec(*graph, w, m as nat),
                nodes@.len() == included_below(*graph, v as int).len(),
                forall|q: int|
                    0 <= q < nodes@.len() ==> {
                        let i = included_below(*graph, v as int)[q];
                        &&& (#[trigger] nodes@[q]).node@ == graph.nodes@[i].path@
                        &&& nodes@[q].in_degree == in_degree_spec(*graph, i, m as nat)
                        &&& nodes@[q].out_degree == out_degree_spec(*graph, i, m as nat)
                    },
            decreases n - v,
        {
            proof {
                lemma_included_below(*graph, v as int);
            }
            if graph.nodes[v].included {
                nodes.push(NodeDegree {
                    node: graph.nodes[v].path.clone(),
                    in_degree: ins[v],
                    out_degree: outs[v],
                });
            }
            v = v + 1;
        }
        DegreeResult { nodes }
    }
}

} // verus!
