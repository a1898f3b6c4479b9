//! Structural analyses of the graph. Each reads the graph and returns
//! structured data; rules and metrics consume the results.

pub mod bridges;
pub mod change_propagation;
pub mod connected_components;
pub mod degree;
pub mod depth;
pub mod edge_classification;
pub mod graph_stats;
pub mod impact_radius;
pub mod scc;
pub mod transitive_reduction;

use vstd::prelude::*;
use crate::graph::Graph;

verus! {

/// The indices below `m` of included nodes, in order.
pub open spec fn included_below(g: Graph, m: int) -> Seq<int>
    decreases m,
{
    if m <= 0 {
        Seq::empty()
    } else if g.nodes@[m - 1].included {
        included_below(g, m - 1).push(m - 1)
    } else {
        included_below(g, m - 1)
    }
}

/// The indices of included nodes, in path order.
pub open spec fn included_indices(g: Graph) -> Seq<int> {
    included_below(g, g.nodes@.len() as int)
}

/// Every listed index is an included node below `m`, listed in increasing
/// order.
pub proof fn lemma_included_below(g: Graph, m: int)
    requires
        0 <= m <= g.nodes@.len(),
    ensures
        forall|q: int|
            0 <= q < included_below(g, m).len() ==> 0 <= #[trigger] included_below(g, m)[q] < m
                && g.nodes@[included_below(g, m)[q]].included,
        forall|q: int, r: int|
            0 <= q < r < included_below(g, m).len() ==> #[trigger] included_below(g, m)[q]
                < #[trigger] included_below(g, m)[r],
        forall|i: int| 0 <= i < m && g.nodes@[i].included ==> included_below(g, m).contains(i),
    decreases m,
{
    if m > 0 {
        lemma_included_below(g, m - 1);
        let prev = included_below(g, m - 1);
        if g.nodes@[m - 1].included {
            assert forall|i: int| 0 <= i < m && g.nodes@[i].included implies included_below(
                g,
                m,
            ).contains(i) by {
                if i < m - 1 {
                    assert(prev.contains(i));
                    let q = choose|q: int| 0 <= q < prev.len() && prev[q] == i;
                    assert(included_below(g, m) == prev.push(m - 1));
                    assert(included_below(g, m)[q] == i);
                } else {
                    assert(included_below(g, m)[prev.len() as int] == i);
                }
            }
        }
    }
}

/// All known analysis names, sorted alphabetically.
pub open spec fn analysis_names_spec() -> Seq<Seq<char>> {
    seq![
        "betweenness"@,
        "bridges"@,
        "change-propagation"@,
        "connected-components"@,
        "degree"@,
        "depth"@,
        "graph-stats"@,
        "impact-radius"@,
        "pagerank"@,
        "scc"@,
        "transitive-reduction"@,
    ]
}

/// All known analysis names, sorted alphabetically.
pub fn all_analysis_names() -> (r: Vec<&'static str>)
    ensures
        r@.len() == analysis_names_spec().len(),
        forall|i: int| 0 <= i < r@.len() ==> (#[trigger] r@[i])@ == analysis_names_spec()[i],
{
    vec![
        "betweenness",
        "bridges",
        "change-propagation",
        "connected-components",
        "degree",
        "depth",
        "graph-stats",
        "impact-radius",
        "pagerank",
        "scc",
        "transitive-reduction",
    ]
}

} // verus!
