//! The names and kinds of the scalar metrics drawn from the analyses, and
//! the counts each metric is computed from.

use vstd::prelude::*;
use crate::analyses::bridges::BridgesResult;
use crate::analyses::change_propagation::ChangePropagationResult;
use crate::analyses::connected_components::{Component, ConnectedComponentsResult};
use crate::analyses::degree::{DegreeResult, NodeDegree};
use crate::analyses::scc::SccResult;
use crate::analyses::transitive_reduction::TransitiveReductionResult;
use crate::graph::{has_path, sorted_nodes, Edge, Graph, Node};

verus! {

/// How a metric's value reads.
#[derive(Debug, Clone, Copy, PartialEq, Eq, Structural)]
pub enum MetricKind {
    Ratio,
    Count,
    Score,
}

/// All known metric names, sorted alphabetically.
pub open spec fn metric_names_spec() -> Seq<Seq<char>> {
    seq![
        "average_path_length"@,
        "bridge_count"@,
        "component_count"@,
        "cut_node_count"@,
        "cycle_count"@,
        "cyclomatic_complexity"@,
        "density"@,
        "diameter"@,
        "directly_changed_count"@,
        "island_ratio"@,
        "max_pagerank"@,
        "orphan_ratio"@,
        "redundant_edge_ratio"@,
        "stale_ratio"@,
        "transitively_stale_count"@,
    ]
}

/// All known metric names, sorted alphabetically.
pub fn all_metric_names() -> (r: Vec<&'static str>)
    ensures
        r@.len() == metric_names_spec().len(),
        forall|i: int| 0 <= i < r@.len() ==> (#[trigger] r@[i])@ == metric_names_spec()[i],
{
    vec![
        "average_path_length",
        "bridge_count",
        "component_count",
        "cut_node_count",
        "cycle_count",
        "cyclomatic_complexity",
        "density",
        "diameter",
        "directly_changed_count",
        "island_ratio",
        "max_pagerank",
        "orphan_ratio",
        "redundant_edge_ratio",
        "stale_ratio",
        "transitively_stale_count",
    ]
}

/// How many items of `s` satisfy `p`.
pub open spec fn count_where<A>(s: Seq<A>, p: spec_fn(A) -> bool) -> nat
    decreases s.len(),
{
    if s.len() == 0 {
        0
    } else {
        count_where(s.drop_last(), p) + if p(s.last()) {
            1nat
        } else {
            0nat
        }
    }
}

proof fn lemma_count_step<A>(s: Seq<A>, i: int, p: spec_fn(A) -> bool)
    requires
        0 <= i < s.len(),
    ensures
        count_where(s.subrange(0, i + 1), p) == count_where(s.subrange(0, i), p) + if p(s[i]) {
            1nat
        } else {
            0nat
        },
        count_where(s.subrange(0, i), p) <= i,
    decreases i,
{
    assert(s.subrange(0, i + 1).drop_last() =~= s.subrange(0, i));
    if i > 0 {
        lemma_count_step(s, i - 1, p);
    }
}

/// A node no included node links.
pub open spec fn is_orphan(d: NodeDegree) -> bool {
    d.in_degree == 0
}

/// A component of one node.
pub open spec fn is_island(c: Component) -> bool {
    c.members@.len() == 1
}

/// Whether the edge ends at an included node of `nodes`.
pub open spec fn lands_inside(nodes: Seq<Node>, e: Edge) -> bool {
    exists|i: int| #[trigger] has_path(nodes, i, e.target@) && nodes[i].included
}

/// The integer counts the scalar metrics are drawn from: ratios divide one
/// count by another, and count metrics report one directly.
#[derive(Debug, Clone, Copy, PartialEq, Eq)]
pub struct MetricCounts {
    /// Nodes that match the include patterns.
    pub included_nodes: usize,
    /// Nodes with in-degree zero.
    pub orphans: usize,
    /// Components of a single node.
    pub islands: usize,
    /// The component count the analysis reports.
    pub component_count: usize,
    /// Components listed.
    pub components: usize,
    /// Edges that end at an included node.
    pub internal_edges: usize,
    /// Edges a longer path already implies.
    pub redundant_edges: usize,
    /// Edges whose removal disconnects the graph.
    pub bridges: usize,
    /// Nodes whose removal disconnects the graph.
    pub cut_nodes: usize,
    /// Whether a lock file was there to compare against.
    pub has_lockfile: bool,
    /// Nodes changed since they were locked.
    pub directly_changed: usize,
    /// Nodes stale through a changed dependency.
    pub transitively_stale: usize,
    /// Cycles: strongly connected components of more than one node.
    pub cycles: usize,
}

/// How many nodes have in-degree zero.
fn count_orphans(ds: &Vec<NodeDegree>) -> (r: usize)
    ensures
        r == count_where(ds@, |d: NodeDegree| is_orphan(d)),
{
    let mut n: usize = 0;
    let mut i: usize = 0;
    while i < ds.len()
        invariant
            i <= ds@.len(),
            n == count_where(ds@.subrange(0, i as int), (|d: NodeDegree| is_orphan(d))),
        decreases ds@.len() - i,
    {
        proof {
            lemma_count_step(ds@, i as int, (|d: NodeDegree| is_orphan(d)));
            assert((|d: NodeDegree| is_orphan(d))(ds@[i as int]) == (ds@[i as int].in_degree == 0));
        }
        if ds[i].in_degree == 0 {
            n = n + 1;
        }
        i = i + 1;
    }
    assert(ds@.subrange(0, ds@.len() as int) =~= ds@);
    n
}

/// How many components hold a single node.
fn count_islands(cs: &Vec<Component>) -> (r: usize)
    ensures
        r == count_where(cs@, |c: Component| is_island(c)),
{
    let mut n: usize = 0;
    let mut i: usize = 0;
    while i < cs.len()
        invariant
            i <= cs@.len(),
            n == count_where(cs@.subrange(0, i as int), (|c: Component| is_island(c))),
        decreases cs@.len() - i,
    {
        proof {
            lemma_count_step(cs@, i as int, (|c: Component| is_island(c)));
            assert((|c: Component| is_island(c))(cs@[i as int]) == (cs@[i as int].members@.len() == 1));
        }
        if cs[i].members.len() == 1 {
            n = n + 1;
        }
        i = i + 1;
    }
    assert(cs@.subrange(0, cs@.len() as int) =~= cs@);
    n
}

/// How many nodes match the include patterns.
fn count_included(nodes: &Vec<Node>) -> (r: usize)
    ensures
        r == count_where(nodes@, |n: Node| n.included),
{
    let mut n: usize = 0;
    let mut i: usize = 0;
    while i < nodes.len()
        invariant
            i <= nodes@.len(),
            n == count_where(nodes@.subrange(0, i as int), (|n: Node| n.included)),
        decreases nodes@.len() - i,
    {
        proof {
            lemma_count_step(nodes@, i as int, (|n: Node| n.included));
            assert((|n: Node| n.included)(nodes@[i as int]) == nodes@[i as int].included);
        }
        if nodes[i].included {
            n = n + 1;
        }
        i = i + 1;
    }
    assert(nodes@.subrange(0, nodes@.len() as int) =~= nodes@);
    n
}

/// How many edges end at an included node.
fn count_internal(graph: &Graph) -> (r: usize)
    requires
        sorted_nodes(graph.nodes@),
    ensures
        r == count_where(graph.edges@, |e: Edge| lands_inside(graph.nodes@, e)),
{
    let mut n: usize = 0;
    let mut i: usize = 0;
    while i < graph.edges.len()
        invariant
            sorted_nodes(graph.nodes@),
            i <= graph.edges@.len(),
            n == count_where(graph.edges@.subrange(0, i as int), (|e: Edge| lands_inside(graph.nodes@, e))),
        decreases graph.edges@.len() - i,
    {
        proof {
            lemma_count_step(graph.edges@, i as int, (|e: Edge| lands_inside(graph.nodes@, e)));
            assert((|e: Edge| lands_inside(graph.nodes@, e))(graph.edges@[i as int]) == lands_inside(graph.nodes@, graph.edges@[i as int]));
        }
        if graph.is_internal_edge(&graph.edges[i]) {
            n = n + 1;
        }
        i = i + 1;
    }
    assert(graph.edges@.subrange(0, graph.edges@.len() as int) =~= graph.edges@);
    n
}

/// Gather the counts of every scalar metric from the analysis results and the
/// graph they ran on.
pub fn metric_counts(
    degree: &DegreeResult,
    scc: &SccResult,
    components: &ConnectedComponentsResult,
    bridges: &BridgesResult,
    reduction: &TransitiveReductionResult,
    propagation: &ChangePropagationResult,
    graph: &Graph,
) -> (r: MetricCounts)
    requires
        sorted_nodes(graph.nodes@),
    ensures
        r.included_nodes == count_where(graph.nodes@, |n: Node| n.included),
        r.orphans == count_where(degree.nodes@, |d: NodeDegree| is_orphan(d)),
        r.islands == count_where(components.components@, |c: Component| is_island(c)),
        r.component_count == components.component_count,
        r.components == components.components@.len(),
        r.internal_edges == count_where(graph.edges@, |e: Edge| lands_inside(graph.nodes@, e)),
        r.redundant_edges == reduction.redundant_edges@.len(),
        r.bridges == bridges.bridges@.len(),
        r.cut_nodes == bridges.cut_vertices@.len(),
        r.has_lockfile == propagation.has_lockfile,
        r.directly_changed == propagation.directly_changed@.len(),
        r.transitively_stale == propagation.transitively_stale@.len(),
        r.cycles == scc.nontrivial_count,
{
    MetricCounts {
        included_nodes: count_included(&graph.nodes),
        orphans: count_orphans(&degree.nodes),
        islands: count_islands(&components.components),
        component_count: components.component_count,
        components: components.components.len(),
        internal_edges: count_internal(graph),
        redundant_edges: reduction.redundant_edges.len(),
        bridges: bridges.bridges.len(),
        cut_nodes: bridges.cut_vertices.len(),
        has_lockfile: propagation.has_lockfile,
        directly_changed: propagation.directly_changed.len(),
        transitively_stale: propagation.transitively_stale.len(),
        cycles: scc.nontrivial_count,
    }
}

} // verus!
