//! Edge classification: what each edge's target is, from what the graph
//! holds and what stands at the target's path on disk.

use vstd::prelude::*;
use crate::graph::{has_path, Graph};
use crate::text::chars_of;

verus! {

/// What an edge's target turned out to be.
#[derive(Debug, Clone)]
pub enum EdgeStatus {
    /// A node of the graph (or a path the graph holds).
    Valid,
    /// Nothing stands at the target's path.
    Broken,
    /// A file that exists but the include and ignore patterns left out.
    Excluded,
    /// A directory.
    DirectoryTarget,
    /// A symlink, with what it points to (`unknown` when unreadable).
    SymlinkTarget { resolved: String },
    /// An `http` or `https` URL.
    External,
}

/// What stands at an edge target's path, as the file system reports it:
/// whether it is a directory, whether it is a symlink (and what it points
/// to, or `unknown`), and whether anything is there at all.
#[derive(Debug, Clone)]
pub struct DiskFacts {
    pub is_dir: bool,
    pub is_symlink: bool,
    pub exists: bool,
    pub link_to: String,
}

/// An edge with its classification.
#[derive(Debug, Clone)]
pub struct ClassifiedEdge {
    pub source: String,
    pub target: String,
    pub parser: String,
    pub status: EdgeStatus,
}

/// Every edge of a graph, classified, in edge order.
#[derive(Debug, Clone)]
pub struct EdgeClassificationResult {
    pub edges: Vec<ClassifiedEdge>,
}

/// The edge-classification analysis.
pub struct EdgeClassification;

/// Whether `s` starts with `p`.
pub open spec fn starts_with(s: Seq<char>, p: Seq<char>) -> bool {
    p.len() <= s.len() && s.subrange(0, p.len() as int) == p
}

/// Whether a target is an `http` or `https` URL.
pub open spec fn is_web_url(t: Seq<char>) -> bool {
    starts_with(t, "http://"@) || starts_with(t, "https://"@)
}

/// Whether `status` is what an edge to `target` is, given whether the graph
/// holds a node there and what stands at the path on disk: a web URL is
/// external; a node of the graph is valid unless its path is a symlink; any
/// other target is a directory, a symlink, an excluded file, or broken, in
/// that order.
pub open spec fn status_spec(status: EdgeStatus, target: Seq<char>, in_graph: bool, d: DiskFacts) -> bool {
    if is_web_url(target) {
        status is External
    } else if in_graph && !d.is_symlink {
        status is Valid
    } else if in_graph || (!d.is_dir && d.is_symlink) {
        status matches EdgeStatus::SymlinkTarget { resolved } && resolved@ == d.link_to@
    } else if d.is_dir {
        status is DirectoryTarget
    } else if d.exists {
        status is Excluded
    } else {
        status is Broken
    }
}

/// Whether `s` starts with the literal `p`.
fn has_prefix(s: &Vec<char>, p: &str) -> (r: bool)
    ensures
        r == starts_with(s@, p@),
{
    let pc = chars_of(p);
    if pc.len() > s.len() {
        return false;
    }
    let mut i: usize = 0;
    while i < pc.len()
        invariant
            i <= pc@.len() <= s@.len(),
            pc@ == p@,
            forall|q: int| 0 <= q < i ==> s@[q] == pc@[q],
        decreases pc@.len() - i,
    {
        if s[i] != pc[i] {
            assert(s@.subrange(0, pc@.len() as int)[i as int] != p@[i as int]);
            return false;
        }
        i = i + 1;
    }
    assert(s@.subrange(0, pc@.len() as int) =~= p@);
    true
}

/// Classify an edge to `target`: `disk` says what stands at the target's
/// path beneath the project root.
pub fn classify_edge(graph: &Graph, target: &str, disk: &DiskFacts) -> (r: EdgeStatus)
    ensures
        status_spec(r, target@, exists|i: int| #[trigger] has_path(graph.nodes@, i, target@), *disk),
{
    let t = chars_of(target);
    if has_prefix(&t, "http://") || has_prefix(&t, "https://") {
        return EdgeStatus::External;
    }
    let in_graph = graph.index_of(target).is_some();
    if in_graph && !disk.is_symlink {
        return EdgeStatus::Valid;
    }
    if in_graph {
        return EdgeStatus::SymlinkTarget { resolved: disk.link_to.clone() };
    }
    if disk.is_dir {
        EdgeStatus::DirectoryTarget
    } else if disk.is_symlink {
        EdgeStatus::SymlinkTarget { resolved: disk.link_to.clone() }
    } else if disk.exists {
        EdgeStatus::Excluded
    } else {
        EdgeStatus::Broken
    }
}

impl EdgeClassification {
    /// The analysis's name.
    pub fn name(&self) -> (r: &'static str)
        ensures
            r@ == "edge-classification"@,
    {
        "edge-classification"
    }

    /// Classify every edge of the graph, in edge order; `disks[k]` says what
    /// stands at edge `k`'s target on disk.
    pub fn run(&self, graph: &Graph, disks: &Vec<DiskFacts>) -> (r: EdgeClassificationResult)
        requires
            disks@.len() == graph.edges@.len(),
        ensures
            r.edges@.len() == graph.edges@.len(),
            forall|k: int|
                0 <= k < r.edges@.len() ==> {
                    let e = #[trigger] r.edges@[k];
                    &&& e.source@ == graph.edges@[k].source@
                    &&& e.target@ == graph.edges@[k].target@
                    &&& e.parser@ == graph.edges@[k].parser@
                    &&& status_spec(
                        e.status,
                        graph.edges@[k].target@,
                        exists|i: int| #[trigger] has_path(graph.nodes@, i, graph.edges@[k].target@),
                        disks@[k],
                    )
                },
    {
        let mut edges: Vec<ClassifiedEdge> = Vec::new();
        let mut k: usize = 0;
        while k < graph.edges.len()
            invariant
                k <= graph.edges@.len(),
                disks@.len() == graph.edges@.len(),
                edges@.len() == k,
                forall|q: int|
                    0 <= q < k ==> {
                        let e = #[trigger] edges@[q];
                        &&& e.source@ == graph.edges@[q].source@
                        &&& e.target@ == graph.edges@[q].target@
                        &&& e.parser@ == graph.edges@[q].parser@
                        &&& status_spec(
                            e.status,
                            graph.edges@[q].target@,
                            exists|i: int| #[trigger] has_path(graph.nodes@, i, graph.edges@[q].target@),
                            disks@[q],
                        )
                    },
            decreases graph.edges@.len() - k,
        {
            let edge = &graph.edges[k];
            let status = classify_edge(graph, edge.target.as_str(), &disks[k]);
            edges.push(ClassifiedEdge {
                source: edge.source.clone(),
                target: edge.target.clone(),
                parser: edge.parser.clone(),
                status,
            });
            k = k + 1;
        }
        EdgeClassificationResult { edges }
    }
}

} // verus!
