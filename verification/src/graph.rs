//! The graph model: nodes keyed by path, kept in path order, and the directed
//! edges between them.

use vstd::prelude::*;
use crate::order::{chars_lt, lemma_lt_irrefl, lemma_lt_trans, lemma_lt_trichotomy, seq_lt};
use crate::text::{chars_of, views};
use crate::diagnostic::opt_view;
use crate::lockfile::copy_opt;
use crate::impact::copy_lines;
use crate::paths::str_eq;

verus! {

/// What kind of filesystem entity a node is.
#[derive(Debug, Clone, Copy, PartialEq, Eq, Structural)]
pub enum NodeType {
    File,
    Directory,
    Symlink,
    Uri,
}

/// A node: its path (its identity), its type (`None` when the path could not
/// be inspected), whether it matched the include patterns (drft reads,
/// hashes and manages included nodes), and its content hash.
#[derive(Debug)]
pub struct Node {
    pub path: String,
    pub node_type: Option<NodeType>,
    pub included: bool,
    pub hash: Option<String>,
}

/// A directed edge. `target` is a node identity (fragment stripped); `link`
/// is the original link when it differs from the target; `parser` names the
/// parser that found it; `lines` are the source lines the link sits on.
#[derive(Debug)]
pub struct Edge {
    pub source: String,
    pub target: String,
    pub link: Option<String>,
    pub parser: String,
    pub lines: Vec<usize>,
}

/// A graph: nodes in path order, and edges in the order they were added.
#[derive(Debug)]
pub struct Graph {
    pub nodes: Vec<Node>,
    pub edges: Vec<Edge>,
}

/// Whether the node at `i` has path `p`.
pub open spec fn has_path(nodes: Seq<Node>, i: int, p: Seq<char>) -> bool {
    0 <= i < nodes.len() && nodes[i].path@ == p
}

/// Whether nodes are in strictly increasing path order (so no path repeats).
pub open spec fn sorted_nodes(nodes: Seq<Node>) -> bool {
    forall|i: int, j: int| 0 <= i < j < nodes.len() ==> seq_lt(#[trigger] nodes[i].path@, #[trigger] nodes[j].path@)
}

/// The index of the node with path `p`, if any.
pub open spec fn index_of(nodes: Seq<Node>, p: Seq<char>) -> Option<int> {
    if exists|i: int| #[trigger] has_path(nodes, i, p) {
        Some(choose|i: int| #[trigger] has_path(nodes, i, p))
    } else {
        None
    }
}

/// In path order, a path names at most one node.
pub proof fn lemma_index_unique(nodes: Seq<Node>, i: int, p: Seq<char>)
    requires
        sorted_nodes(nodes),
        has_path(nodes, i, p),
    ensures
        index_of(nodes, p) == Some(i),
{
    let j = choose|j: int| #[trigger] has_path(nodes, j, p);
    if j < i {
        assert(seq_lt(nodes[j].path@, nodes[i].path@));
        lemma_lt_irrefl(p, 0);
    } else if i < j {
        assert(seq_lt(nodes[i].path@, nodes[j].path@));
        lemma_lt_irrefl(p, 0);
    }
}

impl Graph {
    /// Nodes are in path order and every edge leaves an included node — the
    /// shape every built graph has.
    pub open spec fn wf(&self) -> bool {
        &&& sorted_nodes(self.nodes@)
        &&& forall|k: int|
            #![trigger self.edges@[k]]
            0 <= k < self.edges@.len() ==> exists|i: int|
                #[trigger] has_path(self.nodes@, i, self.edges@[k].source@)
                    && self.nodes@[i].included
    }

    /// The index of edge `k`'s source.
    pub open spec fn src_of(&self, k: int) -> int {
        choose|i: int| #[trigger] has_path(self.nodes@, i, self.edges@[k].source@)
    }

    /// The index of edge `k`'s target, when it names a node.
    pub open spec fn tgt_of(&self, k: int) -> Option<int> {
        index_of(self.nodes@, self.edges@[k].target@)
    }

    /// The node at `p`, if any.
    pub open spec fn node_at(&self, p: Seq<char>) -> Option<Node> {
        match index_of(self.nodes@, p) {
            Some(i) => Some(self.nodes@[i]),
            None => None,
        }
    }

    /// An empty graph.
    pub fn new() -> (g: Graph)
        ensures
            g.nodes@.len() == 0,
            g.edges@.len() == 0,
            g.wf(),
    {
        Graph { nodes: Vec::new(), edges: Vec::new() }
    }

    /// The index of the node with path `path`.
    pub fn index_of(&self, path: &str) -> (r: Option<usize>)
        ensures
            match r {
                Some(i) => has_path(self.nodes@, i as int, path@),
                None => forall|i: int| !#[trigger] has_path(self.nodes@, i, path@),
            },
    {
        let want = chars_of(path);
        let mut i: usize = 0;
        while i < self.nodes.len()
            invariant
                i <= self.nodes@.len(),
                want@ == path@,
                forall|j: int| 0 <= j < i ==> !#[trigger] has_path(self.nodes@, j, path@),
            decreases self.nodes@.len() - i,
        {
            let have = chars_of(self.nodes[i].path.as_str());
            if have.len() == want.len() {
                let mut k: usize = 0;
                let mut same = true;
                while k < have.len()
                    invariant
                        k <= have.len(),
                        have.len() == want.len(),
                        same == (forall|m: int| 0 <= m < k ==> have@[m] == want@[m]),
                    decreases have.len() - k,
                {
                    if have[k] != want[k] {
                        same = false;
                    }
                    k = k + 1;
                }
                if same {
                    assert(have@ =~= want@);
                    return Some(i);
                }
                assert(have@ != want@) by {
                    if have@ == want@ {
                        assert(forall|m: int| 0 <= m < have.len() ==> have@[m] == want@[m]);
                    }
                }
            }
            i = i + 1;
        }
        None
    }

    /// Insert the node, replacing any node already at its path; path order is
    /// kept.
    pub fn add_node(&mut self, node: Node)
        requires
            sorted_nodes(old(self).nodes@),
        ensures
            sorted_nodes(final(self).nodes@),
            final(self).edges == old(self).edges,
            final(self).node_at(node.path@) == Some(node),
            forall|p: Seq<char>| p != node.path@ ==> #[trigger] final(self).node_at(p) == old(self).node_at(p),
    {
        let ghost old_nodes = self.nodes@;
        let key = chars_of(node.path.as_str());
        let mut pos: usize = 0;
        while pos < self.nodes.len()
            invariant
                pos <= self.nodes@.len(),
                self.nodes@ == old_nodes,
                key@ == node.path@,
                forall|j: int| 0 <= j < pos ==> seq_lt(#[trigger] old_nodes[j].path@, node.path@),
            ensures
                pos <= self.nodes@.len(),
                self.nodes@ == old_nodes,
                forall|j: int| 0 <= j < pos ==> seq_lt(#[trigger] old_nodes[j].path@, node.path@),
                pos < self.nodes@.len() ==> !seq_lt(old_nodes[pos as int].path@, node.path@),
            decreases self.nodes@.len() - pos,
        {
            let have = chars_of(self.nodes[pos].path.as_str());
            if !chars_lt(&have, &key) {
                break;
            }
            pos = pos + 1;
        }
        let n = self.nodes.len();
        let mut replace = false;
        if pos < n {
            let have = chars_of(self.nodes[pos].path.as_str());
            replace = !chars_lt(&key, &have);
        }
        if replace {
            proof {
                let q = old_nodes[pos as int].path@;
                lemma_lt_trichotomy(q, node.path@);
                assert(q == node.path@);
            }
            let ghost p0 = node.path@;
            self.nodes.set(pos, node);
            proof {
                assert forall|i: int, j: int| 0 <= i < j < self.nodes@.len() implies seq_lt(
                    #[trigger] self.nodes@[i].path@,
                    #[trigger] self.nodes@[j].path@,
                ) by {
                    assert(seq_lt(old_nodes[i].path@, old_nodes[j].path@));
                }
                lemma_index_unique(self.nodes@, pos as int, p0);
                assert forall|p: Seq<char>| p != p0 implies #[trigger] self.node_at(p) == old(
                    self,
                ).node_at(p) by {
                    if exists|i: int| #[trigger] has_path(old_nodes, i, p) {
                        let i = choose|i: int| #[trigger] has_path(old_nodes, i, p);
                        assert(has_path(self.nodes@, i, p));
                        lemma_index_unique(old_nodes, i, p);
                        lemma_index_unique(self.nodes@, i, p);
                    } else {
                        assert forall|i: int| !#[trigger] has_path(self.nodes@, i, p) by {
                            if has_path(self.nodes@, i, p) {
                                assert(has_path(old_nodes, i, p));
                            }
                        }
                    }
                }
            }
        } else {
            proof {
                if pos < n {
                    let q = old_nodes[pos as int].path@;
                    lemma_lt_trichotomy(q, node.path@);
                }
            }
            let ghost p0 = node.path@;
            self.nodes.insert(pos, node);
            proof {
                assert forall|i: int, j: int| 0 <= i < j < self.nodes@.len() implies seq_lt(
                    #[trigger] self.nodes@[i].path@,
                    #[trigger] self.nodes@[j].path@,
                ) by {
                    if j < pos {
                        assert(seq_lt(old_nodes[i].path@, old_nodes[j].path@));
                    } else if j == pos {
                    } else if i < pos {
                        assert(seq_lt(old_nodes[i].path@, p0));
                        assert(seq_lt(p0, old_nodes[pos as int].path@));
                        if j - 1 > pos {
                            assert(seq_lt(old_nodes[pos as int].path@, old_nodes[j - 1].path@));
                            lemma_lt_trans(p0, old_nodes[pos as int].path@, old_nodes[j - 1].path@, 0);
                        }
                        lemma_lt_trans(old_nodes[i].path@, p0, old_nodes[j - 1].path@, 0);
                    } else if i == pos {
                        assert(seq_lt(p0, old_nodes[pos as int].path@));
                        if j - 1 > pos {
                            assert(seq_lt(old_nodes[pos as int].path@, old_nodes[j - 1].path@));
                            lemma_lt_trans(p0, old_nodes[pos as int].path@, old_nodes[j - 1].path@, 0);
                        }
                    } else {
                        assert(seq_lt(old_nodes[i - 1].path@, old_nodes[j - 1].path@));
                    }
                }
                lemma_index_unique(self.nodes@, pos as int, p0);
                assert forall|p: Seq<char>| p != p0 implies #[trigger] self.node_at(p) == old(
                    self,
                ).node_at(p) by {
                    if exists|i: int| #[trigger] has_path(old_nodes, i, p) {
                        let i = choose|i: int| #[trigger] has_path(old_nodes, i, p);
                        lemma_index_unique(old_nodes, i, p);
                        if i < pos {
                            assert(has_path(self.nodes@, i, p));
                            lemma_index_unique(self.nodes@, i, p);
                        } else {
                            assert(has_path(self.nodes@, i + 1, p));
                            lemma_index_unique(self.nodes@, i + 1, p);
                        }
                    } else {
                        assert forall|i: int| !#[trigger] has_path(self.nodes@, i, p) by {
                            if has_path(self.nodes@, i, p) {
                                if i < pos {
                                    assert(has_path(old_nodes, i, p));
                                } else if i > pos {
                                    assert(has_path(old_nodes, i - 1, p));
                                }
                            }
                        }
                    }
                }
            }
        }
    }

    /// Append an edge.
    pub fn add_edge(&mut self, edge: Edge)
        ensures
            final(self).nodes == old(self).nodes,
            final(self).edges@ == old(self).edges@.push(edge),
    {
        self.edges.push(edge);
    }

    /// Whether the edge's target is an included node of the graph.
    pub fn is_internal_edge(&self, edge: &Edge) -> (r: bool)
        requires
            sorted_nodes(self.nodes@),
        ensures
            r == (exists|i: int| #[trigger] has_path(self.nodes@, i, edge.target@) && self.nodes@[i].included),
    {
        match self.index_of(edge.target.as_str()) {
            Some(i) => {
                proof {
                    lemma_index_unique(self.nodes@, i as int, edge.target@);
                    if exists|j: int| #[trigger] has_path(self.nodes@, j, edge.target@) && self.nodes@[j].included {
                        let j = choose|j: int| #[trigger] has_path(self.nodes@, j, edge.target@) && self.nodes@[j].included;
                        lemma_index_unique(self.nodes@, j, edge.target@);
                    }
                }
                self.nodes[i].included
            },
            None => {
                false
            },
        }
    }
}

/// Two nodes say the same thing.
pub open spec fn node_eqv(a: Node, b: Node) -> bool {
    &&& a.path@ == b.path@
    &&& a.node_type == b.node_type
    &&& a.included == b.included
    &&& opt_view(a.hash) == opt_view(b.hash)
}

/// Two edges say the same thing.
pub open spec fn edge_eqv(a: Edge, b: Edge) -> bool {
    &&& a.source@ == b.source@
    &&& a.target@ == b.target@
    &&& opt_view(a.link) == opt_view(b.link)
    &&& a.parser@ == b.parser@
    &&& a.lines@ == b.lines@
}

/// The edges found by one of `parsers`, in order.
pub open spec fn kept_edges(edges: Seq<Edge>, parsers: Seq<Seq<char>>) -> Seq<Edge>
    decreases edges.len(),
{
    if edges.len() == 0 {
        Seq::empty()
    } else if parsers.contains(edges.last().parser@) {
        kept_edges(edges.drop_last(), parsers).push(edges.last())
    } else {
        kept_edges(edges.drop_last(), parsers)
    }
}

/// The indices of the edges that satisfy `pick`, in order.
pub open spec fn edge_indices(edges: Seq<Edge>, pick: spec_fn(Edge) -> bool) -> Seq<usize>
    decreases edges.len(),
{
    if edges.len() == 0 {
        Seq::empty()
    } else if pick(edges.last()) {
        edge_indices(edges.drop_last(), pick).push((edges.len() - 1) as usize)
    } else {
        edge_indices(edges.drop_last(), pick)
    }
}

/// The paths of the included nodes, in path order.
pub open spec fn included_paths(nodes: Seq<Node>) -> Seq<Seq<char>>
    decreases nodes.len(),
{
    if nodes.len() == 0 {
        Seq::empty()
    } else if nodes.last().included {
        included_paths(nodes.drop_last()).push(nodes.last().path@)
    } else {
        included_paths(nodes.drop_last())
    }
}

/// A copy of a node.
pub(crate) fn copy_node(n: &Node) -> (r: Node)
    ensures
        node_eqv(r, *n),
{
    Node { path: n.path.clone(), node_type: n.node_type, included: n.included, hash: copy_opt(&n.hash) }
}

/// A copy of an edge.
pub(crate) fn copy_edge(e: &Edge) -> (r: Edge)
    ensures
        edge_eqv(r, *e),
{
    Edge {
        source: e.source.clone(),
        target: e.target.clone(),
        link: copy_opt(&e.link),
        parser: e.parser.clone(),
        lines: copy_lines(&e.lines),
    }
}

/// Whether `name` is among `parsers`.
fn listed(parsers: &Vec<String>, name: &String) -> (r: bool)
    ensures
        r == views(parsers@).contains(name@),
{
    let mut i: usize = 0;
    while i < parsers.len()
        invariant
            i <= parsers@.len(),
            forall|q: int| 0 <= q < i ==> parsers@[q]@ != name@,
        decreases parsers@.len() - i,
    {
        if str_eq(parsers[i].as_str(), name.as_str()) {
            assert(views(parsers@)[i as int] == name@);
            return true;
        }
        i = i + 1;
    }
    proof {
        if views(parsers@).contains(name@) {
            let q = choose|q: int| 0 <= q < views(parsers@).len() && views(parsers@)[q] == name@;
            assert(parsers@[q]@ == name@);
        }
    }
    false
}

impl Graph {
    /// The paths of the nodes that match the include patterns, in path order.
    pub fn included_nodes(&self) -> (r: Vec<String>)
        ensures
            views(r@) == included_paths(self.nodes@),
    {
        let mut r: Vec<String> = Vec::new();
        let mut i: usize = 0;
        while i < self.nodes.len()
            invariant
                i <= self.nodes@.len(),
                views(r@) == included_paths(self.nodes@.subrange(0, i as int)),
            decreases self.nodes@.len() - i,
        {
            let ghost before = views(r@);
            proof {
                assert(self.nodes@.subrange(0, i + 1).drop_last() =~= self.nodes@.subrange(0, i as int));
            }
            if self.nodes[i].included {
                r.push(self.nodes[i].path.clone());
                assert(views(r@) =~= before.push(self.nodes@[i as int].path@));
            }
            i = i + 1;
        }
        assert(self.nodes@.subrange(0, self.nodes@.len() as int) =~= self.nodes@);
        r
    }

    /// A graph with every node and only the edges one of `parsers` found, in
    /// their order.
    pub fn filter_by_parsers(&self, parsers: &Vec<String>) -> (r: Graph)
        ensures
            r.nodes@.len() == self.nodes@.len(),
            forall|i: int| 0 <= i < r.nodes@.len() ==> node_eqv(#[trigger] r.nodes@[i], self.nodes@[i]),
            r.edges@.len() == kept_edges(self.edges@, views(parsers@)).len(),
            forall|i: int|
                0 <= i < r.edges@.len() ==> edge_eqv(#[trigger] r.edges@[i], kept_edges(self.edges@, views(parsers@))[i]),
    {
        let ghost ps = views(parsers@);
        let mut nodes: Vec<Node> = Vec::new();
        let mut i: usize = 0;
        while i < self.nodes.len()
            invariant
                i <= self.nodes@.len(),
                nodes@.len() == i,
                forall|q: int| 0 <= q < i ==> node_eqv(#[trigger] nodes@[q], self.nodes@[q]),
            decreases self.nodes@.len() - i,
        {
            nodes.push(copy_node(&self.nodes[i]));
            i = i + 1;
        }
        let mut edges: Vec<Edge> = Vec::new();
        let mut k: usize = 0;
        while k < self.edges.len()
            invariant
                k <= self.edges@.len(),
                ps == views(parsers@),
                edges@.len() == kept_edges(self.edges@.subrange(0, k as int), ps).len(),
                forall|q: int|
                    0 <= q < edges@.len() ==> edge_eqv(#[trigger] edges@[q], kept_edges(self.edges@.subrange(0, k as int), ps)[q]),
            decreases self.edges@.len() - k,
        {
            proof {
                assert(self.edges@.subrange(0, k + 1).drop_last() =~= self.edges@.subrange(0, k as int));
            }
            if listed(parsers, &self.edges[k].parser) {
                edges.push(copy_edge(&self.edges[k]));
            }
            k = k + 1;
        }
        assert(self.edges@.subrange(0, self.edges@.len() as int) =~= self.edges@);
        Graph { nodes, edges }
    }

    /// The indices of the edges leaving `path`, in order.
    pub fn forward(&self, path: &str) -> (r: Vec<usize>)
        ensures
            r@ == edge_indices(self.edges@, |e: Edge| e.source@ == path@),
    {
        let mut r: Vec<usize> = Vec::new();
        let mut k: usize = 0;
        while k < self.edges.len()
            invariant
                k <= self.edges@.len(),
                r@ == edge_indices(self.edges@.subrange(0, k as int), |e: Edge| e.source@ == path@),
            decreases self.edges@.len() - k,
        {
            proof {
                assert(self.edges@.subrange(0, k + 1).drop_last() =~= self.edges@.subrange(0, k as int));
            }
            if str_eq(self.edges[k].source.as_str(), path) {
                r.push(k);
            }
            k = k + 1;
        }
        assert(self.edges@.subrange(0, self.edges@.len() as int) =~= self.edges@);
        r
    }

    /// The indices of the edges arriving at `path`, in order.
    pub fn reverse(&self, path: &str) -> (r: Vec<usize>)
        ensures
            r@ == edge_indices(self.edges@, |e: Edge| e.target@ == path@),
    {
        let mut r: Vec<usize> = Vec::new();
        let mut k: usize = 0;
        while k < self.edges.len()
            invariant
                k <= self.edges@.len(),
                r@ == edge_indices(self.edges@.subrange(0, k as int), |e: Edge| e.target@ == path@),
            decreases self.edges@.len() - k,
        {
            proof {
                assert(self.edges@.subrange(0, k + 1).drop_last() =~= self.edges@.subrange(0, k as int));
            }
            if str_eq(self.edges[k].target.as_str(), path) {
                r.push(k);
            }
            k = k + 1;
        }
        assert(self.edges@.subrange(0, self.edges@.len() as int) =~= self.edges@);
        r
    }
}

} // verus!
