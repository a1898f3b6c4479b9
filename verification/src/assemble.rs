//! Assembling the graph from what discovery and the parsers found: the edge
//! a parsed link yields, and the node a referenced target becomes.

use vstd::prelude::*;
use crate::builders::uri_spec;
use crate::config::{globs_match, Globs};
use crate::diagnostic::opt_view;
use crate::graph::{copy_edge, copy_node, edge_eqv, has_path, index_of, lemma_index_unique, node_eqv, sorted_nodes, Edge, Graph, Node, NodeType};
use crate::paths::str_eq;
use crate::paths::{is_uri, normalize_link_spec, normalize_link_target, resolve_link, resolve_spec};
use crate::text::{chars_of, owned, push_all};

verus! {

/// What a parsed link names from `source`: the target node (a URI as
/// written, anything else resolved against the source) and, when the link
/// carried a fragment, the fragment-qualified link. Empty and anchor-only
/// links name nothing.
pub open spec fn link_target_spec(source: Seq<char>, raw: Seq<char>) -> Option<(Seq<char>, Option<Seq<char>>)> {
    match normalize_link_spec(raw) {
        None => None,
        Some((t, f)) => {
            let target = if uri_spec(t) {
                t
            } else {
                resolve_spec(source, t)
            };
            Some(
                (
                    target,
                    match f {
                        Some(x) => Some(target + x),
                        None => None,
                    },
                ),
            )
        },
    }
}

/// The target a link found in `source` points at, with the original link
/// when it carried a fragment.
pub fn link_target(source: &str, raw: &str) -> (r: Option<(String, Option<String>)>)
    ensures
        match (r, link_target_spec(source@, raw@)) {
            (None, None) => true,
            (Some((t, l)), Some((st, sl))) => t@ == st && opt_view(l) == sl,
            _ => false,
        },
{
    match normalize_link_target(raw) {
        None => None,
        Some(n) => {
            let target = if is_uri(n.target.as_str()) {
                n.target
            } else {
                resolve_link(source, n.target.as_str())
            };
            let link = match n.fragment {
                Some(f) => {
                    let mut l = owned(target.as_str());
                    push_all(&mut l, f.as_str());
                    Some(l)
                },
                None => None,
            };
            Some((target, link))
        },
    }
}

/// Whether a relative path's first component climbs above the root.
pub open spec fn escapes_root_spec(p: Seq<char>) -> bool {
    p.len() >= 2 && p[0] == '.' && p[1] == '.' && (p.len() == 2 || p[2] == '/')
}

/// Whether a relative path's first component is `..`.
pub fn escapes_root(p: &str) -> (r: bool)
    ensures
        r == escapes_root_spec(p@),
{
    let cs = chars_of(p);
    cs.len() >= 2 && cs[0] == '.' && cs[1] == '.' && (cs.len() == 2 || cs[2] == '/')
}

/// What a symlink's own link says, as the filesystem reports it: a relative
/// link as written, or an absolute one canonicalised and taken relative to
/// the graph root (`None` when it leaves the root or cannot be resolved).
#[derive(Debug, Clone)]
pub enum SymlinkLink {
    Relative(String),
    Absolute(Option<String>),
}

/// The target of the `filesystem` edge a symlink makes: a relative link
/// resolved from the symlink's own path, an absolute one as it lies beneath
/// the root; none when the target climbs above the root or cannot be
/// resolved.
pub open spec fn symlink_edge_spec(file: Seq<char>, link: SymlinkLink) -> Option<Seq<char>> {
    let resolved = match link {
        SymlinkLink::Relative(t) => Some(resolve_spec(file, t@)),
        SymlinkLink::Absolute(Some(r)) => Some(r@),
        SymlinkLink::Absolute(None) => None,
    };
    match resolved {
        Some(r) => if escapes_root_spec(r) {
            None
        } else {
            Some(r)
        },
        None => None,
    }
}

/// The target of the `filesystem` edge the symlink `file` makes, per
/// [`symlink_edge_spec`].
pub fn symlink_edge_target(file: &str, link: &SymlinkLink) -> (r: Option<String>)
    ensures
        opt_view(r) == symlink_edge_spec(file@, *link),
{
    let resolved = match link {
        SymlinkLink::Relative(t) => resolve_link(file, t.as_str()),
        SymlinkLink::Absolute(Some(r)) => owned(r.as_str()),
        SymlinkLink::Absolute(None) => {
            return None;
        },
    };
    if escapes_root(resolved.as_str()) {
        None
    } else {
        Some(resolved)
    }
}

/// Whether a symlink is hashed and read: only when it resolves to a path
/// beneath the root (`resolved`, relative to it) that the include globs
/// match; a link out of the root, or to a path nothing includes, is a node
/// without content.
pub open spec fn symlink_hashed_spec(resolved: Option<Seq<char>>, included_by: Option<Seq<Seq<char>>>) -> bool {
    match (resolved, included_by) {
        (Some(p), Some(g)) => globs_match(g, p),
        _ => false,
    }
}

/// Whether a symlink is hashed and read, per [`symlink_hashed_spec`].
pub fn symlink_hashed(resolved: Option<&str>, included_by: Option<&Globs>) -> (r: bool)
    ensures
        r == symlink_hashed_spec(
            match resolved {
                Some(p) => Some(p@),
                None => None,
            },
            match included_by {
                Some(g) => Some(g@),
                None => None,
            },
        ),
{
    match (resolved, included_by) {
        (Some(p), Some(g)) => g.is_match(p),
        _ => false,
    }
}

/// Whether a path is absolute.
pub open spec fn absolute_spec(p: Seq<char>) -> bool {
    p.len() > 0 && p[0] == '/'
}

/// The node an edge target that is not yet in the graph becomes. A URI is a
/// node of its own kind, never included. Any other target keeps the type its
/// path was found to have (`stat`), except that a path that is absolute or
/// climbs above the root is never inspected and gets none; it is included
/// when it matches the include patterns and not the exclude patterns — even
/// if it does not exist, which makes it a broken link in scope — unless it
/// is absolute or climbs above the root.
pub fn referenced_node(target: &str, stat: Option<NodeType>, include_match: bool, exclude_match: bool) -> (n: Node)
    ensures
        n.path@ == target@,
        n.hash is None,
        uri_spec(target@) ==> n.node_type == Some(NodeType::Uri) && !n.included,
        !uri_spec(target@) ==> n.node_type == (if escapes_root_spec(target@) || absolute_spec(target@) {
            None
        } else {
            stat
        }),
        !uri_spec(target@) ==> n.included == (!escapes_root_spec(target@) && !absolute_spec(target@) && include_match
            && !exclude_match),
{
    if is_uri(target) {
        return Node { path: owned(target), node_type: Some(NodeType::Uri), included: false, hash: None };
    }
    let esc = escapes_root(target);
    let cs = chars_of(target);
    let abs = cs.len() > 0 && cs[0] == '/';
    let node_type = if esc || abs {
        None
    } else {
        stat
    };
    let included = !esc && !abs && include_match && !exclude_match;
    Node { path: owned(target), node_type, included, hash: None }
}

// ---------------------------------------------------------------------------
// The whole graph

/// What stands at a referenced target's path (its type, when the path can
/// be inspected) and whether it matches the include and ignore patterns.
#[derive(Debug, Clone)]
pub struct TargetFacts {
    pub target: String,
    pub stat: Option<NodeType>,
    pub include_match: bool,
    pub exclude_match: bool,
}

/// The facts given for target `p` (the first entry for it), or nothing known:
/// no type, matching no pattern.
pub open spec fn fact_for(facts: Seq<TargetFacts>, p: Seq<char>) -> (Option<NodeType>, bool, bool)
    decreases facts.len(),
{
    if facts.len() == 0 {
        (None, false, false)
    } else if facts[0].target@ == p {
        (facts[0].stat, facts[0].include_match, facts[0].exclude_match)
    } else {
        fact_for(facts.drop_first(), p)
    }
}

/// Whether `n` is the node referenced target `p` becomes, given `facts`.
pub open spec fn referenced_ok(n: Node, p: Seq<char>, facts: Seq<TargetFacts>) -> bool {
    let f = fact_for(facts, p);
    &&& n.path@ == p
    &&& n.hash is None
    &&& uri_spec(p) ==> n.node_type == Some(NodeType::Uri) && !n.included
    &&& !uri_spec(p) ==> n.node_type == (if escapes_root_spec(p) || absolute_spec(p) { None } else { f.0 })
    &&& !uri_spec(p) ==> n.included == (!escapes_root_spec(p) && !absolute_spec(p) && f.1 && !f.2)
}

/// The last of `files` with path `p`, if any.
pub open spec fn last_file(files: Seq<Node>, p: Seq<char>) -> Option<Node>
    decreases files.len(),
{
    if files.len() == 0 {
        None
    } else if files.last().path@ == p {
        Some(files.last())
    } else {
        last_file(files.drop_last(), p)
    }
}

/// Whether the last file with path `p` is an included one.
pub open spec fn included_file(files: Seq<Node>, p: Seq<char>) -> bool {
    match last_file(files, p) {
        Some(f) => f.included,
        None => false,
    }
}

/// Whether some edge targets `p`.
pub open spec fn targeted(edges: Seq<Edge>, p: Seq<char>) -> bool {
    exists|k: int| 0 <= k < edges.len() && #[trigger] edges[k].target@ == p
}

/// Whether a graph's node at `p` is what assembly gives: the last file with
/// that path; else, for a path some edge targets, the referenced node;
/// otherwise nothing.
pub open spec fn assembled_at(g: Graph, files: Seq<Node>, edges: Seq<Edge>, facts: Seq<TargetFacts>, p: Seq<char>) -> bool {
    match last_file(files, p) {
        Some(f) => g.node_at(p) matches Some(n) && node_eqv(n, f),
        None => if targeted(edges, p) {
            g.node_at(p) matches Some(n) && referenced_ok(n, p, facts)
        } else {
            g.node_at(p) is None
        },
    }
}

/// The facts for `target`, looked up.
fn facts_for(facts: &Vec<TargetFacts>, target: &str) -> (r: (Option<NodeType>, bool, bool))
    ensures
        r == fact_for(facts@, target@),
{
    let mut i: usize = 0;
    assert(facts@.subrange(0, facts@.len() as int) =~= facts@);
    while i < facts.len()
        invariant
            i <= facts@.len(),
            fact_for(facts@, target@) == fact_for(facts@.subrange(i as int, facts@.len() as int), target@),
        decreases facts@.len() - i,
    {
        assert(facts@.subrange(i as int, facts@.len() as int).drop_first() =~= facts@.subrange(i + 1, facts@.len() as int));
        if str_eq(facts[i].target.as_str(), target) {
            return (facts[i].stat, facts[i].include_match, facts[i].exclude_match);
        }
        i = i + 1;
    }
    (None, false, false)
}

/// Assemble the graph: a node for every discovered file, then a node for
/// every edge target that is not already one (typed and included from its
/// facts), then the edges, in order. Every edge's target is then a node, and
/// when every edge leaves an included file the graph is well formed.
pub fn assemble_graph(files: &Vec<Node>, edges: &Vec<Edge>, facts: &Vec<TargetFacts>) -> (g: Graph)
    ensures
        sorted_nodes(g.nodes@),
        g.edges@.len() == edges@.len(),
        forall|k: int| 0 <= k < edges@.len() ==> edge_eqv(#[trigger] g.edges@[k], edges@[k]),
        forall|k: int| 0 <= k < g.edges@.len() ==> g.node_at((#[trigger] g.edges@[k]).target@) is Some,
        forall|p: Seq<char>| #[trigger] assembled_at(g, files@, edges@, facts@, p),
        (forall|k: int|
            0 <= k < edges@.len() ==> included_file(files@, #[trigger] edges@[k].source@))
            ==> g.wf(),
{
    let mut g = Graph::new();
    let mut i: usize = 0;
    while i < files.len()
        invariant
            i <= files@.len(),
            sorted_nodes(g.nodes@),
            g.edges@.len() == 0,
            forall|p: Seq<char>| #![trigger g.node_at(p)] match last_file(files@.subrange(0, i as int), p) {
                Some(f) => g.node_at(p) matches Some(n) && node_eqv(n, f),
                None => g.node_at(p) is None,
            },
        decreases files@.len() - i,
    {
        let ghost before = g;
        let n = copy_node(&files[i]);
        let ghost np = n.path@;
        g.add_node(n);
        proof {
            let pre = files@.subrange(0, i as int);
            let post = files@.subrange(0, i + 1);
            assert(post.drop_last() =~= pre);
            assert(post.last() == files@[i as int]);
            assert forall|p: Seq<char>| #![trigger g.node_at(p)] match last_file(post, p) {
                Some(f) => g.node_at(p) matches Some(m) && node_eqv(m, f),
                None => g.node_at(p) is None,
            } by {
                if p != np {
                    assert(g.node_at(p) == before.node_at(p));
                }
            }
        }
        i = i + 1;
    }
    assert(files@.subrange(0, files@.len() as int) =~= files@);
    let mut k: usize = 0;
    while k < edges.len()
        invariant
            k <= edges@.len(),
            sorted_nodes(g.nodes@),
            g.edges@.len() == 0,
            forall|p: Seq<char>| #![trigger g.node_at(p)] match last_file(files@, p) {
                Some(f) => g.node_at(p) matches Some(n) && node_eqv(n, f),
                None => if targeted(edges@.subrange(0, k as int), p) {
                    g.node_at(p) matches Some(n) && referenced_ok(n, p, facts@)
                } else {
                    g.node_at(p) is None
                },
            },
        decreases edges@.len() - k,
    {
        let t = &edges[k].target;
        let ghost tp = t@;
        let ghost before = g;
        proof {
            assert forall|p: Seq<char>| targeted(edges@.subrange(0, k + 1), p) <==> (targeted(edges@.subrange(0, k as int), p) || p == tp) by {
                if targeted(edges@.subrange(0, k + 1), p) {
                    let q = choose|q: int| 0 <= q < k + 1 && #[trigger] edges@.subrange(0, k + 1)[q].target@ == p;
                    if q < k {
                        assert(edges@.subrange(0, k as int)[q].target@ == p);
                    }
                }
                if targeted(edges@.subrange(0, k as int), p) {
                    let q = choose|q: int| 0 <= q < k && #[trigger] edges@.subrange(0, k as int)[q].target@ == p;
                    assert(edges@.subrange(0, k + 1)[q].target@ == p);
                }
                if p == tp {
                    assert(edges@.subrange(0, k + 1)[k as int].target@ == p);
                }
            }
        }
        if g.index_of(t.as_str()).is_none() {
            let (stat, inc, exc) = facts_for(facts, t.as_str());
            let n = referenced_node(t.as_str(), stat, inc, exc);
            proof {
                assert(g.node_at(tp) is None);
                assert(last_file(files@, tp) is None) by {
                    if last_file(files@, tp) is Some {
                        assert(g.node_at(tp) is Some);
                    }
                }
            }
            g.add_node(n);
            proof {
                assert forall|p: Seq<char>| #![trigger g.node_at(p)] match last_file(files@, p) {
                    Some(f) => g.node_at(p) matches Some(m) && node_eqv(m, f),
                    None => if targeted(edges@.subrange(0, k + 1), p) {
                        g.node_at(p) matches Some(m) && referenced_ok(m, p, facts@)
                    } else {
                        g.node_at(p) is None
                    },
                } by {
                    if p != tp {
                        assert(g.node_at(p) == before.node_at(p));
                    }
                }
            }
        } else {
            proof {
                let w = choose|w: int| #[trigger] has_path(g.nodes@, w, tp);
                lemma_index_unique(g.nodes@, w, tp);
                assert(g.node_at(tp) is Some);
                assert forall|p: Seq<char>| #![trigger g.node_at(p)] match last_file(files@, p) {
                    Some(f) => g.node_at(p) matches Some(m) && node_eqv(m, f),
                    None => if targeted(edges@.subrange(0, k + 1), p) {
                        g.node_at(p) matches Some(m) && referenced_ok(m, p, facts@)
                    } else {
                        g.node_at(p) is None
                    },
                } by {
                    if p == tp && last_file(files@, p) is None && !targeted(edges@.subrange(0, k as int), p) {
                        assert(g.node_at(p) is None);
                    }
                }
            }
        }
        k = k + 1;
    }
    assert(edges@.subrange(0, edges@.len() as int) =~= edges@);
    let mut j: usize = 0;
    while j < edges.len()
        invariant
            j <= edges@.len(),
            sorted_nodes(g.nodes@),
            g.edges@.len() == j,
            forall|q: int| 0 <= q < j ==> edge_eqv(#[trigger] g.edges@[q], edges@[q]),
            forall|p: Seq<char>| #[trigger] assembled_at(g, files@, edges@, facts@, p),
        decreases edges@.len() - j,
    {
        let ghost before = g;
        g.add_edge(copy_edge(&edges[j]));
        proof {
            assert forall|p: Seq<char>| #[trigger] assembled_at(g, files@, edges@, facts@, p) by {
                assert(assembled_at(before, files@, edges@, facts@, p));
            }
        }
        j = j + 1;
    }
    proof {
        assert forall|k: int| 0 <= k < g.edges@.len() implies g.node_at((#[trigger] g.edges@[k]).target@) is Some by {
            let p = edges@[k].target@;
            assert(edges@[k].target@ == p);
            assert(targeted(edges@, p));
            assert(assembled_at(g, files@, edges@, facts@, p));
        }
        if forall|k: int|
            0 <= k < edges@.len() ==> included_file(files@, #[trigger] edges@[k].source@) {
            assert forall|k: int| #![trigger g.edges@[k]] 0 <= k < g.edges@.len() implies exists|i: int|
                #[trigger] has_path(g.nodes@, i, g.edges@[k].source@) && g.nodes@[i].included by {
                let p = edges@[k].source@;
                assert(assembled_at(g, files@, edges@, facts@, p));
                let i = index_of(g.nodes@, p)->0;
                assert(has_path(g.nodes@, i, p));
            }
        }
    }
    g
}

} // verus!
