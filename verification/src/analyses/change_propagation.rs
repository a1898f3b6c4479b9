//! What changed since the lock, and what that makes stale: locked nodes
//! whose content changed or disappeared, and every node that depends on one
//! of them through a chain of links.

use vstd::prelude::*;
use crate::graph::{sorted_nodes, Graph};
use crate::impact::{seed_mark_vec, seed_marks, seeded};
use crate::order::seq_lt;
use crate::paths::{hash_bytes, hash_spec, str_eq};
use crate::reach::{allowed, at_level, bfs, bfs_post, lemma_level_unique, reachable, within};
use crate::structure::{graph_adj, graph_rel};
use crate::text::owned;

verus! {

/// A locked node that changed, and why.
#[derive(Debug, Clone)]
pub struct DirectChange {
    pub node: String,
    pub reason: String,
}

/// A node made stale by a change it depends on, and the stale neighbour it
/// depends on.
#[derive(Debug, Clone)]
pub struct TransitiveStale {
    pub node: String,
    pub via: String,
}

/// Whether a lock was there to compare with, what changed, and what that
/// made stale.
#[derive(Debug, Clone)]
pub struct ChangePropagationResult {
    pub has_lockfile: bool,
    pub directly_changed: Vec<DirectChange>,
    pub transitively_stale: Vec<TransitiveStale>,
}

/// The change-propagation analysis.
pub struct ChangePropagation;

/// A locked node as it stands now: its path, the hash the lock recorded, and
/// the file's current content (`None` when it could not be read).
#[derive(Debug, Clone)]
pub struct LockedNow {
    pub node: String,
    pub locked: Option<String>,
    pub content: Option<Vec<u8>>,
}

/// Why a locked node counts as changed, if it does: a node locked with a hash
/// whose file is gone was deleted; one whose content now hashes differently
/// changed. A node locked without a hash (a directory) never changes.
pub open spec fn change_reason(e: LockedNow) -> Option<Seq<char>> {
    match e.locked {
        Some(h) => match e.content {
            None => Some("file deleted"@),
            Some(c) => if hash_spec(c@) != h@ {
                Some("content changed"@)
            } else {
                None
            },
        },
        None => None,
    }
}

/// The changed entries among the first `m`, in order, as (node, reason).
pub open spec fn changes_below(entries: Seq<LockedNow>, m: int) -> Seq<(Seq<char>, Seq<char>)>
    decreases m,
{
    if m <= 0 {
        Seq::empty()
    } else {
        match change_reason(entries[m - 1]) {
            Some(reason) => changes_below(entries, m - 1).push((entries[m - 1].node@, reason)),
            None => changes_below(entries, m - 1),
        }
    }
}

/// Whether the entries name their nodes in strictly increasing order, as a
/// lock file keeps them.
pub open spec fn entries_sorted(entries: Seq<LockedNow>) -> bool {
    forall|i: int, j: int| 0 <= i < j < entries.len() ==> seq_lt(#[trigger] entries[i].node@, #[trigger] entries[j].node@)
}

/// The changes among sorted entries are sorted by node, each node once.
pub proof fn lemma_changes_sorted(entries: Seq<LockedNow>, m: int)
    requires
        entries_sorted(entries),
        0 <= m <= entries.len(),
    ensures
        forall|k: int| 0 <= k < changes_below(entries, m).len() ==> exists|i: int| 0 <= i < m && (#[trigger] changes_below(entries, m)[k]).0 == entries[i].node@,
        forall|k: int, l: int| 0 <= k < l < changes_below(entries, m).len() ==> seq_lt(#[trigger] changes_below(entries, m)[k].0, #[trigger] changes_below(entries, m)[l].0),
    decreases m,
{
    if m > 0 {
        lemma_changes_sorted(entries, m - 1);
        let prev = changes_below(entries, m - 1);
        let cur = changes_below(entries, m);
        if change_reason(entries[m - 1]) is Some {
            assert forall|k: int| 0 <= k < cur.len() implies exists|i: int| 0 <= i < m && (#[trigger] cur[k]).0 == entries[i].node@ by {
                if k < prev.len() {
                    assert(cur[k] == prev[k]);
                    let i = choose|i: int| 0 <= i < m - 1 && (#[trigger] prev[k]).0 == entries[i].node@;
                    assert(0 <= i < m && cur[k].0 == entries[i].node@);
                } else {
                    assert(cur[k].0 == entries[m - 1].node@);
                }
            }
            assert forall|k: int, l: int| 0 <= k < l < cur.len() implies seq_lt(#[trigger] cur[k].0, #[trigger] cur[l].0) by {
                if l < prev.len() {
                    assert(cur[k] == prev[k] && cur[l] == prev[l]);
                } else {
                    assert(cur[k] == prev[k]);
                    let i = choose|i: int| 0 <= i < m - 1 && (#[trigger] prev[k]).0 == entries[i].node@;
                    assert(seq_lt(entries[i].node@, entries[m - 1].node@));
                }
            }
        }
    }
}

/// The nodes named by the direct changes.
pub open spec fn changed_nodes(dc: Seq<DirectChange>) -> Seq<String> {
    dc.map_values(|c: DirectChange| c.node)
}

/// Whether `t` reports node `v` stale through node `p`.
pub open spec fn stale_entry(g: Graph, dc: Seq<DirectChange>, t: TransitiveStale, v: int, p: int) -> bool {
    let n = g.nodes@.len();
    let rel = graph_rel(g, true);
    let src = seed_marks(g, changed_nodes(dc));
    &&& 0 <= v < n
    &&& 0 <= p < n
    &&& t.node@ == g.nodes@[v].path@
    &&& t.via@ == g.nodes@[p].path@
    &&& rel(p, v)
    &&& exists|d: nat| d >= 1 && #[trigger] at_level(rel, src, v, d) && at_level(rel, src, p, (d - 1) as nat)
}

/// Whether `t` reports some node stale.
pub open spec fn reports_stale(g: Graph, dc: Seq<DirectChange>, t: TransitiveStale) -> bool {
    exists|v: int, p: int| #[trigger] stale_entry(g, dc, t, v, p)
}

/// What the analysis reports given the lock's entries as they stand now.
pub open spec fn propagation_spec(g: Graph, entries: Seq<LockedNow>, r: ChangePropagationResult) -> bool {
    let n = g.nodes@.len();
    let dc = r.directly_changed@;
    let ts = r.transitively_stale@;
    let rel = graph_rel(g, true);
    let src = seed_marks(g, changed_nodes(dc));
    &&& r.has_lockfile
    &&& dc.len() == changes_below(entries, entries.len() as int).len()
    &&& forall|k: int|
        0 <= k < dc.len() ==> (#[trigger] dc[k]).node@ == changes_below(entries, entries.len() as int)[k].0
            && dc[k].reason@ == changes_below(entries, entries.len() as int)[k].1
    &&& forall|q: int| 0 <= q < ts.len() ==> #[trigger] reports_stale(g, dc, ts[q])
    &&& forall|v: int|
        0 <= v < n && !src[v] && reachable(rel, src, v) ==> exists|q: int| 0 <= q < ts.len() && #[trigger] ts[q].node@ == g.nodes@[v].path@
    &&& forall|q: int, t: int| 0 <= q < t < ts.len() ==> seq_lt(#[trigger] ts[q].node@, #[trigger] ts[t].node@)
}

/// Whether two strings hold the same characters.
fn same_string(a: &String, b: &String) -> (r: bool)
    ensures
        r == (a@ == b@),
{
    str_eq(a.as_str(), b.as_str())
}

/// The direct changes among the entries, in order.
fn direct_changes(entries: &Vec<LockedNow>) -> (dc: Vec<DirectChange>)
    ensures
        dc@.len() == changes_below(entries@, entries@.len() as int).len(),
        forall|k: int|
            0 <= k < dc@.len() ==> (#[trigger] dc@[k]).node@ == changes_below(entries@, entries@.len() as int)[k].0
                && dc@[k].reason@ == changes_below(entries@, entries@.len() as int)[k].1,
{
    let mut dc: Vec<DirectChange> = Vec::new();
    let mut i: usize = 0;
    while i < entries.len()
        invariant
            i <= entries@.len(),
            dc@.len() == changes_below(entries@, i as int).len(),
            forall|k: int|
                0 <= k < dc@.len() ==> (#[trigger] dc@[k]).node@ == changes_below(entries@, i as int)[k].0
                    && dc@[k].reason@ == changes_below(entries@, i as int)[k].1,
        decreases entries@.len() - i,
    {
        let e = &entries[i];
        let ghost before = dc@;
        let reason: Option<String> = match &e.locked {
            Some(h) => match &e.content {
                None => Some(owned("file deleted")),
                Some(c) => {
                    let current = hash_bytes(c.as_slice());
                    if !same_string(&current, h) {
                        Some(owned("content changed"))
                    } else {
                        None
                    }
                },
            },
            None => None,
        };
        match reason {
            Some(why) => {
                let ghost wv = why@;
                dc.push(DirectChange { node: e.node.clone(), reason: why });
                proof {
                    assert(change_reason(entries@[i as int]) == Some(wv));
                    assert forall|k: int|
                        0 <= k < dc@.len() implies (#[trigger] dc@[k]).node@ == changes_below(entries@, i + 1)[k].0
                            && dc@[k].reason@ == changes_below(entries@, i + 1)[k].1 by {
                        if k < before.len() {
                            assert(dc@[k] == before[k]);
                        }
                    }
                }
            },
            None => {
                assert(change_reason(entries@[i as int]) is None);
            },
        }
        i = i + 1;
    }
    dc
}

/// The paths of the changed nodes.
fn changed_paths(dc: &Vec<DirectChange>) -> (r: Vec<String>)
    ensures
        r@.len() == dc@.len(),
        forall|k: int| 0 <= k < r@.len() ==> (#[trigger] r@[k])@ == dc@[k].node@,
{
    let mut r: Vec<String> = Vec::new();
    let mut k: usize = 0;
    while k < dc.len()
        invariant
            k <= dc@.len(),
            r@.len() == k,
            forall|j: int| 0 <= j < k ==> (#[trigger] r@[j])@ == dc@[j].node@,
        decreases dc@.len() - k,
    {
        r.push(dc[k].node.clone());
        k = k + 1;
    }
    r
}

/// Seeds that name the same paths mark the same nodes.
proof fn lemma_seed_marks_views(g: Graph, a: Seq<String>, b: Seq<String>)
    requires
        a.len() == b.len(),
        forall|k: int| 0 <= k < a.len() ==> (#[trigger] a[k])@ == b[k]@,
    ensures
        seed_marks(g, a) == seed_marks(g, b),
{
    assert forall|i: int| 0 <= i < g.nodes@.len() implies seeded(g, a, i) == seeded(g, b, i) by {
        if seeded(g, a, i) {
            let j = choose|j: int| 0 <= j < a.len() && #[trigger] a[j]@ == g.nodes@[i].path@;
            assert(b[j]@ == g.nodes@[i].path@);
        }
        if seeded(g, b, i) {
            let j = choose|j: int| 0 <= j < b.len() && #[trigger] b[j]@ == g.nodes@[i].path@;
            assert(a[j]@ == g.nodes@[i].path@);
        }
    }
    assert(seed_marks(g, a) =~= seed_marks(g, b));
}

impl ChangePropagation {
    /// The analysis name.
    pub fn name(&self) -> (r: &'static str)
        ensures
            r@ == "change-propagation"@,
    {
        "change-propagation"
    }

    /// Compare the lock with the files as they stand: with no lock there is
    /// nothing to compare. Otherwise every locked node with a hash whose file
    /// is gone or hashes differently is directly changed (in lock order), and
    /// every node that reaches a changed node through a chain of links, and is
    /// not itself changed, is transitively stale — reported once, in path
    /// order, with a stale neighbour one link closer to the change. The
    /// graph holds a node for every edge target, as a built graph does.
    pub fn run(&self, graph: &Graph, lock: Option<&Vec<LockedNow>>) -> (r: ChangePropagationResult)
        requires
            graph.wf(),
        ensures
            lock is None ==> !r.has_lockfile && r.directly_changed@.len() == 0 && r.transitively_stale@.len() == 0,
            lock matches Some(entries) ==> propagation_spec(*graph, entries@, r),
            lock matches Some(entries) && entries_sorted(entries@) ==> forall|k: int, l: int|
                0 <= k < l < r.directly_changed@.len() ==> seq_lt(#[trigger] r.directly_changed@[k].node@, #[trigger] r.directly_changed@[l].node@),
    {
        let entries = match lock {
            None => {
                return ChangePropagationResult {
                    has_lockfile: false,
                    directly_changed: Vec::new(),
                    transitively_stale: Vec::new(),
                };
            },
            Some(e) => e,
        };
        let n = graph.nodes.len();
        let ghost g = *graph;
        let directly_changed = direct_changes(entries);
        proof {
            if entries_sorted(entries@) {
                lemma_changes_sorted(entries@, entries@.len() as int);
                let cb = changes_below(entries@, entries@.len() as int);
                assert forall|k: int, l: int| 0 <= k < l < directly_changed@.len() implies seq_lt(
                    #[trigger] directly_changed@[k].node@,
                    #[trigger] directly_changed@[l].node@,
                ) by {
                    assert(directly_changed@[k].node@ == cb[k].0);
                    assert(directly_changed@[l].node@ == cb[l].0);
                }
            }
        }
        let seeds = changed_paths(&directly_changed);
        let marks = seed_mark_vec(graph, &seeds);
        proof {
            lemma_seed_marks_views(g, seeds@, changed_nodes(directly_changed@));
        }
        let ghost rel = graph_rel(g, true);
        let adj = graph_adj(graph, true);
        let (dist, prev) = bfs(&adj, &marks, None, Ghost(rel));
        let ghost s = marks@;
        let mut stale: Vec<TransitiveStale> = Vec::new();
        let ghost dc = directly_changed@;
        let ghost mut idx: Seq<int> = Seq::empty();
        let mut v: usize = 0;
        while v < n
            invariant
                v <= n,
                n == g.nodes@.len(),
                g == *graph,
                graph.wf(),
                rel == graph_rel(g, true),
                s == seed_marks(g, changed_nodes(dc)),
                bfs_post(rel, s, None, dist@, prev@),
                idx.len() == stale@.len(),
                forall|q: int| 0 <= q < stale@.len() ==> 0 <= #[trigger] idx[q] < v,
                forall|q: int, t: int| 0 <= q < t < stale@.len() ==> #[trigger] idx[q] < #[trigger] idx[t],
                forall|q: int| 0 <= q < stale@.len() ==> #[trigger] stale@[q].node@ == g.nodes@[idx[q]].path@,
                forall|q: int| 0 <= q < stale@.len() ==> #[trigger] reports_stale(g, dc, stale@[q]),
                forall|w: int|
                    0 <= w < v && (match #[trigger] dist@[w] {
                        Some(d) => d >= 1,
                        None => false,
                    }) ==> exists|q: int| 0 <= q < stale@.len() && #[trigger] stale@[q].node@ == g.nodes@[w].path@,
            decreases n - v,
        {
            match dist[v] {
                Some(d) => {
                    if d >= 1 {
                        let p = prev[v];
                        let item = TransitiveStale { node: graph.nodes[v].path.clone(), via: graph.nodes[p].path.clone() };
                        proof {
                            assert(at_level(rel, s, v as int, d as nat));
                            assert(stale_entry(g, dc, item, v as int, p as int));
                        }
                        let ghost before = stale@;
                        stale.push(item);
                        proof {
                            idx = idx.push(v as int);
                            assert forall|q: int| 0 <= q < stale@.len() implies #[trigger] reports_stale(g, dc, stale@[q]) by {
                                if q < before.len() {
                                    assert(stale@[q] == before[q]);
                                } else {
                                    assert(stale_entry(g, dc, stale@[q], v as int, p as int));
                                }
                            }
                            assert forall|q: int| 0 <= q < stale@.len() implies #[trigger] stale@[q].node@ == g.nodes@[idx[q]].path@ by {
                                if q < before.len() {
                                    assert(stale@[q] == before[q]);
                                }
                            }
                            assert forall|w: int|
                                0 <= w < v + 1 && (match #[trigger] dist@[w] {
                                    Some(d) => d >= 1,
                                    None => false,
                                }) implies exists|q: int| 0 <= q < stale@.len() && #[trigger] stale@[q].node@ == g.nodes@[w].path@ by {
                                if w < v {
                                    let q = choose|q: int| 0 <= q < before.len() && #[trigger] before[q].node@ == g.nodes@[w].path@;
                                    assert(stale@[q] == before[q]);
                                } else {
                                    assert(stale@[before.len() as int].node@ == g.nodes@[w].path@);
                                }
                            }
                        }
                    }
                },
                None => {},
            }
            v = v + 1;
        }
        let ghost sv = stale@;
        let r = ChangePropagationResult { has_lockfile: true, directly_changed, transitively_stale: stale };
        proof {
            assert(r.transitively_stale@ == sv);
            assert forall|w: int|
                0 <= w < n && !s[w] && reachable(rel, s, w) implies exists|q: int|
                    0 <= q < r.transitively_stale@.len() && #[trigger] r.transitively_stale@[q].node@ == g.nodes@[w].path@ by {
                let k = choose|k: nat| within(rel, s, w, k);
                let d = crate::reach::lemma_has_level(rel, s, w, k);
                match dist@[w] {
                    Some(e) => {
                        lemma_level_unique(rel, s, w, d, e as nat);
                        if e == 0 {
                            crate::reach::lemma_within_zero(rel, s, w);
                        }
                        assert(match dist@[w] {
                            Some(d) => d >= 1,
                            None => false,
                        });
                        let q = choose|q: int| 0 <= q < sv.len() && #[trigger] sv[q].node@ == g.nodes@[w].path@;
                        assert(r.transitively_stale@[q].node@ == g.nodes@[w].path@);
                    },
                    None => {
                        assert(allowed(d, None));
                        assert(!within(rel, s, w, d));
                    },
                }
            }
            assert forall|q: int, t: int|
                0 <= q < t < r.transitively_stale@.len() implies seq_lt(
                #[trigger] r.transitively_stale@[q].node@,
                #[trigger] r.transitively_stale@[t].node@,
            ) by {
                assert(idx[q] < idx[t]);
                assert(sorted_nodes(g.nodes@));
            }
            assert(propagation_spec(g, entries@, r));
        }
        r
    }
}

} // verus!
