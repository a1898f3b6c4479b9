//! Weakly connected components of the included nodes.

use vstd::prelude::*;
use crate::graph::Graph;
use crate::reach::{
    bfs, bfs_post, lemma_bfs_reachable, lemma_reach_entered, lemma_reach_self, lemma_reach_sym,
    lemma_reach_trans, reachable, single, single_source,
};
use crate::sort::{key_le, sort_by_key, sorted_by_key};
use crate::structure::{keep_pair, sym_adj, sym_rel};

verus! {

/// One component: an id (1-based, in output order) and its member paths in
/// path order.
#[derive(Debug, Clone)]
pub struct Component {
    pub id: usize,
    pub members: Vec<String>,
}

/// The components, largest first, ties broken by first member.
#[derive(Debug, Clone)]
pub struct ConnectedComponentsResult {
    pub component_count: usize,
    pub components: Vec<Component>,
}

/// The connected-components analysis.
pub struct ConnectedComponents;

/// Whether `b` is connected to `a` through edges between included nodes,
/// ignoring direction.
pub open spec fn connected(g: Graph, a: int, b: int) -> bool {
    reachable(sym_rel(g, true, false), single(g.nodes@.len(), a), b)
}

/// Whether `cs` lists the components of `g` exactly as `r` reports them.
pub open spec fn components_spec(g: Graph, r: ConnectedComponentsResult, cs: Seq<Seq<int>>) -> bool {
    let n = g.nodes@.len();
    &&& cs.len() == r.components@.len()
    &&& forall|c: int|
        0 <= c < cs.len() ==> {
            &&& (#[trigger] cs[c]).len() > 0
            &&& r.components@[c].id == c + 1
            &&& r.components@[c].members@.len() == cs[c].len()
            &&& forall|q: int| 0 <= q < cs[c].len() ==> r.components@[c].members@[q]@ == g.nodes@[cs[c][q]].path@
            &&& forall|q1: int, q2: int| 0 <= q1 < q2 < cs[c].len() ==> cs[c][q1] < cs[c][q2]
            &&& forall|w: int| cs[c].contains(w) <==> (0 <= w < n && g.nodes@[w].included && connected(g, cs[c][0], w))
        }
    &&& forall|w: int| 0 <= w < n && g.nodes@[w].included ==> exists|c: int| 0 <= c < cs.len() && (#[trigger] cs[c]).contains(w)
    &&& forall|c: int, d: int| 0 <= c < cs.len() && 0 <= d < cs.len() && c != d ==> !connected(g, (#[trigger] cs[c])[0], (#[trigger] cs[d])[0])
    &&& forall|c: int, d: int|
        0 <= c < d < cs.len() ==> (#[trigger] cs[c]).len() > (#[trigger] cs[d]).len() || (cs[c].len() == cs[d].len() && cs[c][0] < cs[d][0])
}

/// The components partition the included nodes by connection: an included
/// node lies in exactly one component, and two nodes share a component
/// exactly when a path of links between included nodes, taken in either
/// direction, joins them.
pub proof fn lemma_components_partition(g: Graph, r: ConnectedComponentsResult, cs: Seq<Seq<int>>)
    requires
        components_spec(g, r, cs),
    ensures
        forall|c: int, w: int, v: int|
            0 <= c < cs.len() && #[trigger] cs[c].contains(w) ==> (#[trigger] cs[c].contains(v) <==> (
            0 <= v < g.nodes@.len() && g.nodes@[v].included && connected(g, w, v))),
        forall|c: int, d: int, w: int|
            0 <= c < cs.len() && 0 <= d < cs.len() && #[trigger] cs[c].contains(w) && #[trigger] cs[d].contains(w)
                ==> c == d,
{
    let n = g.nodes@.len();
    let rel = sym_rel(g, true, false);
    assert forall|x: int, y: int| #[trigger] rel(x, y) implies rel(y, x) by {}
    assert forall|c: int, w: int, v: int|
        0 <= c < cs.len() && #[trigger] cs[c].contains(w) implies (#[trigger] cs[c].contains(v) <==> (
        0 <= v < n && g.nodes@[v].included && connected(g, w, v))) by {
        let a = cs[c][0];
        assert(cs[c].contains(a));
        assert(0 <= a < n && 0 <= w < n);
        if cs[c].contains(v) {
            lemma_reach_sym(rel, n as nat, a, w);
            lemma_reach_trans(rel, n as nat, w, a, v);
        }
        if 0 <= v < n && g.nodes@[v].included && connected(g, w, v) {
            lemma_reach_trans(rel, n as nat, a, w, v);
        }
    }
    assert forall|c: int, d: int, w: int|
        0 <= c < cs.len() && 0 <= d < cs.len() && #[trigger] cs[c].contains(w) && #[trigger] cs[d].contains(w)
        implies c == d by {
        if c != d {
            let a = cs[c][0];
            let b = cs[d][0];
            assert(cs[c].contains(a) && cs[d].contains(b));
            assert(0 <= w < n && 0 <= b < n);
            lemma_reach_sym(rel, n as nat, b, w);
            lemma_reach_trans(rel, n as nat, a, w, b);
            assert(!connected(g, cs[c][0], cs[d][0]));
        }
    }
}

/// The undirected relation relates included nodes only.
proof fn lemma_urel_included(g: Graph, x: int, y: int)
    requires
        sym_rel(g, true, false)(x, y),
    ensures
        g.nodes@[x].included && g.nodes@[y].included,
{
    assert(keep_pair(g, x, y, true, false) || keep_pair(g, y, x, true, false));
}

/// Connected nodes of an included node are included.
proof fn lemma_connected_included(g: Graph, a: int, w: int)
    requires
        0 <= a < g.nodes@.len(),
        g.nodes@[a].included,
        connected(g, a, w),
    ensures
        g.nodes@[w].included,
{
    if w != a {
        lemma_reach_entered(sym_rel(g, true, false), g.nodes@.len(), a, w);
        let u = choose|u: int| #[trigger] sym_rel(g, true, false)(u, w);
        lemma_urel_included(g, u, w);
    }
}

/// A strictly increasing list of indices below `n` has at most `n` entries.
pub proof fn lemma_strict_len(s: Seq<int>, n: int)
    requires
        0 <= n,
        forall|q1: int, q2: int| 0 <= q1 < q2 < s.len() ==> s[q1] < s[q2],
        forall|q: int| 0 <= q < s.len() ==> 0 <= #[trigger] s[q] < n,
    ensures
        s.len() <= n,
{
    assert forall|q: int| 0 <= q < s.len() implies #[trigger] s[q] >= q by {
        assert(0 <= s[0]);
        lemma_strict_ge(s, q);
    }
    if s.len() > 0 {
        assert(s[s.len() - 1] >= s.len() - 1);
    }
}

proof fn lemma_strict_ge(s: Seq<int>, q: int)
    requires
        forall|q1: int, q2: int| 0 <= q1 < q2 < s.len() ==> s[q1] < s[q2],
        0 <= q < s.len(),
        0 <= s[0],
    ensures
        s[q] >= q,
    decreases q,
{
    if q > 0 {
        lemma_strict_ge(s, q - 1);
    }
}

proof fn lemma_urel_sym(g: Graph)
    ensures
        forall|x: int, y: int| #[trigger] sym_rel(g, true, false)(x, y) ==> sym_rel(g, true, false)(y, x),
{
}

impl ConnectedComponents {
    /// The analysis name.
    pub fn name(&self) -> (r: &'static str)
        ensures
            r@ == "connected-components"@,
    {
        "connected-components"
    }

    /// Group the included nodes by connection, ignoring edge direction and
    /// edges that touch a node that is not included. Each component lists its
    /// members in path order; components come largest first, ties broken by
    /// their first member, numbered from 1.
    pub fn run(&self, graph: &Graph) -> (r: ConnectedComponentsResult)
        requires
            graph.wf(),
        ensures
            r.component_count == r.components@.len(),
            exists|cs: Seq<Seq<int>>| components_spec(*graph, r, cs),
    {
        let n = graph.nodes.len();
        let adj = sym_adj(graph, true, false);
        let ghost rel = sym_rel(*graph, true, false);
        proof {
            lemma_urel_sym(*graph);
        }
        let mut assigned: Vec<bool> = Vec::new();
        let mut i: usize = 0;
        while i < n
            invariant
                i <= n,
                assigned@.len() == i,
                forall|w: int| 0 <= w < i ==> !(#[trigger] assigned@[w]),
            decreases n - i,
        {
            assigned.push(false);
            i = i + 1;
        }
        let mut groups: Vec<Vec<usize>> = Vec::new();
        let ghost mut gs: Seq<Seq<int>> = Seq::empty();
        let mut v: usize = 0;
        while v < n
            invariant
                v <= n,
                n == graph.nodes@.len(),
                adj@.len() == n,
                crate::reach::adj_ok(adj@),
                rel == sym_rel(*graph, true, false),
                forall|x: int, y: int| #[trigger] rel(x, y) ==> rel(y, x),
                forall|u: int, w: int| 0 <= u < adj@.len() ==> (#[trigger] rel(u, w) <==> crate::reach::edge(adj@, u, w)),
                forall|u: int, w: int| #[trigger] rel(u, w) ==> 0 <= u < adj@.len() && 0 <= w < adj@.len(),
                assigned@.len() == n,
                groups@.len() == gs.len(),
                forall|c: int| 0 <= c < gs.len() ==> (#[trigger] groups@[c])@.len() == gs[c].len()
                    && forall|q: int| 0 <= q < gs[c].len() ==> groups@[c]@[q] as int == gs[c][q],
                forall|c: int|
                    0 <= c < gs.len() ==> {
                        &&& (#[trigger] gs[c]).len() > 0
                        &&& 0 <= gs[c][0] < v
                        &&& graph.nodes@[gs[c][0]].included
                        &&& forall|q1: int, q2: int| 0 <= q1 < q2 < gs[c].len() ==> gs[c][q1] < gs[c][q2]
                        &&& forall|w: int| gs[c].contains(w) <==> (0 <= w < n && graph.nodes@[w].included && connected(*graph, gs[c][0], w))
                    },
                forall|w: int| 0 <= w < n ==> (#[trigger] assigned@[w] <==> exists|c: int| 0 <= c < gs.len() && (#[trigger] gs[c]).contains(w)),
                forall|w: int| 0 <= w < v && graph.nodes@[w].included ==> #[trigger] assigned@[w],
                forall|c: int, d: int| 0 <= c < gs.len() && 0 <= d < gs.len() && c != d ==> !connected(*graph, (#[trigger] gs[c])[0], (#[trigger] gs[d])[0]),
                forall|c: int, d: int| 0 <= c < d < gs.len() ==> (#[trigger] gs[c])[0] < (#[trigger] gs[d])[0],
            decreases n - v,
        {
            if graph.nodes[v].included && !assigned[v] {
                let src = single_source(n, v);
                let (dist, prev) = bfs(&adj, &src, None, Ghost(rel));
                let mut members: Vec<usize> = Vec::new();
                let ghost mut ms: Seq<int> = Seq::empty();
                let ghost assigned0 = assigned@;
                let mut w: usize = 0;
                while w < n
                    invariant
                        w <= n,
                        v < n,
                        n == graph.nodes@.len(),
                        rel == sym_rel(*graph, true, false),
                        bfs_post(rel, src@, None, dist@, prev@),
                        src@ == single(n as nat, v as int),
                        assigned@.len() == n,
                        members@.len() == ms.len(),
                        forall|q: int| 0 <= q < ms.len() ==> members@[q] as int == ms[q],
                        forall|q1: int, q2: int| 0 <= q1 < q2 < ms.len() ==> ms[q1] < ms[q2],
                        forall|q: int| 0 <= q < ms.len() ==> ms[q] < w,
                        forall|x: int| ms.contains(x) <==> (0 <= x < w && connected(*graph, v as int, x)),
                        forall|x: int| 0 <= x < n ==> (#[trigger] assigned@[x] <==> (assigned0[x] || ms.contains(x))),
                    decreases n - w,
                {
                    proof {
                        lemma_bfs_reachable(rel, src@, dist@, prev@, w as int);
                    }
                    if dist[w].is_some() {
                        members.push(w);
                        assigned.set(w, true);
                        proof {
                            let old_ms = ms;
                            ms = ms.push(w as int);
                            assert forall|x: int| ms.contains(x) <==> (0 <= x < w + 1 && connected(*graph, v as int, x)) by {
                                if ms.contains(x) {
                                    let q = choose|q: int| 0 <= q < ms.len() && ms[q] == x;
                                    if q < old_ms.len() {
                                        assert(old_ms.contains(x));
                                    }
                                }
                                if 0 <= x < w + 1 && connected(*graph, v as int, x) {
                                    if x < w {
                                        assert(old_ms.contains(x));
                                        let q = choose|q: int| 0 <= q < old_ms.len() && old_ms[q] == x;
                                        assert(ms[q] == x);
                                    } else {
                                        assert(ms[old_ms.len() as int] == x);
                                    }
                                }
                            }
                            assert forall|x: int| 0 <= x < n implies (#[trigger] assigned@[x] <==> (assigned0[x] || ms.contains(x))) by {
                                if old_ms.contains(x) {
                                    let q = choose|q: int| 0 <= q < old_ms.len() && old_ms[q] == x;
                                    assert(ms[q] == x);
                                }
                                if ms.contains(x) && x != w {
                                    let q = choose|q: int| 0 <= q < ms.len() && ms[q] == x;
                                    assert(q < old_ms.len());
                                    assert(old_ms.contains(x));
                                }
                                if x == w {
                                    assert(ms[old_ms.len() as int] == x);
                                }
                            }
                        }
                    } else {
                        proof {
                            assert forall|x: int| ms.contains(x) <==> (0 <= x < w + 1 && connected(*graph, v as int, x)) by {
                                if ms.contains(x) {
                                    let q = choose|q: int| 0 <= q < ms.len() && ms[q] == x;
                                }
                            }
                        }
                    }
                    w = w + 1;
                }
                proof {
                    lemma_reach_self(rel, n as nat, v as int);
                    assert(ms.contains(v as int));
                    // v is the smallest member: anything smaller and connected would
                    // already be assigned, which would have assigned v.
                    assert forall|x: int| 0 <= x < v implies !connected(*graph, v as int, x) by {
                        if connected(*graph, v as int, x) {
                            lemma_connected_included(*graph, v as int, x);
                            assert(assigned0[x]);
                            let c = choose|c: int| 0 <= c < gs.len() && (#[trigger] gs[c]).contains(x);
                            assert(connected(*graph, gs[c][0], x));
                            lemma_reach_sym(rel, n as nat, v as int, x);
                            lemma_reach_trans(rel, n as nat, gs[c][0], x, v as int);
                            assert(gs[c].contains(v as int));
                            assert(assigned0[v as int]);
                        }
                    }
                    let q0 = choose|q: int| 0 <= q < ms.len() && ms[q] == v as int;
                    if q0 > 0 {
                        assert(ms[0] < ms[q0]);
                        assert(ms.contains(ms[0]));
                    }
                    assert(ms[0] == v as int);
                    assert forall|x: int| ms.contains(x) implies graph.nodes@[x].included by {
                        lemma_connected_included(*graph, v as int, x);
                    }
                    assert forall|c: int| 0 <= c < gs.len() implies !connected(*graph, gs[c][0], v as int) && !connected(*graph, v as int, gs[c][0]) by {
                        if connected(*graph, gs[c][0], v as int) {
                            assert(gs[c].contains(v as int));
                        }
                        if connected(*graph, v as int, gs[c][0]) {
                            lemma_reach_sym(rel, n as nat, v as int, gs[c][0]);
                            assert(gs[c].contains(v as int));
                        }
                    }
                }
                let ghost old_gs = gs;
                let ghost old_groups = groups@;
                groups.push(members);
                proof {
                    gs = gs.push(ms);
                    assert forall|w2: int| 0 <= w2 < n implies (#[trigger] assigned@[w2] <==> exists|c: int| 0 <= c < gs.len() && (#[trigger] gs[c]).contains(w2)) by {
                        if assigned@[w2] {
                            if assigned0[w2] {
                                let c = choose|c: int| 0 <= c < old_gs.len() && (#[trigger] old_gs[c]).contains(w2);
                                assert(gs[c] == old_gs[c]);
                            } else {
                                assert(gs[old_gs.len() as int] == ms);
                            }
                        }
                        if exists|c: int| 0 <= c < gs.len() && (#[trigger] gs[c]).contains(w2) {
                            let c = choose|c: int| 0 <= c < gs.len() && (#[trigger] gs[c]).contains(w2);
                            if c < old_gs.len() {
                                assert(old_gs[c] == gs[c]);
                            }
                        }
                    }
                    assert forall|c: int| 0 <= c < gs.len() implies (#[trigger] groups@[c])@.len() == gs[c].len()
                        && forall|q: int| 0 <= q < gs[c].len() ==> groups@[c]@[q] as int == gs[c][q] by {
                        if c < old_gs.len() {
                            assert(groups@[c] == old_groups[c]);
                        }
                    }
                }
            }
            v = v + 1;
        }
        // Order the groups: larger first, then by first member.
        proof {
            assert forall|d: int| 0 <= d < gs.len() implies (#[trigger] gs[d]).len() <= n by {
                assert forall|q: int| 0 <= q < gs[d].len() implies 0 <= #[trigger] gs[d][q] < n by {
                    assert(gs[d].contains(gs[d][q]));
                }
                lemma_strict_len(gs[d], n as int);
            }
        }
        let mut rows: Vec<(usize, usize, usize)> = Vec::new();
        let mut c: usize = 0;
        while c < groups.len()
            invariant
                c <= groups@.len(),
                n == graph.nodes@.len(),
                groups@.len() == gs.len(),
                forall|d: int| 0 <= d < gs.len() ==> (#[trigger] groups@[d])@.len() == gs[d].len()
                    && forall|q: int| 0 <= q < gs[d].len() ==> groups@[d]@[q] as int == gs[d][q],
                forall|d: int| 0 <= d < gs.len() ==> (#[trigger] gs[d]).len() > 0 && 0 <= gs[d][0] < n && gs[d].len() <= n,
                rows@.len() == c,
                forall|d: int| 0 <= d < gs.len() ==> forall|w: int| (#[trigger] gs[d]).contains(w) ==> 0 <= w < n,
                forall|d: int| 0 <= d < c ==> #[trigger] rows@[d] == ((n - gs[d].len()) as usize, gs[d][0] as usize, d as usize),
            decreases groups@.len() - c,
        {
            let size = groups[c].len();
            let first = groups[c][0];
            rows.push((n - size, first, c));
            c = c + 1;
        }
        let sorted = sort_by_key(&rows);
        proof {
            assert(rows@.no_duplicates()) by {
                assert forall|i: int, j: int| 0 <= i < rows@.len() && 0 <= j < rows@.len() && i != j implies rows@[i] != rows@[j] by {
                    assert(rows@[i].2 == i && rows@[j].2 == j);
                }
            }
            rows@.lemma_multiset_has_no_duplicates();
            assert forall|x: (usize, usize, usize)| sorted@.to_multiset().contains(x) implies sorted@.to_multiset().count(x) == 1 by {}
            sorted@.lemma_multiset_has_no_duplicates_conv();
            assert forall|i: int| 0 <= i < sorted@.len() implies #[trigger] sorted@[i] == rows@[sorted@[i].2 as int] && sorted@[i].2 < gs.len() by {
                vstd::seq_lib::to_multiset_contains(sorted@, sorted@[i]);
                vstd::seq_lib::to_multiset_contains(rows@, sorted@[i]);
                assert(sorted@.contains(sorted@[i]));
                let d = choose|d: int| 0 <= d < rows@.len() && rows@[d] == sorted@[i];
                assert(rows@[d].2 == d);
            }
        }
        let ghost cs: Seq<Seq<int>> = Seq::new(sorted@.len(), |i: int| gs[sorted@[i].2 as int]);
        let mut components: Vec<Component> = Vec::new();
        let mut q: usize = 0;
        while q < sorted.len()
            invariant
                q <= sorted@.len(),
                n == graph.nodes@.len(),
                groups@.len() == gs.len(),
                forall|d: int| 0 <= d < gs.len() ==> (#[trigger] groups@[d])@.len() == gs[d].len()
                    && forall|k: int| 0 <= k < gs[d].len() ==> groups@[d]@[k] as int == gs[d][k],
                forall|d: int| 0 <= d < gs.len() ==> forall|w: int| (#[trigger] gs[d]).contains(w) ==> 0 <= w < n,
                forall|i: int| 0 <= i < sorted@.len() ==> (#[trigger] sorted@[i]).2 < gs.len(),
                cs.len() == sorted@.len(),
                forall|i: int| 0 <= i < cs.len() ==> #[trigger] cs[i] == gs[sorted@[i].2 as int],
                components@.len() == q,
                forall|i: int| 0 <= i < q ==> {
                    &&& (#[trigger] components@[i]).id == i + 1
                    &&& components@[i].members@.len() == cs[i].len()
                    &&& forall|k: int| 0 <= k < cs[i].len() ==> components@[i].members@[k]@ == graph.nodes@[cs[i][k]].path@
                },
            decreases sorted@.len() - q,
        {
            let row = sorted[q];
            let grp = &groups[row.2];
            proof {
                assert(cs[q as int] == gs[row.2 as int]);
                assert forall|j: int| 0 <= j < grp@.len() implies grp@[j] < n by {
                    assert(gs[row.2 as int].contains(gs[row.2 as int][j]));
                }
            }
            let mut members: Vec<String> = Vec::new();
            let mut k: usize = 0;
            while k < grp.len()
                invariant
                    k <= grp@.len(),
                    n == graph.nodes@.len(),
                    grp@.len() == cs[q as int].len(),
                    forall|j: int| 0 <= j < grp@.len() ==> grp@[j] as int == cs[q as int][j],
                    forall|j: int| 0 <= j < grp@.len() ==> grp@[j] < n,
                    members@.len() == k,
                    forall|j: int| 0 <= j < k ==> members@[j]@ == graph.nodes@[cs[q as int][j]].path@,
                decreases grp@.len() - k,
            {
                members.push(graph.nodes[grp[k]].path.clone());
                k = k + 1;
            }
            components.push(Component { id: q + 1, members });
            q = q + 1;
        }
        let r = ConnectedComponentsResult { component_count: components.len(), components };
        proof {
            assert forall|w: int| 0 <= w < n && graph.nodes@[w].included implies exists|c: int| 0 <= c < cs.len() && (#[trigger] cs[c]).contains(w) by {
                assert(assigned@[w]);
                let d = choose|d: int| 0 <= d < gs.len() && (#[trigger] gs[d]).contains(w);
                assert(rows@[d].2 == d);
                vstd::seq_lib::to_multiset_contains(rows@, rows@[d]);
                vstd::seq_lib::to_multiset_contains(sorted@, rows@[d]);
                assert(rows@.contains(rows@[d]));
                let i = choose|i: int| 0 <= i < sorted@.len() && sorted@[i] == rows@[d];
                assert(cs[i] == gs[d]);
            }
            assert forall|c: int, d: int| 0 <= c < cs.len() && 0 <= d < cs.len() && c != d implies !connected(*graph, (#[trigger] cs[c])[0], (#[trigger] cs[d])[0]) by {
                assert(sorted@[c] != sorted@[d]);
                assert(sorted@[c] == rows@[sorted@[c].2 as int]);
                assert(sorted@[d] == rows@[sorted@[d].2 as int]);
            }
            assert forall|c: int, d: int| 0 <= c < d < cs.len() implies (#[trigger] cs[c]).len() > (#[trigger] cs[d]).len() || (cs[c].len() == cs[d].len() && cs[c][0] < cs[d][0]) by {
                assert(key_le(sorted@[c], sorted@[d]));
                assert(sorted@[c] == rows@[sorted@[c].2 as int]);
                assert(sorted@[d] == rows@[sorted@[d].2 as int]);
                assert(sorted@[c] != sorted@[d]);
                let gc = sorted@[c].2 as int;
                let gd = sorted@[d].2 as int;
                assert(gc != gd);
                if gc < gd {
                    assert(gs[gc][0] < gs[gd][0]);
                } else {
                    assert(gs[gd][0] < gs[gc][0]);
                }
            }
            assert(components_spec(*graph, r, cs));
        }
        r

    }
}

} // verus!
