//! Strongly connected components of the included nodes: groups of nodes
//! that all reach one another along edges between included nodes.

use vstd::prelude::*;
use crate::analyses::connected_components::lemma_strict_len;
use crate::analyses::{included_below, included_indices, lemma_included_below};
use crate::graph::Graph;
use crate::reach::{
    bfs, bfs_post, lemma_bfs_reachable, lemma_reach_entered, lemma_reach_reverse, lemma_reach_self,
    lemma_reach_trans, reachable, single, single_source,
};
use crate::sort::{key_le, sort_by_key};
use crate::structure::{edge_ends, g_edge, incl_adj, incl_rel, opt_int};

verus! {

/// One non-trivial component: an id (1-based, in output order) and its
/// member paths in path order.
#[derive(Debug, Clone)]
pub struct Scc {
    pub id: usize,
    pub members: Vec<String>,
}

/// All components counted, the non-trivial ones listed (largest first, ties
/// broken by first member), and every included node's component number
/// (components numbered by their first member, in path order).
#[derive(Debug, Clone)]
pub struct SccResult {
    pub scc_count: usize,
    pub nontrivial_count: usize,
    pub sccs: Vec<Scc>,
    pub node_scc: Vec<(String, usize)>,
}

/// The strongly-connected-components analysis.
pub struct StronglyConnectedComponents;

/// Whether `b` can be reached from `a` along edges between included nodes.
pub open spec fn reaches(g: Graph, a: int, b: int) -> bool {
    reachable(incl_rel(g, false), single(g.nodes@.len(), a), b)
}

/// Whether `a` and `b` reach each other.
pub open spec fn strongly_connected(g: Graph, a: int, b: int) -> bool {
    reaches(g, a, b) && reaches(g, b, a)
}

/// Whether component `c` is non-trivial: more than one member, or a single
/// member that links itself.
pub open spec fn nontrivial(g: Graph, c: Seq<int>) -> bool {
    c.len() > 1 || g_edge(g, c[0], c[0])
}

/// Whether `c` lists, in increasing order, exactly the included nodes
/// strongly connected to its first member.
pub open spec fn group_ok(g: Graph, c: Seq<int>) -> bool {
    let n = g.nodes@.len();
    &&& c.len() > 0
    &&& 0 <= c[0] < n
    &&& g.nodes@[c[0]].included
    &&& forall|q1: int, q2: int| 0 <= q1 < q2 < c.len() ==> c[q1] < c[q2]
    &&& forall|w: int| c.contains(w) <==> (0 <= w < n && g.nodes@[w].included && strongly_connected(g, c[0], w))
}

/// Whether `gs` lists every component of the included nodes once, ordered by
/// first member.
pub open spec fn groups_spec(g: Graph, gs: Seq<Seq<int>>) -> bool {
    let n = g.nodes@.len();
    &&& forall|c: int| 0 <= c < gs.len() ==> group_ok(g, #[trigger] gs[c])
    &&& forall|w: int| 0 <= w < n && g.nodes@[w].included ==> exists|c: int| 0 <= c < gs.len() && (#[trigger] gs[c]).contains(w)
    &&& forall|c: int, d: int| 0 <= c < d < gs.len() ==> (#[trigger] gs[c])[0] < (#[trigger] gs[d])[0]
    &&& forall|c: int, d: int|
        0 <= c < gs.len() && 0 <= d < gs.len() && c != d ==> !strongly_connected(g, (#[trigger] gs[c])[0], (#[trigger] gs[d])[0])
}

/// Whether `r` reports the components `gs` of `g`, with `cs` the non-trivial
/// ones in output order.
pub open spec fn scc_spec(g: Graph, r: SccResult, gs: Seq<Seq<int>>, cs: Seq<Seq<int>>) -> bool {
    let ii = included_indices(g);
    &&& groups_spec(g, gs)
    &&& r.scc_count == gs.len()
    &&& r.node_scc@.len() == ii.len()
    &&& forall|q: int|
        0 <= q < ii.len() ==> {
            &&& (#[trigger] r.node_scc@[q]).0@ == g.nodes@[ii[q]].path@
            &&& 1 <= r.node_scc@[q].1 <= gs.len()
            &&& gs[r.node_scc@[q].1 - 1].contains(ii[q])
        }
    &&& r.nontrivial_count == cs.len()
    &&& r.sccs@.len() == cs.len()
    &&& forall|i: int| 0 <= i < cs.len() ==> nontrivial(g, #[trigger] cs[i]) && exists|c: int| 0 <= c < gs.len() && gs[c] == cs[i]
    &&& forall|c: int| 0 <= c < gs.len() && nontrivial(g, #[trigger] gs[c]) ==> exists|i: int| 0 <= i < cs.len() && cs[i] == gs[c]
    &&& forall|i: int|
        0 <= i < cs.len() ==> {
            &&& (#[trigger] r.sccs@[i]).id == i + 1
            &&& r.sccs@[i].members@.len() == cs[i].len()
            &&& forall|k: int| 0 <= k < cs[i].len() ==> r.sccs@[i].members@[k]@ == g.nodes@[cs[i][k]].path@
        }
    &&& forall|i: int, j: int|
        0 <= i < j < cs.len() ==> (#[trigger] cs[i]).len() > (#[trigger] cs[j]).len() || (cs[i].len() == cs[j].len() && cs[i][0] < cs[j][0])
}

proof fn lemma_rel_reverse(g: Graph)
    ensures
        forall|x: int, y: int|
            #![trigger incl_rel(g, true)(x, y)]
            #![trigger incl_rel(g, false)(y, x)]
            incl_rel(g, true)(x, y) <==> incl_rel(g, false)(y, x),
        forall|x: int, y: int|
            #![trigger incl_rel(g, false)(x, y)]
            #![trigger incl_rel(g, true)(y, x)]
            incl_rel(g, false)(x, y) <==> incl_rel(g, true)(y, x),
{
}

/// Nodes reached from an included node are included.
proof fn lemma_reached_included(g: Graph, a: int, w: int)
    requires
        0 <= a < g.nodes@.len(),
        g.nodes@[a].included,
        reaches(g, a, w),
    ensures
        g.nodes@[w].included,
{
    if w != a {
        lemma_reach_entered(incl_rel(g, false), g.nodes@.len(), a, w);
        let u = choose|u: int| #[trigger] incl_rel(g, false)(u, w);
    }
}

/// Strong connection is transitive.
proof fn lemma_sc_trans(g: Graph, a: int, b: int, c: int)
    requires
        0 <= a < g.nodes@.len(),
        0 <= b < g.nodes@.len(),
        0 <= c < g.nodes@.len(),
        strongly_connected(g, a, b),
        strongly_connected(g, b, c),
    ensures
        strongly_connected(g, a, c),
{
    let n = g.nodes@.len();
    lemma_reach_trans(incl_rel(g, false), n, a, b, c);
    lemma_reach_trans(incl_rel(g, false), n, c, b, a);
}

/// The components of the included nodes, ordered by first member.
pub(crate) fn scc_groups(graph: &Graph) -> (r: (Vec<Vec<usize>>, Ghost<Seq<Seq<int>>>))
    requires
        graph.wf(),
    ensures
        groups_spec(*graph, r.1@),
        r.0@.len() == r.1@.len(),
        forall|c: int| 0 <= c < r.1@.len() ==> (#[trigger] r.0@[c])@.len() == r.1@[c].len()
            && forall|q: int| 0 <= q < r.1@[c].len() ==> r.0@[c]@[q] as int == r.1@[c][q],
{
    let n = graph.nodes.len();
    let ghost g = *graph;
    let fadj = incl_adj(graph, false);
    let radj = incl_adj(graph, true);
    let ghost frel = incl_rel(g, false);
    let ghost rrel = incl_rel(g, true);
    proof {
        lemma_rel_reverse(g);
    }
    let mut assigned: Vec<bool> = Vec::new();
    let mut i: usize = 0;
    while i < n
        invariant
            i <= n,
            assigned@.len() == i,
            forall|w: int| 0 <= w < i ==> !(#[trigger] assigned@[w]),
        decreases n - i,
    {
        assigned.push(false);
        i = i + 1;
    }
    let mut groups: Vec<Vec<usize>> = Vec::new();
    let ghost mut gs: Seq<Seq<int>> = Seq::empty();
    let mut v: usize = 0;
    while v < n
        invariant
            v <= n,
            n == graph.nodes@.len(),
            g == *graph,
            fadj@.len() == n,
            radj@.len() == n,
            crate::reach::adj_ok(fadj@),
            crate::reach::adj_ok(radj@),
            frel == incl_rel(g, false),
            rrel == incl_rel(g, true),
            forall|x: int, y: int| #![trigger rrel(x, y)] #![trigger frel(y, x)] rrel(x, y) <==> frel(y, x),
            forall|x: int, y: int| #![trigger frel(x, y)] #![trigger rrel(y, x)] frel(x, y) <==> rrel(y, x),
            forall|u: int, w: int| 0 <= u < fadj@.len() ==> (#[trigger] frel(u, w) <==> crate::reach::edge(fadj@, u, w)),
            forall|u: int, w: int| #[trigger] frel(u, w) ==> 0 <= u < fadj@.len() && 0 <= w < fadj@.len(),
            forall|u: int, w: int| 0 <= u < radj@.len() ==> (#[trigger] rrel(u, w) <==> crate::reach::edge(radj@, u, w)),
            forall|u: int, w: int| #[trigger] rrel(u, w) ==> 0 <= u < radj@.len() && 0 <= w < radj@.len(),
            assigned@.len() == n,
            groups@.len() == gs.len(),
            forall|c: int| 0 <= c < gs.len() ==> (#[trigger] groups@[c])@.len() == gs[c].len()
                && forall|q: int| 0 <= q < gs[c].len() ==> groups@[c]@[q] as int == gs[c][q],
            forall|c: int| 0 <= c < gs.len() ==> group_ok(g, #[trigger] gs[c]) && gs[c][0] < v,
            forall|w: int| 0 <= w < n ==> (#[trigger] assigned@[w] <==> exists|c: int| 0 <= c < gs.len() && (#[trigger] gs[c]).contains(w)),
            forall|w: int| 0 <= w < v && graph.nodes@[w].included ==> #[trigger] assigned@[w],
            forall|c: int, d: int| 0 <= c < gs.len() && 0 <= d < gs.len() && c != d ==> !strongly_connected(g, (#[trigger] gs[c])[0], (#[trigger] gs[d])[0]),
            forall|c: int, d: int| 0 <= c < d < gs.len() ==> (#[trigger] gs[c])[0] < (#[trigger] gs[d])[0],
        decreases n - v,
    {
        if graph.nodes[v].included && !assigned[v] {
            let src = single_source(n, v);
            let (fdist, fprev) = bfs(&fadj, &src, None, Ghost(frel));
            let (rdist, rprev) = bfs(&radj, &src, None, Ghost(rrel));
            let mut members: Vec<usize> = Vec::new();
            let ghost mut ms: Seq<int> = Seq::empty();
            let ghost assigned0 = assigned@;
            let mut w: usize = 0;
            while w < n
                invariant
                    w <= n,
                    v < n,
                    n == graph.nodes@.len(),
                    g == *graph,
                    frel == incl_rel(g, false),
                    rrel == incl_rel(g, true),
                    forall|x: int, y: int| #![trigger rrel(x, y)] #![trigger frel(y, x)] rrel(x, y) <==> frel(y, x),
                    forall|x: int, y: int| #![trigger frel(x, y)] #![trigger rrel(y, x)] frel(x, y) <==> rrel(y, x),
                    bfs_post(frel, src@, None, fdist@, fprev@),
                    bfs_post(rrel, src@, None, rdist@, rprev@),
                    src@ == single(n as nat, v as int),
                    assigned@.len() == n,
                    members@.len() == ms.len(),
                    forall|q: int| 0 <= q < ms.len() ==> members@[q] as int == ms[q],
                    forall|q1: int, q2: int| 0 <= q1 < q2 < ms.len() ==> ms[q1] < ms[q2],
                    forall|q: int| 0 <= q < ms.len() ==> ms[q] < w,
                    forall|x: int| ms.contains(x) <==> (0 <= x < w && strongly_connected(g, v as int, x)),
                    forall|x: int| 0 <= x < n ==> (#[trigger] assigned@[x] <==> (assigned0[x] || ms.contains(x))),
                decreases n - w,
            {
                proof {
                    lemma_bfs_reachable(frel, src@, fdist@, fprev@, w as int);
                    lemma_bfs_reachable(rrel, src@, rdist@, rprev@, w as int);
                    if rdist@[w as int] is Some {
                        lemma_reach_reverse(rrel, frel, n as nat, v as int, w as int);
                    }
                    if reaches(g, w as int, v as int) {
                        lemma_reach_reverse(frel, rrel, n as nat, w as int, v as int);
                    }
                    assert(strongly_connected(g, v as int, w as int) <==> (fdist@[w as int] is Some && rdist@[w as int] is Some));
                }
                if fdist[w].is_some() && rdist[w].is_some() {
                    members.push(w);
                    assigned.set(w, true);
                    proof {
                        let old_ms = ms;
                        ms = ms.push(w as int);
                        assert forall|x: int| ms.contains(x) <==> (0 <= x < w + 1 && strongly_connected(g, v as int, x)) by {
                            if ms.contains(x) {
                                let q = choose|q: int| 0 <= q < ms.len() && ms[q] == x;
                                if q < old_ms.len() {
                                    assert(old_ms.contains(x));
                                }
                            }
                            if 0 <= x < w + 1 && strongly_connected(g, v as int, x) {
                                if x < w {
                                    assert(old_ms.contains(x));
                                    let q = choose|q: int| 0 <= q < old_ms.len() && old_ms[q] == x;
                                    assert(ms[q] == x);
                                } else {
                                    assert(ms[old_ms.len() as int] == x);
                                }
                            }
                        }
                        assert forall|x: int| 0 <= x < n implies (#[trigger] assigned@[x] <==> (assigned0[x] || ms.contains(x))) by {
                            if old_ms.contains(x) {
                                let q = choose|q: int| 0 <= q < old_ms.len() && old_ms[q] == x;
                                assert(ms[q] == x);
                            }
                            if ms.contains(x) && x != w {
                                let q = choose|q: int| 0 <= q < ms.len() && ms[q] == x;
                                assert(q < old_ms.len());
                                assert(old_ms.contains(x));
                            }
                            if x == w {
                                assert(ms[old_ms.len() as int] == x);
                            }
                        }
                    }
                } else {
                    proof {
                        assert forall|x: int| ms.contains(x) <==> (0 <= x < w + 1 && strongly_connected(g, v as int, x)) by {
                            if ms.contains(x) {
                                let q = choose|q: int| 0 <= q < ms.len() && ms[q] == x;
                            }
                        }
                    }
                }
                w = w + 1;
            }
            proof {
                lemma_reach_self(frel, n as nat, v as int);
                assert(ms.contains(v as int));
                assert forall|x: int| 0 <= x < v implies !strongly_connected(g, v as int, x) by {
                    if strongly_connected(g, v as int, x) {
                        lemma_reached_included(g, v as int, x);
                        assert(assigned0[x]);
                        let c = choose|c: int| 0 <= c < gs.len() && (#[trigger] gs[c]).contains(x);
                        assert(group_ok(g, gs[c]));
                        assert(strongly_connected(g, gs[c][0], x));
                        lemma_sc_trans(g, gs[c][0], x, v as int);
                        assert(gs[c].contains(v as int));
                        assert(assigned0[v as int]);
                    }
                }
                let q0 = choose|q: int| 0 <= q < ms.len() && ms[q] == v as int;
                if q0 > 0 {
                    assert(ms[0] < ms[q0]);
                    assert(ms.contains(ms[0]));
                }
                assert(ms[0] == v as int);
                assert forall|x: int| ms.contains(x) implies graph.nodes@[x].included by {
                    lemma_reached_included(g, v as int, x);
                }
                assert(group_ok(g, ms));
                assert forall|c: int| 0 <= c < gs.len() implies !strongly_connected(g, gs[c][0], v as int) && !strongly_connected(g, v as int, gs[c][0]) by {
                    assert(group_ok(g, gs[c]));
                    if strongly_connected(g, gs[c][0], v as int) {
                        assert(gs[c].contains(v as int));
                    }
                }
            }
            let ghost old_gs = gs;
            let ghost old_groups = groups@;
            groups.push(members);
            proof {
                gs = gs.push(ms);
                assert forall|w2: int| 0 <= w2 < n implies (#[trigger] assigned@[w2] <==> exists|c: int| 0 <= c < gs.len() && (#[trigger] gs[c]).contains(w2)) by {
                    if assigned@[w2] {
                        if assigned0[w2] {
                            let c = choose|c: int| 0 <= c < old_gs.len() && (#[trigger] old_gs[c]).contains(w2);
                            assert(gs[c] == old_gs[c]);
                        } else {
                            assert(gs[old_gs.len() as int] == ms);
                        }
                    }
                    if exists|c: int| 0 <= c < gs.len() && (#[trigger] gs[c]).contains(w2) {
                        let c = choose|c: int| 0 <= c < gs.len() && (#[trigger] gs[c]).contains(w2);
                        if c < old_gs.len() {
                            assert(old_gs[c] == gs[c]);
                        }
                    }
                }
                assert forall|c: int| 0 <= c < gs.len() implies (#[trigger] groups@[c])@.len() == gs[c].len()
                    && forall|q: int| 0 <= q < gs[c].len() ==> groups@[c]@[q] as int == gs[c][q] by {
                    if c < old_gs.len() {
                        assert(groups@[c] == old_groups[c]);
                    }
                }
                assert forall|c: int| 0 <= c < gs.len() implies group_ok(g, #[trigger] gs[c]) && gs[c][0] < v + 1 by {
                    if c < old_gs.len() {
                        assert(gs[c] == old_gs[c]);
                    }
                }
            }
        }
        v = v + 1;
    }
    proof {
        assert forall|w: int| 0 <= w < n && graph.nodes@[w].included implies exists|c: int| 0 <= c < gs.len() && (#[trigger] gs[c]).contains(w) by {
            assert(assigned@[w]);
        }
    }
    (groups, Ghost(gs))
}

/// Whether node `a` has an edge to itself.
pub(crate) fn self_loop(ends: &Vec<(usize, Option<usize>)>, a: usize, Ghost(g): Ghost<Graph>) -> (r: bool)
    requires
        ends@.len() == g.edges@.len(),
        forall|k: int|
            0 <= k < ends@.len() ==> (#[trigger] ends@[k]).0 == g.src_of(k) && opt_int(ends@[k].1)
                == g.tgt_of(k),
    ensures
        r == g_edge(g, a as int, a as int),
{
    let mut k: usize = 0;
    while k < ends.len()
        invariant
            k <= ends@.len(),
            ends@.len() == g.edges@.len(),
            forall|q: int|
                0 <= q < ends@.len() ==> (#[trigger] ends@[q]).0 == g.src_of(q) && opt_int(ends@[q].1)
                    == g.tgt_of(q),
            forall|q: int| 0 <= q < k ==> !(#[trigger] g.src_of(q) == a && g.tgt_of(q) == Some(a as int)),
        decreases ends@.len() - k,
    {
        let (s, t) = ends[k];
        if s == a {
            match t {
                Some(t) => {
                    if t == a {
                        assert(g.src_of(k as int) == a && g.tgt_of(k as int) == Some(a as int));
                        return true;
                    }
                },
                None => {},
            }
        }
        k = k + 1;
    }
    false
}

/// Every node's component number: `c + 1` for the members of `gs[c]`, 0 for
/// the rest.
pub(crate) fn component_numbers(n: usize, groups: &Vec<Vec<usize>>, Ghost(gs): Ghost<Seq<Seq<int>>>) -> (comp_of: Vec<usize>)
    requires
        groups@.len() == gs.len(),
        forall|d: int| 0 <= d < gs.len() ==> (#[trigger] groups@[d])@.len() == gs[d].len()
            && forall|q: int| 0 <= q < gs[d].len() ==> groups@[d]@[q] as int == gs[d][q],
        forall|d: int| 0 <= d < gs.len() ==> forall|w: int| (#[trigger] gs[d]).contains(w) ==> 0 <= w < n,
    ensures
        comp_of@.len() == n,
        forall|x: int| 0 <= x < n && #[trigger] comp_of@[x] != 0 ==> 1 <= comp_of@[x] <= gs.len() && gs[comp_of@[x] - 1].contains(x),
        forall|d: int, k: int| 0 <= d < gs.len() && 0 <= k < gs[d].len() ==> comp_of@[#[trigger] gs[d][k]] != 0,
{
    let mut comp_of: Vec<usize> = Vec::new();
    let mut i: usize = 0;
    while i < n
        invariant
            i <= n,
            comp_of@.len() == i,
            forall|w: int| 0 <= w < i ==> #[trigger] comp_of@[w] == 0,
        decreases n - i,
    {
        comp_of.push(0);
        i = i + 1;
    }
    let mut c: usize = 0;
    while c < groups.len()
        invariant
            c <= groups@.len(),
            groups@.len() == gs.len(),
            forall|d: int| 0 <= d < gs.len() ==> (#[trigger] groups@[d])@.len() == gs[d].len()
                && forall|q: int| 0 <= q < gs[d].len() ==> groups@[d]@[q] as int == gs[d][q],
            forall|d: int| 0 <= d < gs.len() ==> forall|w: int| (#[trigger] gs[d]).contains(w) ==> 0 <= w < n,
            comp_of@.len() == n,
            forall|x: int| 0 <= x < n && #[trigger] comp_of@[x] != 0 ==> 1 <= comp_of@[x] <= c && gs[comp_of@[x] - 1].contains(x),
            forall|d: int, k: int| 0 <= d < c && 0 <= k < gs[d].len() ==> comp_of@[#[trigger] gs[d][k]] != 0,
        decreases groups@.len() - c,
    {
        let id = c + 1;
        let grp = &groups[c];
        let mut k: usize = 0;
        while k < grp.len()
            invariant
                c < groups@.len(),
                id == c + 1,
                k <= grp@.len(),
                grp == groups@[c as int],
                groups@.len() == gs.len(),
                grp@.len() == gs[c as int].len(),
                forall|q: int| 0 <= q < gs[c as int].len() ==> grp@[q] as int == gs[c as int][q],
                forall|w: int| gs[c as int].contains(w) ==> 0 <= w < n,
                forall|d: int| 0 <= d < gs.len() ==> forall|w: int| (#[trigger] gs[d]).contains(w) ==> 0 <= w < n,
                comp_of@.len() == n,
                forall|x: int| 0 <= x < n && #[trigger] comp_of@[x] != 0 ==> 1 <= comp_of@[x] <= c + 1 && gs[comp_of@[x] - 1].contains(x),
                forall|d: int, kk: int| 0 <= d < c && 0 <= kk < gs[d].len() ==> comp_of@[#[trigger] gs[d][kk]] != 0,
                forall|kk: int| 0 <= kk < k ==> comp_of@[#[trigger] gs[c as int][kk]] != 0,
            decreases grp@.len() - k,
        {
            let w = grp[k];
            proof {
                assert(gs[c as int].contains(gs[c as int][k as int]));
            }
            let ghost before = comp_of@;
            comp_of.set(w, id);
            proof {
                assert(gs[c as int][k as int] == w as int);
                assert forall|d: int, kk: int| 0 <= d < c && 0 <= kk < gs[d].len() implies comp_of@[#[trigger] gs[d][kk]] != 0 by {
                    assert(gs[d].contains(gs[d][kk]));
                    assert(before[gs[d][kk]] != 0);
                }
                assert forall|kk: int| 0 <= kk < k + 1 implies comp_of@[#[trigger] gs[c as int][kk]] != 0 by {
                    assert(gs[c as int].contains(gs[c as int][kk]));
                    if kk < k {
                        assert(before[gs[c as int][kk]] != 0);
                    }
                }
            }
            k = k + 1;
        }
        c = c + 1;
    }
    comp_of
}

/// The component number of every included node, in path order.
fn node_numbers(graph: &Graph, comp_of: &Vec<usize>, Ghost(gs): Ghost<Seq<Seq<int>>>) -> (node_scc: Vec<(String, usize)>)
    requires
        groups_spec(*graph, gs),
        comp_of@.len() == graph.nodes@.len(),
        forall|x: int| 0 <= x < graph.nodes@.len() && #[trigger] comp_of@[x] != 0 ==> 1 <= comp_of@[x] <= gs.len() && gs[comp_of@[x] - 1].contains(x),
        forall|d: int, k: int| 0 <= d < gs.len() && 0 <= k < gs[d].len() ==> comp_of@[#[trigger] gs[d][k]] != 0,
    ensures
        node_scc@.len() == included_indices(*graph).len(),
        forall|q: int|
            0 <= q < node_scc@.len() ==> {
                &&& (#[trigger] node_scc@[q]).0@ == graph.nodes@[included_indices(*graph)[q]].path@
                &&& 1 <= node_scc@[q].1 <= gs.len()
                &&& gs[node_scc@[q].1 - 1].contains(included_indices(*graph)[q])
            },
{
    let n = graph.nodes.len();
    let ghost g = *graph;
    let mut node_scc: Vec<(String, usize)> = Vec::new();
    let mut v: usize = 0;
    while v < n
        invariant
            v <= n,
            n == graph.nodes@.len(),
            g == *graph,
            groups_spec(g, gs),
            comp_of@.len() == n,
            forall|x: int| 0 <= x < n && #[trigger] comp_of@[x] != 0 ==> 1 <= comp_of@[x] <= gs.len() && gs[comp_of@[x] - 1].contains(x),
            forall|d: int, k: int| 0 <= d < gs.len() && 0 <= k < gs[d].len() ==> comp_of@[#[trigger] gs[d][k]] != 0,
            node_scc@.len() == included_below(g, v as int).len(),
            forall|q: int|
                0 <= q < node_scc@.len() ==> {
                    &&& (#[trigger] node_scc@[q]).0@ == g.nodes@[included_below(g, v as int)[q]].path@
                    &&& 1 <= node_scc@[q].1 <= gs.len()
                    &&& gs[node_scc@[q].1 - 1].contains(included_below(g, v as int)[q])
                },
        decreases n - v,
    {
        let ghost before = node_scc@;
        if graph.nodes[v].included {
            proof {
                let d = choose|d: int| 0 <= d < gs.len() && (#[trigger] gs[d]).contains(v as int);
                let k = choose|k: int| 0 <= k < gs[d].len() && gs[d][k] == v as int;
                assert(comp_of@[gs[d][k]] != 0);
            }
            let id = comp_of[v];
            node_scc.push((graph.nodes[v].path.clone(), id));
            proof {
                assert(included_below(g, v + 1) == included_below(g, v as int).push(v as int));
                assert forall|q: int|
                    0 <= q < node_scc@.len() implies {
                        &&& (#[trigger] node_scc@[q]).0@ == g.nodes@[included_below(g, v + 1)[q]].path@
                        &&& 1 <= node_scc@[q].1 <= gs.len()
                        &&& gs[node_scc@[q].1 - 1].contains(included_below(g, v + 1)[q])
                    } by {
                    if q < before.len() {
                        assert(node_scc@[q] == before[q]);
                    }
                }
            }
        } else {
            assert(included_below(g, v + 1) == included_below(g, v as int));
        }
        v = v + 1;
    }
    node_scc
}

/// One row per non-trivial component, in component order: its size counted
/// down from `n`, its first member, and its position.
fn nontrivial_rows(graph: &Graph, groups: &Vec<Vec<usize>>, Ghost(gs): Ghost<Seq<Seq<int>>>) -> (rows: Vec<(usize, usize, usize)>)
    requires
        graph.wf(),
        groups_spec(*graph, gs),
        groups@.len() == gs.len(),
        forall|d: int| 0 <= d < gs.len() ==> (#[trigger] groups@[d])@.len() == gs[d].len()
            && forall|q: int| 0 <= q < gs[d].len() ==> groups@[d]@[q] as int == gs[d][q],
        forall|d: int| 0 <= d < gs.len() ==> (#[trigger] gs[d]).len() <= graph.nodes@.len(),
    ensures
        forall|i: int|
            0 <= i < rows@.len() ==> {
                &&& (#[trigger] rows@[i]).2 < gs.len()
                &&& rows@[i] == ((graph.nodes@.len() - gs[rows@[i].2 as int].len()) as usize, gs[rows@[i].2 as int][0] as usize, rows@[i].2)
                &&& nontrivial(*graph, gs[rows@[i].2 as int])
            },
        forall|i: int, j: int| 0 <= i < j < rows@.len() ==> (#[trigger] rows@[i]).2 < (#[trigger] rows@[j]).2,
        forall|d: int| 0 <= d < gs.len() && nontrivial(*graph, #[trigger] gs[d]) ==> exists|i: int| 0 <= i < rows@.len() && rows@[i].2 == d,
{
    let n = graph.nodes.len();
    let ghost g = *graph;
    let ends = edge_ends(graph);
    let mut rows: Vec<(usize, usize, usize)> = Vec::new();
    let mut c: usize = 0;
    while c < groups.len()
        invariant
            c <= groups@.len(),
            n == graph.nodes@.len(),
            g == *graph,
            groups_spec(g, gs),
            groups@.len() == gs.len(),
            forall|d: int| 0 <= d < gs.len() ==> (#[trigger] groups@[d])@.len() == gs[d].len()
                && forall|q: int| 0 <= q < gs[d].len() ==> groups@[d]@[q] as int == gs[d][q],
            forall|d: int| 0 <= d < gs.len() ==> (#[trigger] gs[d]).len() <= n,
            ends@.len() == g.edges@.len(),
            forall|k: int|
                0 <= k < ends@.len() ==> (#[trigger] ends@[k]).0 == g.src_of(k) && opt_int(ends@[k].1)
                    == g.tgt_of(k),
            forall|i: int|
                0 <= i < rows@.len() ==> {
                    &&& (#[trigger] rows@[i]).2 < c
                    &&& rows@[i] == ((n - gs[rows@[i].2 as int].len()) as usize, gs[rows@[i].2 as int][0] as usize, rows@[i].2)
                    &&& nontrivial(g, gs[rows@[i].2 as int])
                },
            forall|i: int, j: int| 0 <= i < j < rows@.len() ==> (#[trigger] rows@[i]).2 < (#[trigger] rows@[j]).2,
            forall|d: int| 0 <= d < c && nontrivial(g, #[trigger] gs[d]) ==> exists|i: int| 0 <= i < rows@.len() && rows@[i].2 == d,
        decreases groups@.len() - c,
    {
        proof {
            assert(group_ok(g, gs[c as int]));
        }
        let size = groups[c].len();
        let first = groups[c][0];
        let keep = size > 1 || self_loop(&ends, first, Ghost(g));
        let ghost before = rows@;
        if keep {
            rows.push((n - size, first, c));
        }
        proof {
            assert(keep == nontrivial(g, gs[c as int]));
            assert forall|d: int| 0 <= d < c + 1 && nontrivial(g, #[trigger] gs[d]) implies exists|i: int| 0 <= i < rows@.len() && rows@[i].2 == d by {
                if d < c {
                    let i = choose|i: int| 0 <= i < before.len() && before[i].2 == d;
                    assert(rows@[i] == before[i]);
                } else {
                    assert(rows@[before.len() as int].2 == d);
                }
            }
        }
        c = c + 1;
    }
    rows
}

impl StronglyConnectedComponents {
    /// The analysis name.
    pub fn name(&self) -> (r: &'static str)
        ensures
            r@ == "scc"@,
    {
        "scc"
    }

    /// Group the included nodes into strongly connected components over the
    /// edges between included nodes. Every component is counted and every
    /// included node gets its component's number (components numbered from
    /// 1 by first member); the non-trivial ones — more than one member, or
    /// one member that links itself — are listed with their members in path
    /// order, largest first, ties broken by first member, numbered from 1.
    #[verifier::rlimit(40)]
    pub fn run(&self, graph: &Graph) -> (r: SccResult)
        requires
            graph.wf(),
        ensures
            exists|gs: Seq<Seq<int>>, cs: Seq<Seq<int>>| scc_spec(*graph, r, gs, cs),
    {
        let n = graph.nodes.len();
        let ghost g = *graph;
        let (groups, Ghost(gs)) = scc_groups(graph);
        proof {
            assert forall|d: int| 0 <= d < gs.len() implies (#[trigger] gs[d]).len() <= n && forall|w: int| gs[d].contains(w) ==> 0 <= w < n by {
                assert(group_ok(g, gs[d]));
                assert forall|q: int| 0 <= q < gs[d].len() implies 0 <= #[trigger] gs[d][q] < n by {
                    assert(gs[d].contains(gs[d][q]));
                }
                lemma_strict_len(gs[d], n as int);
            }
        }
        let comp_of = component_numbers(n, &groups, Ghost(gs));
        let node_scc = node_numbers(graph, &comp_of, Ghost(gs));
        let rows = nontrivial_rows(graph, &groups, Ghost(gs));
        let sorted = sort_by_key(&rows);
        proof {
            assert(rows@.no_duplicates()) by {
                assert forall|i: int, j: int| 0 <= i < rows@.len() && 0 <= j < rows@.len() && i != j implies rows@[i] != rows@[j] by {
                    if i < j {
                        assert(rows@[i].2 < rows@[j].2);
                    } else {
                        assert(rows@[j].2 < rows@[i].2);
                    }
                }
            }
            rows@.lemma_multiset_has_no_duplicates();
            assert forall|x: (usize, usize, usize)| sorted@.to_multiset().contains(x) implies sorted@.to_multiset().count(x) == 1 by {}
            sorted@.lemma_multiset_has_no_duplicates_conv();
            assert forall|i: int| 0 <= i < sorted@.len() implies rows@.contains(#[trigger] sorted@[i]) by {
                vstd::seq_lib::to_multiset_contains(sorted@, sorted@[i]);
                vstd::seq_lib::to_multiset_contains(rows@, sorted@[i]);
                assert(sorted@.contains(sorted@[i]));
            }
        }
        let ghost cs: Seq<Seq<int>> = Seq::new(sorted@.len(), |i: int| gs[sorted@[i].2 as int]);
        let mut sccs: Vec<Scc> = Vec::new();
        let mut q: usize = 0;
        while q < sorted.len()
            invariant
                q <= sorted@.len(),
                n == graph.nodes@.len(),
                groups@.len() == gs.len(),
                forall|d: int| 0 <= d < gs.len() ==> (#[trigger] groups@[d])@.len() == gs[d].len()
                    && forall|k: int| 0 <= k < gs[d].len() ==> groups@[d]@[k] as int == gs[d][k],
                forall|d: int| 0 <= d < gs.len() ==> (#[trigger] gs[d]).len() <= n && forall|w: int| gs[d].contains(w) ==> 0 <= w < n,
                forall|i: int| 0 <= i < sorted@.len() ==> rows@.contains(#[trigger] sorted@[i]),
                forall|i: int| 0 <= i < rows@.len() ==> (#[trigger] rows@[i]).2 < gs.len(),
                cs.len() == sorted@.len(),
                forall|i: int| 0 <= i < cs.len() ==> #[trigger] cs[i] == gs[sorted@[i].2 as int],
                sccs@.len() == q,
                forall|i: int| 0 <= i < q ==> {
                    &&& (#[trigger] sccs@[i]).id == i + 1
                    &&& sccs@[i].members@.len() == cs[i].len()
                    &&& forall|k: int| 0 <= k < cs[i].len() ==> sccs@[i].members@[k]@ == graph.nodes@[cs[i][k]].path@
                },
            decreases sorted@.len() - q,
        {
            let row = sorted[q];
            proof {
                let d = choose|d: int| 0 <= d < rows@.len() && rows@[d] == sorted@[q as int];
                assert(rows@[d].2 < gs.len());
            }
            let grp = &groups[row.2];
            proof {
                assert(cs[q as int] == gs[row.2 as int]);
                assert forall|j: int| 0 <= j < grp@.len() implies grp@[j] < n by {
                    assert(gs[row.2 as int].contains(gs[row.2 as int][j]));
                }
            }
            let mut members: Vec<String> = Vec::new();
            let mut k: usize = 0;
            while k < grp.len()
                invariant
                    k <= grp@.len(),
                    n == graph.nodes@.len(),
                    grp@.len() == cs[q as int].len(),
                    forall|j: int| 0 <= j < grp@.len() ==> grp@[j] as int == cs[q as int][j],
                    forall|j: int| 0 <= j < grp@.len() ==> grp@[j] < n,
                    members@.len() == k,
                    forall|j: int| 0 <= j < k ==> members@[j]@ == graph.nodes@[cs[q as int][j]].path@,
                decreases grp@.len() - k,
            {
                members.push(graph.nodes[grp[k]].path.clone());
                k = k + 1;
            }
            sccs.push(Scc { id: q + 1, members });
            q = q + 1;
        }
        let r = SccResult { scc_count: groups.len(), nontrivial_count: sorted.len(), sccs, node_scc };
        proof {
            assert forall|i: int| 0 <= i < cs.len() implies nontrivial(g, #[trigger] cs[i]) && exists|c: int| 0 <= c < gs.len() && gs[c] == cs[i] by {
                let d = choose|d: int| 0 <= d < rows@.len() && rows@[d] == sorted@[i];
                assert(gs[rows@[d].2 as int] == cs[i]);
            }
            assert forall|c: int| 0 <= c < gs.len() && nontrivial(g, #[trigger] gs[c]) implies exists|i: int| 0 <= i < cs.len() && cs[i] == gs[c] by {
                let d = choose|d: int| 0 <= d < rows@.len() && rows@[d].2 == c;
                vstd::seq_lib::to_multiset_contains(rows@, rows@[d]);
                vstd::seq_lib::to_multiset_contains(sorted@, rows@[d]);
                assert(rows@.contains(rows@[d]));
                let i = choose|i: int| 0 <= i < sorted@.len() && sorted@[i] == rows@[d];
                assert(cs[i] == gs[c]);
            }
            assert forall|i: int, j: int| 0 <= i < j < cs.len() implies (#[trigger] cs[i]).len() > (#[trigger] cs[j]).len() || (cs[i].len() == cs[j].len() && cs[i][0] < cs[j][0]) by {
                assert(key_le(sorted@[i], sorted@[j]));
                let di = choose|d: int| 0 <= d < rows@.len() && rows@[d] == sorted@[i];
                let dj = choose|d: int| 0 <= d < rows@.len() && rows@[d] == sorted@[j];
                assert(sorted@[i] != sorted@[j]);
                let gi = sorted@[i].2 as int;
                let gj = sorted@[j].2 as int;
                assert(gi != gj);
                if gi < gj {
                    assert(gs[gi][0] < gs[gj][0]);
                } else {
                    assert(gs[gj][0] < gs[gi][0]);
                }
            }
            assert(scc_spec(g, r, gs, cs));
        }
        r
    }
}

} // verus!
