//! How deep each included node sits: the longest chain of links between
//! strongly connected components that ends at its component (cycles count as
//! one step), and whether it lies on a cycle.

use vstd::prelude::*;
use crate::analyses::scc::{
    component_numbers, group_ok, groups_spec, nontrivial, reaches, scc_groups, self_loop, strongly_connected,
};
use crate::analyses::connected_components::lemma_strict_len;
use crate::analyses::{included_below, included_indices, lemma_included_below};
use crate::graph::Graph;
use crate::reach::{lemma_reach_edge, lemma_reach_self, lemma_reach_trans};
use crate::sort::{key_le, sort_by_key, sorted_by_key};
use crate::structure::{edge_ends, g_edge, has_pair, incl_rel, opt_int};

verus! {

/// One node's depth.
#[derive(Debug, Clone)]
pub struct NodeDepth {
    pub node: String,
    pub depth: usize,
    pub in_cycle: bool,
}

/// The greatest depth, and every included node's depth, shallowest first,
/// ties in path order.
#[derive(Debug, Clone)]
pub struct DepthResult {
    pub max_depth: usize,
    pub nodes: Vec<NodeDepth>,
}

/// The depth analysis.
pub struct Depth;

/// Whether some edge between included nodes leads from component `a` to a
/// different component `b`.
pub open spec fn cedge(g: Graph, gs: Seq<Seq<int>>, a: int, b: int) -> bool {
    &&& 0 <= a < gs.len()
    &&& 0 <= b < gs.len()
    &&& a != b
    &&& exists|x: int, y: int| #[trigger] gs[a].contains(x) && #[trigger] gs[b].contains(y) && incl_rel(g, false)(x, y)
}

/// Whether `p` is a chain of components, each linked to the next.
pub open spec fn is_chain(g: Graph, gs: Seq<Seq<int>>, p: Seq<int>) -> bool {
    &&& p.len() > 0
    &&& 0 <= p[0] < gs.len()
    &&& forall|i: int| 0 <= i < p.len() - 1 ==> #[trigger] cedge(g, gs, p[i], p[i + 1])
}

/// Whether a chain of `l` links ends at component `c`.
pub open spec fn chain_to(g: Graph, gs: Seq<Seq<int>>, c: int, l: nat) -> bool {
    exists|p: Seq<int>| #[trigger] is_chain(g, gs, p) && p.last() == c && p.len() == l + 1
}

/// Whether the longest chain ending at component `c` has `d` links.
pub open spec fn comp_depth(g: Graph, gs: Seq<Seq<int>>, c: int, d: nat) -> bool {
    chain_to(g, gs, c, d) && forall|l: nat| #[trigger] chain_to(g, gs, c, l) ==> l <= d
}

/// A node belongs to one component only.
proof fn lemma_one_group(g: Graph, gs: Seq<Seq<int>>, c: int, d: int, x: int)
    requires
        groups_spec(g, gs),
        0 <= c < gs.len(),
        0 <= d < gs.len(),
        gs[c].contains(x),
        gs[d].contains(x),
    ensures
        c == d,
{
    assert(group_ok(g, gs[c]));
    assert(group_ok(g, gs[d]));
    let n = g.nodes@.len();
    if c != d {
        // Both first members are strongly connected to x, so to each other.
        crate::reach::lemma_reach_trans(incl_rel(g, false), n, gs[c][0], x, gs[d][0]);
        crate::reach::lemma_reach_trans(incl_rel(g, false), n, gs[d][0], x, gs[c][0]);
        assert(strongly_connected(g, gs[c][0], gs[d][0]));
    }
}

/// A link between components means the first member of the one reaches the
/// first member of the other.
proof fn lemma_cedge_reach(g: Graph, gs: Seq<Seq<int>>, a: int, b: int)
    requires
        groups_spec(g, gs),
        cedge(g, gs, a, b),
    ensures
        reaches(g, gs[a][0], gs[b][0]),
{
    let n = g.nodes@.len();
    let (x, y) = choose|x: int, y: int| #[trigger] gs[a].contains(x) && #[trigger] gs[b].contains(y) && incl_rel(g, false)(x, y);
    assert(group_ok(g, gs[a]));
    assert(group_ok(g, gs[b]));
    assert(0 <= x < n);
    lemma_reach_edge(incl_rel(g, false), n, x, y);
    lemma_reach_trans(incl_rel(g, false), n, gs[a][0], x, y);
    lemma_reach_trans(incl_rel(g, false), n, gs[a][0], y, gs[b][0]);
}

/// Along a chain, the first component's first member reaches the last's.
proof fn lemma_chain_reach(g: Graph, gs: Seq<Seq<int>>, p: Seq<int>)
    requires
        groups_spec(g, gs),
        is_chain(g, gs, p),
    ensures
        reaches(g, gs[p[0]][0], gs[p.last()][0]),
    decreases p.len(),
{
    let n = g.nodes@.len();
    assert(group_ok(g, gs[p[0]]));
    if p.len() == 1 {
        lemma_reach_self(incl_rel(g, false), n, gs[p[0]][0]);
    } else {
        let q = p.drop_last();
        assert forall|i: int| 0 <= i < q.len() - 1 implies #[trigger] cedge(g, gs, q[i], q[i + 1]) by {
            assert(cedge(g, gs, p[i], p[i + 1]));
        }
        lemma_chain_reach(g, gs, q);
        let i = p.len() - 2;
        assert(cedge(g, gs, p[i], p[i + 1]));
        assert(p[i + 1] == p.last());
        assert(q.last() == p[i]);
        lemma_cedge_reach(g, gs, p[i], p[i + 1]);
        assert(group_ok(g, gs[p[i]]));
        lemma_reach_trans(incl_rel(g, false), n, gs[p[0]][0], gs[q.last()][0], gs[p.last()][0]);
    }
}

/// A chain's components are in range.
proof fn lemma_chain_range(g: Graph, gs: Seq<Seq<int>>, p: Seq<int>, i: int)
    requires
        is_chain(g, gs, p),
        0 <= i < p.len(),
    ensures
        0 <= p[i] < gs.len(),
{
    if i > 0 {
        assert(cedge(g, gs, p[i - 1], p[(i - 1) + 1]));
    }
}

/// A chain does not come back to a component it left.
#[verifier::spinoff_prover]
#[verifier::rlimit(40)]
proof fn lemma_chain_no_return(g: Graph, gs: Seq<Seq<int>>, p: Seq<int>, lo: int, hi: int)
    requires
        groups_spec(g, gs),
        is_chain(g, gs, p),
        0 <= lo < hi < p.len(),
    ensures
        p[lo] != p[hi],
{
    if p[lo] == p[hi] {
        assert(cedge(g, gs, p[lo], p[lo + 1]));
        lemma_cedge_reach(g, gs, p[lo], p[lo + 1]);
        let sub = p.subrange(lo + 1, hi + 1);
        lemma_chain_range(g, gs, p, lo + 1);
        assert forall|k: int| 0 <= k < sub.len() - 1 implies #[trigger] cedge(g, gs, sub[k], sub[k + 1]) by {
            let j = lo + 1 + k;
            assert(cedge(g, gs, p[j], p[j + 1]));
            assert(sub[k] == p[j] && sub[k + 1] == p[j + 1]);
        }
        assert(is_chain(g, gs, sub));
        lemma_chain_reach(g, gs, sub);
        assert(sub[0] == p[lo + 1]);
        assert(sub.last() == p[hi]);
        assert(strongly_connected(g, gs[p[lo]][0], gs[p[lo + 1]][0]));
        assert(0 <= p[lo + 1] < gs.len());
    }
}

/// A chain never returns to a component.
proof fn lemma_chain_distinct(g: Graph, gs: Seq<Seq<int>>, p: Seq<int>)
    requires
        groups_spec(g, gs),
        is_chain(g, gs, p),
    ensures
        p.no_duplicates(),
{
    assert forall|i: int, j: int| 0 <= i < p.len() && 0 <= j < p.len() && i != j implies p[i] != p[j] by {
        if i < j {
            lemma_chain_no_return(g, gs, p, i, j);
        } else {
            lemma_chain_no_return(g, gs, p, j, i);
        }
    }
}

/// A chain links at most one fewer components than there are.
pub proof fn lemma_chain_bound(g: Graph, gs: Seq<Seq<int>>, c: int, l: nat)
    requires
        groups_spec(g, gs),
        chain_to(g, gs, c, l),
    ensures
        l < gs.len(),
{
    let p = choose|p: Seq<int>| #[trigger] is_chain(g, gs, p) && p.last() == c && p.len() == l + 1;
    lemma_chain_distinct(g, gs, p);
    p.unique_seq_to_set();
    vstd::set_lib::lemma_int_range(0, gs.len() as int);
    assert(p.to_set().subset_of(vstd::set_lib::set_int_range(0, gs.len() as int))) by {
        assert forall|x: int| p.to_set().contains(x) implies vstd::set_lib::set_int_range(0, gs.len() as int).contains(x) by {
            let i = choose|i: int| 0 <= i < p.len() && p[i] == x;
            lemma_chain_range(g, gs, p, i);
        }
    }
    vstd::set_lib::lemma_len_subset(p.to_set(), vstd::set_lib::set_int_range(0, gs.len() as int));
}

/// A single component is a chain of no links.
proof fn lemma_chain_base(g: Graph, gs: Seq<Seq<int>>, c: int)
    requires
        0 <= c < gs.len(),
    ensures
        chain_to(g, gs, c, 0),
{
    let p = seq![c];
    assert(is_chain(g, gs, p));
}

/// A chain extends by a link out of its last component.
proof fn lemma_chain_extend(g: Graph, gs: Seq<Seq<int>>, a: int, b: int, l: nat)
    requires
        chain_to(g, gs, a, l),
        cedge(g, gs, a, b),
    ensures
        chain_to(g, gs, b, l + 1),
{
    let p = choose|p: Seq<int>| #[trigger] is_chain(g, gs, p) && p.last() == a && p.len() == l + 1;
    let q = p.push(b);
    assert forall|i: int| 0 <= i < q.len() - 1 implies #[trigger] cedge(g, gs, q[i], q[i + 1]) by {
        if i < p.len() - 1 {
            assert(cedge(g, gs, p[i], p[i + 1]));
        } else {
            assert(q[i] == a && q[i + 1] == b);
        }
    }
    assert(is_chain(g, gs, q));
}

/// A chain of at least one link is a shorter chain and a last link.
proof fn lemma_chain_split(g: Graph, gs: Seq<Seq<int>>, c: int, l: nat) -> (a: int)
    requires
        chain_to(g, gs, c, l),
        l >= 1,
    ensures
        chain_to(g, gs, a, (l - 1) as nat),
        cedge(g, gs, a, c),
{
    let p = choose|p: Seq<int>| #[trigger] is_chain(g, gs, p) && p.last() == c && p.len() == l + 1;
    let q = p.drop_last();
    let i = p.len() - 2;
    assert(cedge(g, gs, p[i], p[i + 1]));
    assert forall|k: int| 0 <= k < q.len() - 1 implies #[trigger] cedge(g, gs, q[k], q[k + 1]) by {
        assert(cedge(g, gs, p[k], p[k + 1]));
    }
    assert(is_chain(g, gs, q));
    assert(q.last() == p[i]);
    p[i]
}

/// Whether an edge from `s` to `t` links two components.
pub open spec fn crossing(g: Graph, comp_of: Seq<usize>, s: int, t: int) -> bool {
    g.nodes@[s].included && g.nodes@[t].included && comp_of[s] != comp_of[t]
}

/// Whether the edge with ends `e`, when it links two components, shows up
/// in `pairs`.
pub open spec fn covered(g: Graph, co: Seq<usize>, e: (usize, Option<usize>), pairs: Seq<(usize, usize)>) -> bool {
    match e.1 {
        Some(t) => crossing(g, co, e.0 as int, t as int) ==> has_pair(pairs, co[e.0 as int] - 1, co[t as int] - 1),
        None => true,
    }
}

/// Every included node has a component number.
proof fn lemma_numbered(g: Graph, gs: Seq<Seq<int>>, comp_of: Seq<usize>, x: int)
    requires
        groups_spec(g, gs),
        comp_of.len() == g.nodes@.len(),
        forall|d: int, k: int| 0 <= d < gs.len() && 0 <= k < gs[d].len() ==> comp_of[#[trigger] gs[d][k]] != 0,
        0 <= x < g.nodes@.len(),
        g.nodes@[x].included,
    ensures
        comp_of[x] != 0,
{
    let c = choose|c: int| 0 <= c < gs.len() && (#[trigger] gs[c]).contains(x);
    let k = choose|k: int| 0 <= k < gs[c].len() && gs[c][k] == x;
    assert(comp_of[gs[c][k]] != 0);
}

/// The links between components, as pairs of component positions.
#[verifier::spinoff_prover]
#[verifier::rlimit(40)]
fn condensed_pairs(graph: &Graph, comp_of: &Vec<usize>, Ghost(gs): Ghost<Seq<Seq<int>>>) -> (pairs: Vec<(usize, usize)>)
    requires
        graph.wf(),
        groups_spec(*graph, gs),
        comp_of@.len() == graph.nodes@.len(),
        forall|x: int| 0 <= x < graph.nodes@.len() && #[trigger] comp_of@[x] != 0 ==> 1 <= comp_of@[x] <= gs.len() && gs[comp_of@[x] - 1].contains(x),
        forall|d: int, k: int| 0 <= d < gs.len() && 0 <= k < gs[d].len() ==> comp_of@[#[trigger] gs[d][k]] != 0,
    ensures
        forall|q: int| 0 <= q < pairs@.len() ==> (#[trigger] pairs@[q]).0 < gs.len() && pairs@[q].1 < gs.len(),
        forall|a: int, b: int| #[trigger] has_pair(pairs@, a, b) <==> cedge(*graph, gs, a, b),
{
    let n = graph.nodes.len();
    let ghost g = *graph;
    let ghost co = comp_of@;
    proof {
        assert forall|x: int| 0 <= x < n && g.nodes@[x].included implies #[trigger] co[x] != 0 by {
            lemma_numbered(g, gs, co, x);
        }
    }
    let ends = edge_ends(graph);
    let mut pairs: Vec<(usize, usize)> = Vec::new();
    let mut k: usize = 0;
    while k < ends.len()
        invariant
            k <= ends@.len(),
            n == g.nodes@.len(),
            g == *graph,
            co == comp_of@,
            co.len() == n,
            forall|x: int| 0 <= x < n && #[trigger] co[x] != 0 ==> 1 <= co[x] <= gs.len() && gs[co[x] - 1].contains(x),
            forall|x: int| 0 <= x < n && g.nodes@[x].included ==> #[trigger] co[x] != 0,
            ends@.len() == g.edges@.len(),
            forall|q: int|
                0 <= q < ends@.len() ==> (#[trigger] ends@[q]).0 == g.src_of(q) && opt_int(ends@[q].1)
                    == g.tgt_of(q),
            forall|q: int| 0 <= q < ends@.len() ==> (#[trigger] ends@[q]).0 < n,
            forall|q: int| 0 <= q < ends@.len() ==> match (#[trigger] ends@[q]).1 {
                Some(t) => t < n,
                None => true,
            },
            forall|q: int| 0 <= q < pairs@.len() ==> (#[trigger] pairs@[q]).0 < gs.len() && pairs@[q].1 < gs.len()
                && cedge(g, gs, pairs@[q].0 as int, pairs@[q].1 as int),
            forall|q: int| 0 <= q < k ==> covered(g, co, #[trigger] ends@[q], pairs@),
        decreases ends@.len() - k,
    {
        let (s, t) = ends[k];
        let ghost before = pairs@;
        match t {
            Some(t) => {
                if graph.nodes[s].included && graph.nodes[t].included && comp_of[s] != comp_of[t] {
                    let pa = comp_of[s] - 1;
                    let pb = comp_of[t] - 1;
                    proof {
                        assert(g.src_of(k as int) == s && g.tgt_of(k as int) == Some(t as int));
                        assert(g_edge(g, s as int, t as int));
                        assert(incl_rel(g, false)(s as int, t as int));
                        assert(gs[pa as int].contains(s as int));
                        assert(gs[pb as int].contains(t as int));
                        assert(cedge(g, gs, pa as int, pb as int));
                    }
                    pairs.push((pa, pb));
                    proof {
                        assert(pairs@[before.len() as int] == (pa, pb));
                        assert(has_pair(pairs@, pa as int, pb as int));
                    }
                }
            },
            None => {},
        }
        proof {
            assert forall|q: int| 0 <= q < pairs@.len() implies (#[trigger] pairs@[q]).0 < gs.len() && pairs@[q].1 < gs.len()
                && cedge(g, gs, pairs@[q].0 as int, pairs@[q].1 as int) by {
                if q < before.len() {
                    assert(pairs@[q] == before[q]);
                }
            }
            assert forall|q: int| 0 <= q < k + 1 implies covered(g, co, #[trigger] ends@[q], pairs@) by {
                if q < k {
                    assert(covered(g, co, ends@[q], before));
                    match ends@[q].1 {
                        Some(tt) => {
                            if crossing(g, co, ends@[q].0 as int, tt as int) {
                                let r = choose|r: int| 0 <= r < before.len() && (#[trigger] before[r]).0 == co[ends@[q].0 as int] - 1 && before[r].1 == co[tt as int] - 1;
                                assert(pairs@[r] == before[r]);
                            }
                        },
                        None => {},
                    }
                }
            }
        }
        k = k + 1;
    }
    proof {
        assert forall|a: int, b: int| #[trigger] has_pair(pairs@, a, b) <==> cedge(g, gs, a, b) by {
            if has_pair(pairs@, a, b) {
                let r = choose|r: int| 0 <= r < pairs@.len() && (#[trigger] pairs@[r]).0 == a && pairs@[r].1 == b;
            }
            if cedge(g, gs, a, b) {
                lemma_cedge_pair(g, gs, co, ends@, pairs@, a, b);
            }
        }
    }
    pairs
}

/// A link between components shows up as a pair.
#[verifier::spinoff_prover]
#[verifier::rlimit(40)]
proof fn lemma_cedge_pair(
    g: Graph,
    gs: Seq<Seq<int>>,
    co: Seq<usize>,
    ends: Seq<(usize, Option<usize>)>,
    pairs: Seq<(usize, usize)>,
    a: int,
    b: int,
)
    requires
        groups_spec(g, gs),
        cedge(g, gs, a, b),
        co.len() == g.nodes@.len(),
        forall|x: int| 0 <= x < g.nodes@.len() && #[trigger] co[x] != 0 ==> 1 <= co[x] <= gs.len() && gs[co[x] - 1].contains(x),
        forall|x: int| 0 <= x < g.nodes@.len() && g.nodes@[x].included ==> #[trigger] co[x] != 0,
        ends.len() == g.edges@.len(),
        forall|q: int|
            0 <= q < ends.len() ==> (#[trigger] ends[q]).0 == g.src_of(q) && opt_int(ends[q].1) == g.tgt_of(q),
        forall|q: int| 0 <= q < ends.len() ==> covered(g, co, #[trigger] ends[q], pairs),
    ensures
        has_pair(pairs, a, b),
{
    let (x, y) = choose|x: int, y: int| #[trigger] gs[a].contains(x) && #[trigger] gs[b].contains(y) && incl_rel(g, false)(x, y);
    assert(g_edge(g, x, y));
    let q = choose|q: int| 0 <= q < g.edges@.len() && #[trigger] g.src_of(q) == x && g.tgt_of(q) == Some(y);
    assert(ends[q].0 == x);
    assert(co[x] != 0);
    assert(co[y] != 0);
    lemma_one_group(g, gs, a, co[x] - 1, x);
    lemma_one_group(g, gs, b, co[y] - 1, y);
    match ends[q].1 {
        Some(t) => {
            assert(t == y);
            assert(crossing(g, co, x, y));
            assert(covered(g, co, ends[q], pairs));
        },
        None => {},
    }
}

/// The length of the longest chain ending at each of `k` components.
#[verifier::spinoff_prover]
#[verifier::rlimit(40)]
fn longest_chains(k: usize, pairs: &Vec<(usize, usize)>, Ghost(g): Ghost<Graph>, Ghost(gs): Ghost<Seq<Seq<int>>>) -> (d: Vec<usize>)
    requires
        groups_spec(g, gs),
        gs.len() == k,
        forall|q: int| 0 <= q < pairs@.len() ==> (#[trigger] pairs@[q]).0 < k && pairs@[q].1 < k,
        forall|a: int, b: int| #[trigger] has_pair(pairs@, a, b) <==> cedge(g, gs, a, b),
    ensures
        d@.len() == k,
        forall|c: int| 0 <= c < k ==> comp_depth(g, gs, c, #[trigger] d@[c] as nat),
{
    let mut d: Vec<usize> = Vec::new();
    let mut i: usize = 0;
    while i < k
        invariant
            i <= k,
            gs.len() == k,
            d@.len() == i,
            forall|c: int| 0 <= c < i ==> #[trigger] d@[c] == 0,
            forall|c: int| 0 <= c < i ==> chain_to(g, gs, c, #[trigger] d@[c] as nat),
        decreases k - i,
    {
        proof {
            lemma_chain_base(g, gs, i as int);
        }
        d.push(0);
        i = i + 1;
    }
    let mut r: usize = 0;
    while r < k
        invariant
            r <= k,
            gs.len() == k,
            groups_spec(g, gs),
            forall|q: int| 0 <= q < pairs@.len() ==> (#[trigger] pairs@[q]).0 < k && pairs@[q].1 < k,
            forall|a: int, b: int| #[trigger] has_pair(pairs@, a, b) <==> cedge(g, gs, a, b),
            d@.len() == k,
            forall|c: int| 0 <= c < k ==> chain_to(g, gs, c, #[trigger] d@[c] as nat),
            forall|c: int, l: nat| 0 <= c < k && l <= r && #[trigger] chain_to(g, gs, c, l) ==> l <= d@[c],
        decreases k - r,
    {
        let ghost d0 = d@;
        let mut q: usize = 0;
        while q < pairs.len()
            invariant
                q <= pairs@.len(),
                r < k,
                gs.len() == k,
                groups_spec(g, gs),
                forall|qq: int| 0 <= qq < pairs@.len() ==> (#[trigger] pairs@[qq]).0 < k && pairs@[qq].1 < k,
                forall|a: int, b: int| #[trigger] has_pair(pairs@, a, b) <==> cedge(g, gs, a, b),
                d@.len() == k,
                d0.len() == k,
                forall|c: int| 0 <= c < k ==> chain_to(g, gs, c, #[trigger] d@[c] as nat),
                forall|c: int| 0 <= c < k ==> #[trigger] d@[c] >= d0[c],
                forall|qq: int| 0 <= qq < q ==> d@[(#[trigger] pairs@[qq]).1 as int] >= d0[pairs@[qq].0 as int] + 1,
            decreases pairs@.len() - q,
        {
            let (a, b) = pairs[q];
            proof {
                assert(has_pair(pairs@, a as int, b as int));
                assert(cedge(g, gs, a as int, b as int));
                lemma_chain_bound(g, gs, a as int, d@[a as int] as nat);
            }
            let ghost before = d@;
            if d[a] + 1 > d[b] {
                let v = d[a] + 1;
                proof {
                    lemma_chain_extend(g, gs, a as int, b as int, d@[a as int] as nat);
                }
                d.set(b, v);
            }
            proof {
                assert forall|qq: int| 0 <= qq < q + 1 implies d@[(#[trigger] pairs@[qq]).1 as int] >= d0[pairs@[qq].0 as int] + 1 by {
                    if qq < q {
                        assert(before[pairs@[qq].1 as int] >= d0[pairs@[qq].0 as int] + 1);
                    }
                }
            }
            q = q + 1;
        }
        proof {
            assert forall|c: int, l: nat| 0 <= c < k && l <= r + 1 && #[trigger] chain_to(g, gs, c, l) implies l <= d@[c] by {
                if l >= 1 {
                    let a = lemma_chain_split(g, gs, c, l);
                    assert(has_pair(pairs@, a, c));
                    let qq = choose|qq: int| 0 <= qq < pairs@.len() && (#[trigger] pairs@[qq]).0 == a && pairs@[qq].1 == c;
                    assert(d@[pairs@[qq].1 as int] >= d0[pairs@[qq].0 as int] + 1);
                    assert(chain_to(g, gs, a, (l - 1) as nat));
                    assert((l - 1) as nat <= d0[a]);
                }
            }
        }
        r = r + 1;
    }
    proof {
        assert forall|c: int| 0 <= c < k implies comp_depth(g, gs, c, #[trigger] d@[c] as nat) by {
            assert forall|l: nat| #[trigger] chain_to(g, gs, c, l) implies l <= d@[c] as nat by {
                lemma_chain_bound(g, gs, c, l);
            }
        }
    }
    d
}

/// Whether `r` reports the depth of every included node of `g`, with `gs`
/// its components and `ix` the reported nodes in output order.
pub open spec fn depth_spec(g: Graph, r: DepthResult, gs: Seq<Seq<int>>, ix: Seq<int>) -> bool {
    let n = g.nodes@.len();
    &&& groups_spec(g, gs)
    &&& r.nodes@.len() == ix.len()
    &&& forall|i: int|
        0 <= i < ix.len() ==> {
            &&& 0 <= #[trigger] ix[i] < n
            &&& g.nodes@[ix[i]].included
            &&& r.nodes@[i].node@ == g.nodes@[ix[i]].path@
            &&& exists|c: int|
                0 <= c < gs.len() && #[trigger] gs[c].contains(ix[i]) && comp_depth(g, gs, c, r.nodes@[i].depth as nat)
                    && r.nodes@[i].in_cycle == nontrivial(g, gs[c])
        }
    &&& forall|v: int| 0 <= v < n && g.nodes@[v].included ==> exists|i: int| 0 <= i < ix.len() && #[trigger] ix[i] == v
    &&& forall|i: int, j: int|
        0 <= i < j < ix.len() ==> (#[trigger] r.nodes@[i]).depth < (#[trigger] r.nodes@[j]).depth || (r.nodes@[i].depth
            == r.nodes@[j].depth && ix[i] < ix[j])
    &&& forall|i: int| 0 <= i < ix.len() ==> (#[trigger] r.nodes@[i]).depth <= r.max_depth
    &&& ix.len() > 0 ==> exists|i: int| 0 <= i < ix.len() && (#[trigger] r.nodes@[i]).depth == r.max_depth
    &&& ix.len() == 0 ==> r.max_depth == 0
}

/// One row per included node, in path order: its depth, its index and its
/// component.
#[verifier::spinoff_prover]
#[verifier::rlimit(40)]
fn depth_rows(graph: &Graph, comp_of: &Vec<usize>, d: &Vec<usize>, Ghost(gs): Ghost<Seq<Seq<int>>>) -> (rows: Vec<(usize, usize, usize)>)
    requires
        groups_spec(*graph, gs),
        d@.len() == gs.len(),
        comp_of@.len() == graph.nodes@.len(),
        forall|x: int| 0 <= x < graph.nodes@.len() && #[trigger] comp_of@[x] != 0 ==> 1 <= comp_of@[x] <= gs.len() && gs[comp_of@[x] - 1].contains(x),
        forall|dd: int, k: int| 0 <= dd < gs.len() && 0 <= k < gs[dd].len() ==> comp_of@[#[trigger] gs[dd][k]] != 0,
    ensures
        forall|k: int|
            0 <= k < rows@.len() ==> {
                &&& (#[trigger] rows@[k]).1 < graph.nodes@.len()
                &&& graph.nodes@[rows@[k].1 as int].included
                &&& rows@[k].2 < gs.len()
                &&& gs[rows@[k].2 as int].contains(rows@[k].1 as int)
                &&& rows@[k].0 == d@[rows@[k].2 as int]
            },
        forall|k: int, m: int| 0 <= k < m < rows@.len() ==> (#[trigger] rows@[k]).1 < (#[trigger] rows@[m]).1,
        forall|v: int| 0 <= v < graph.nodes@.len() && graph.nodes@[v].included ==> exists|k: int| 0 <= k < rows@.len() && (#[trigger] rows@[k]).1 == v,
{
    let n = graph.nodes.len();
    let ghost g = *graph;
    let mut rows: Vec<(usize, usize, usize)> = Vec::new();
    let mut v: usize = 0;
    while v < n
        invariant
            v <= n,
            n == g.nodes@.len(),
            g == *graph,
            groups_spec(g, gs),
            d@.len() == gs.len(),
            comp_of@.len() == n,
            forall|x: int| 0 <= x < n && #[trigger] comp_of@[x] != 0 ==> 1 <= comp_of@[x] <= gs.len() && gs[comp_of@[x] - 1].contains(x),
            forall|dd: int, k: int| 0 <= dd < gs.len() && 0 <= k < gs[dd].len() ==> comp_of@[#[trigger] gs[dd][k]] != 0,
            forall|k: int|
                0 <= k < rows@.len() ==> {
                    &&& (#[trigger] rows@[k]).1 < v
                    &&& g.nodes@[rows@[k].1 as int].included
                    &&& rows@[k].2 < gs.len()
                    &&& gs[rows@[k].2 as int].contains(rows@[k].1 as int)
                    &&& rows@[k].0 == d@[rows@[k].2 as int]
                },
            forall|k: int, m: int| 0 <= k < m < rows@.len() ==> (#[trigger] rows@[k]).1 < (#[trigger] rows@[m]).1,
            forall|w: int| 0 <= w < v && g.nodes@[w].included ==> exists|k: int| 0 <= k < rows@.len() && (#[trigger] rows@[k]).1 == w,
        decreases n - v,
    {
        let ghost before = rows@;
        if graph.nodes[v].included {
            proof {
                lemma_numbered(g, gs, comp_of@, v as int);
            }
            let c = comp_of[v] - 1;
            rows.push((d[c], v, c));
            proof {
                assert forall|w: int| 0 <= w < v + 1 && g.nodes@[w].included implies exists|k: int| 0 <= k < rows@.len() && (#[trigger] rows@[k]).1 == w by {
                    if w < v {
                        let k = choose|k: int| 0 <= k < before.len() && (#[trigger] before[k]).1 == w;
                        assert(rows@[k] == before[k]);
                    } else {
                        assert(rows@[before.len() as int].1 == w);
                    }
                }
            }
        }
        v = v + 1;
    }
    rows
}

/// Whether each component is non-trivial.
fn cycle_flags(graph: &Graph, groups: &Vec<Vec<usize>>, Ghost(gs): Ghost<Seq<Seq<int>>>) -> (cyc: Vec<bool>)
    requires
        graph.wf(),
        groups_spec(*graph, gs),
        groups@.len() == gs.len(),
        forall|dd: int| 0 <= dd < gs.len() ==> (#[trigger] groups@[dd])@.len() == gs[dd].len()
            && forall|q: int| 0 <= q < gs[dd].len() ==> groups@[dd]@[q] as int == gs[dd][q],
    ensures
        cyc@.len() == gs.len(),
        forall|c: int| 0 <= c < gs.len() ==> #[trigger] cyc@[c] == nontrivial(*graph, gs[c]),
{
    let ghost g = *graph;
    let ends = edge_ends(graph);
    let mut cyc: Vec<bool> = Vec::new();
    let mut c: usize = 0;
    while c < groups.len()
        invariant
            c <= groups@.len(),
            g == *graph,
            groups_spec(g, gs),
            groups@.len() == gs.len(),
            forall|dd: int| 0 <= dd < gs.len() ==> (#[trigger] groups@[dd])@.len() == gs[dd].len()
                && forall|q: int| 0 <= q < gs[dd].len() ==> groups@[dd]@[q] as int == gs[dd][q],
            ends@.len() == g.edges@.len(),
            forall|k: int|
                0 <= k < ends@.len() ==> (#[trigger] ends@[k]).0 == g.src_of(k) && opt_int(ends@[k].1)
                    == g.tgt_of(k),
            cyc@.len() == c,
            forall|cc: int| 0 <= cc < c ==> #[trigger] cyc@[cc] == nontrivial(g, gs[cc]),
        decreases groups@.len() - c,
    {
        proof {
            assert(group_ok(g, gs[c as int]));
        }
        let flag = groups[c].len() > 1 || self_loop(&ends, groups[c][0], Ghost(g));
        cyc.push(flag);
        c = c + 1;
    }
    cyc
}

/// Sorting rows with distinct indices keeps them distinct, and every sorted
/// row is one of the rows.
proof fn lemma_sorted_rows(rows: Seq<(usize, usize, usize)>, sorted: Seq<(usize, usize, usize)>)
    requires
        forall|k: int, m: int| 0 <= k < m < rows.len() ==> (#[trigger] rows[k]).1 < (#[trigger] rows[m]).1,
        sorted.to_multiset() == rows.to_multiset(),
        sorted.len() == rows.len(),
    ensures
        sorted.no_duplicates(),
        forall|i: int| 0 <= i < sorted.len() ==> rows.contains(#[trigger] sorted[i]),
{
    assert(rows.no_duplicates()) by {
        assert forall|i: int, j: int| 0 <= i < rows.len() && 0 <= j < rows.len() && i != j implies rows[i] != rows[j] by {
            if i < j {
                assert(rows[i].1 < rows[j].1);
            } else {
                assert(rows[j].1 < rows[i].1);
            }
        }
    }
    rows.lemma_multiset_has_no_duplicates();
    assert forall|x: (usize, usize, usize)| sorted.to_multiset().contains(x) implies sorted.to_multiset().count(x) == 1 by {}
    sorted.lemma_multiset_has_no_duplicates_conv();
    assert forall|i: int| 0 <= i < sorted.len() implies rows.contains(#[trigger] sorted[i]) by {
        vstd::seq_lib::to_multiset_contains(sorted, sorted[i]);
        vstd::seq_lib::to_multiset_contains(rows, sorted[i]);
        assert(sorted.contains(sorted[i]));
    }
}

/// The assembled result meets the depth contract.
#[verifier::spinoff_prover]
#[verifier::rlimit(60)]
proof fn lemma_depth_result(
    g: Graph,
    gs: Seq<Seq<int>>,
    rows: Seq<(usize, usize, usize)>,
    sorted: Seq<(usize, usize, usize)>,
    ix: Seq<int>,
    d: Seq<usize>,
    cyc: Seq<bool>,
    r: DepthResult,
)
    requires
        groups_spec(g, gs),
        gs.len() == d.len(),
        cyc.len() == gs.len(),
        forall|c: int| 0 <= c < gs.len() ==> #[trigger] cyc[c] == nontrivial(g, gs[c]),
        forall|c: int| 0 <= c < gs.len() ==> comp_depth(g, gs, c, #[trigger] d[c] as nat),
        forall|k: int|
            0 <= k < rows.len() ==> {
                &&& (#[trigger] rows[k]).1 < g.nodes@.len()
                &&& g.nodes@[rows[k].1 as int].included
                &&& rows[k].2 < gs.len()
                &&& gs[rows[k].2 as int].contains(rows[k].1 as int)
                &&& rows[k].0 == d[rows[k].2 as int]
            },
        forall|k: int, m: int| 0 <= k < m < rows.len() ==> (#[trigger] rows[k]).1 < (#[trigger] rows[m]).1,
        forall|v: int| 0 <= v < g.nodes@.len() && g.nodes@[v].included ==> exists|k: int| 0 <= k < rows.len() && (#[trigger] rows[k]).1 == v,
        sorted.to_multiset() == rows.to_multiset(),
        sorted.len() == rows.len(),
        sorted_by_key(sorted),
        sorted.no_duplicates(),
        forall|i: int| 0 <= i < sorted.len() ==> rows.contains(#[trigger] sorted[i]),
        ix.len() == sorted.len(),
        forall|i: int| 0 <= i < ix.len() ==> #[trigger] ix[i] == sorted[i].1 as int,
        r.nodes@.len() == sorted.len(),
        forall|i: int|
            0 <= i < sorted.len() ==> {
                &&& (#[trigger] r.nodes@[i]).node@ == g.nodes@[ix[i]].path@
                &&& r.nodes@[i].depth == sorted[i].0
                &&& r.nodes@[i].in_cycle == cyc[sorted[i].2 as int]
            },
        forall|i: int| 0 <= i < sorted.len() ==> (#[trigger] r.nodes@[i]).depth <= r.max_depth,
        sorted.len() > 0 ==> exists|i: int| 0 <= i < sorted.len() && (#[trigger] r.nodes@[i]).depth == r.max_depth,
        sorted.len() == 0 ==> r.max_depth == 0,
    ensures
        depth_spec(g, r, gs, ix),
{
    let n = g.nodes@.len();
    assert forall|i: int| 0 <= i < ix.len() implies {
        &&& 0 <= #[trigger] ix[i] < n
        &&& g.nodes@[ix[i]].included
        &&& r.nodes@[i].node@ == g.nodes@[ix[i]].path@
        &&& exists|c: int|
            0 <= c < gs.len() && #[trigger] gs[c].contains(ix[i]) && comp_depth(g, gs, c, r.nodes@[i].depth as nat)
                && r.nodes@[i].in_cycle == nontrivial(g, gs[c])
    } by {
        assert(rows.contains(sorted[i]));
        let k = choose|k: int| 0 <= k < rows.len() && rows[k] == sorted[i];
        let c = rows[k].2 as int;
        assert(gs[c].contains(ix[i]));
        assert(comp_depth(g, gs, c, d[c] as nat));
    }
    assert forall|v: int| 0 <= v < n && g.nodes@[v].included implies exists|i: int| 0 <= i < ix.len() && #[trigger] ix[i] == v by {
        let k = choose|k: int| 0 <= k < rows.len() && (#[trigger] rows[k]).1 == v;
        vstd::seq_lib::to_multiset_contains(rows, rows[k]);
        vstd::seq_lib::to_multiset_contains(sorted, rows[k]);
        assert(rows.contains(rows[k]));
        let i = choose|i: int| 0 <= i < sorted.len() && sorted[i] == rows[k];
        assert(ix[i] == v);
    }
    assert forall|i: int, j: int|
        0 <= i < j < ix.len() implies (#[trigger] r.nodes@[i]).depth < (#[trigger] r.nodes@[j]).depth || (r.nodes@[i].depth
            == r.nodes@[j].depth && ix[i] < ix[j]) by {
        assert(key_le(sorted[i], sorted[j]));
        assert(sorted[i] != sorted[j]);
        assert(rows.contains(sorted[i]));
        assert(rows.contains(sorted[j]));
        let ki = choose|k: int| 0 <= k < rows.len() && rows[k] == sorted[i];
        let kj = choose|k: int| 0 <= k < rows.len() && rows[k] == sorted[j];
        if sorted[i].1 == sorted[j].1 {
            if ki < kj {
                assert(rows[ki].1 < rows[kj].1);
            } else if kj < ki {
                assert(rows[kj].1 < rows[ki].1);
            }
        }
    }
}

impl Depth {
    /// The analysis name.
    pub fn name(&self) -> (r: &'static str)
        ensures
            r@ == "depth"@,
    {
        "depth"
    }

    /// For every included node: the length of the longest chain of links
    /// between strongly connected components that ends at its component (a
    /// cycle is one component, so it adds no length), and whether that
    /// component is non-trivial. Nodes come shallowest first, ties in path
    /// order; `max_depth` is the greatest depth (0 for an empty graph).
    #[verifier::spinoff_prover]
    #[verifier::rlimit(80)]
    pub fn run(&self, graph: &Graph) -> (r: DepthResult)
        requires
            graph.wf(),
        ensures
            exists|gs: Seq<Seq<int>>, ix: Seq<int>| depth_spec(*graph, r, gs, ix),
    {
        let n = graph.nodes.len();
        let ghost g = *graph;
        let (groups, Ghost(gs)) = scc_groups(graph);
        proof {
            assert forall|dd: int| 0 <= dd < gs.len() implies forall|w: int| (#[trigger] gs[dd]).contains(w) ==> 0 <= w < n by {
                assert(group_ok(g, gs[dd]));
            }
        }
        let comp_of = component_numbers(n, &groups, Ghost(gs));
        let pairs = condensed_pairs(graph, &comp_of, Ghost(gs));
        let d = longest_chains(groups.len(), &pairs, Ghost(g), Ghost(gs));
        let cyc = cycle_flags(graph, &groups, Ghost(gs));
        let rows = depth_rows(graph, &comp_of, &d, Ghost(gs));
        let sorted = sort_by_key(&rows);
        proof {
            lemma_sorted_rows(rows@, sorted@);
        }
        let ghost ix: Seq<int> = Seq::new(sorted@.len(), |i: int| sorted@[i].1 as int);
        let mut nodes: Vec<NodeDepth> = Vec::new();
        let mut max_depth: usize = 0;
        let mut q: usize = 0;
        while q < sorted.len()
            invariant
                q <= sorted@.len(),
                n == g.nodes@.len(),
                g == *graph,
                gs.len() == d@.len(),
                cyc@.len() == gs.len(),
                forall|c: int| 0 <= c < gs.len() ==> #[trigger] cyc@[c] == nontrivial(g, gs[c]),
                forall|c: int| 0 <= c < gs.len() ==> comp_depth(g, gs, c, #[trigger] d@[c] as nat),
                forall|k: int|
                    0 <= k < rows@.len() ==> {
                        &&& (#[trigger] rows@[k]).1 < n
                        &&& g.nodes@[rows@[k].1 as int].included
                        &&& rows@[k].2 < gs.len()
                        &&& gs[rows@[k].2 as int].contains(rows@[k].1 as int)
                        &&& rows@[k].0 == d@[rows@[k].2 as int]
                    },
                forall|i: int| 0 <= i < sorted@.len() ==> rows@.contains(#[trigger] sorted@[i]),
                ix.len() == sorted@.len(),
                forall|i: int| 0 <= i < ix.len() ==> #[trigger] ix[i] == sorted@[i].1 as int,
                nodes@.len() == q,
                forall|i: int|
                    0 <= i < q ==> {
                        &&& (#[trigger] nodes@[i]).node@ == g.nodes@[ix[i]].path@
                        &&& nodes@[i].depth == sorted@[i].0
                        &&& nodes@[i].in_cycle == cyc@[sorted@[i].2 as int]
                    },
                forall|i: int| 0 <= i < q ==> (#[trigger] nodes@[i]).depth <= max_depth,
                q > 0 ==> exists|i: int| 0 <= i < q && (#[trigger] nodes@[i]).depth == max_depth,
                q == 0 ==> max_depth == 0,
            decreases sorted@.len() - q,
        {
            let row = sorted[q];
            proof {
                let k = choose|k: int| 0 <= k < rows@.len() && rows@[k] == sorted@[q as int];
                assert(rows@[k].1 < n);
                assert(rows@[k].2 < gs.len());
            }
            let item = NodeDepth { node: graph.nodes[row.1].path.clone(), depth: row.0, in_cycle: cyc[row.2] };
            let ghost old_max = max_depth;
            let ghost old_nodes = nodes@;
            if q == 0 || row.0 > max_depth {
                max_depth = row.0;
            }
            nodes.push(item);
            proof {
                if q > 0 && !(row.0 > old_max) {
                    let i = choose|i: int| 0 <= i < q && (#[trigger] old_nodes[i]).depth == old_max;
                    assert(nodes@[i] == old_nodes[i]);
                    assert(nodes@[i].depth == max_depth);
                }
                if q == 0 || row.0 > old_max {
                    assert(nodes@[q as int].depth == max_depth);
                }
            }
            q = q + 1;
        }
        proof {
            if sorted@.len() > 0 {
                let i = choose|i: int| 0 <= i < q && (#[trigger] nodes@[i]).depth == max_depth;
                assert(0 <= i < sorted@.len() && nodes@[i].depth == max_depth);
            }
        }
        let ghost nv = nodes@;
        let r = DepthResult { max_depth, nodes };
        proof {
            assert(r.nodes@ == nv);
            lemma_depth_result(g, gs, rows@, sorted@, ix, d@, cyc@, r);
        }
        r
    }
}

} // verus!
