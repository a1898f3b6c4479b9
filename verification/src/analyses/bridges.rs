//! Cut vertices and bridges of the undirected link structure: the nodes and
//! links whose removal disconnects nodes that were connected.

use vstd::prelude::*;
use crate::graph::Graph;
use crate::reach::{
    adj_ok, bfs, bfs_post, edge, lemma_bfs_reachable, lemma_reach_sym, lemma_reach_trans, reachable, single,
    single_source,
};
use crate::structure::{keep_pair, sym_adj, sym_rel};

verus! {

/// A bridge, its ends in path order.
#[derive(Debug, Clone)]
pub struct BridgeEdge {
    pub source: String,
    pub target: String,
}

/// The cut vertices in path order, and the bridges ordered by source, then
/// target.
#[derive(Debug, Clone)]
pub struct BridgesResult {
    pub cut_vertices: Vec<String>,
    pub bridges: Vec<BridgeEdge>,
}

/// The bridges analysis.
pub struct Bridges;

/// Undirected links between distinct nodes: an edge either way whose target
/// is included.
pub open spec fn ulink(g: Graph) -> spec_fn(int, int) -> bool {
    sym_rel(g, false, true)
}

/// Whether a link `x — y` survives removing vertex `a` (when `vertex`) or the
/// link `a — b` (otherwise).
pub open spec fn keep_link(a: int, b: int, vertex: bool, x: int, y: int) -> bool {
    if vertex {
        x != a && y != a
    } else {
        !((x == a && y == b) || (x == b && y == a))
    }
}

/// The links that remain once vertex `u` is removed.
pub open spec fn without_vertex(g: Graph, u: int) -> spec_fn(int, int) -> bool {
    |x: int, y: int| ulink(g)(x, y) && keep_link(u, u, true, x, y)
}

/// The links that remain once the link `a — b` is removed.
pub open spec fn without_link(g: Graph, a: int, b: int) -> spec_fn(int, int) -> bool {
    |x: int, y: int| ulink(g)(x, y) && keep_link(a, b, false, x, y)
}

/// Whether `u` is a cut vertex: two of its neighbours are no longer connected
/// once `u` is removed.
pub open spec fn is_cut_vertex(g: Graph, u: int) -> bool {
    exists|x: int, y: int|
        #![trigger ulink(g)(u, x), ulink(g)(u, y)]
        ulink(g)(u, x) && ulink(g)(u, y) && !reachable(without_vertex(g, u), single(g.nodes@.len(), x), y)
}

/// Whether the link `a — b` is a bridge: its ends are no longer connected
/// once it is removed.
pub open spec fn is_bridge(g: Graph, a: int, b: int) -> bool {
    ulink(g)(a, b) && !reachable(without_link(g, a, b), single(g.nodes@.len(), a), b)
}

/// The cut vertices below `m`, in increasing order.
pub open spec fn cuts_below(g: Graph, m: int) -> Seq<int>
    decreases m,
{
    if m <= 0 {
        Seq::empty()
    } else if is_cut_vertex(g, m - 1) {
        cuts_below(g, m - 1).push(m - 1)
    } else {
        cuts_below(g, m - 1)
    }
}

/// The `b` with `a < b < m` such that `a — b` is a bridge, in increasing
/// order.
pub open spec fn bridges_from(g: Graph, a: int, m: int) -> Seq<int>
    decreases m - a,
{
    if m <= a + 1 {
        Seq::empty()
    } else if is_bridge(g, a, m - 1) {
        bridges_from(g, a, m - 1).push(m - 1)
    } else {
        bridges_from(g, a, m - 1)
    }
}

/// The bridges `(a, b)` with `a < b` and `a < m`, ordered by `a`, then `b`.
pub open spec fn bridges_below(g: Graph, m: int) -> Seq<(int, int)>
    decreases m,
{
    if m <= 0 {
        Seq::empty()
    } else {
        bridges_below(g, m - 1) + bridges_from(g, m - 1, g.nodes@.len() as int).map_values(|b: int| (m - 1, b))
    }
}

/// Whether `s` lists `y`.
pub open spec fn lists(s: Seq<usize>, y: int) -> bool {
    exists|k: int| 0 <= k < s.len() && s[k] == y
}

/// Adjacency lists without the links that `keep_link` drops.
fn adj_filter(adj: &Vec<Vec<usize>>, a: usize, b: usize, vertex: bool) -> (r: Vec<Vec<usize>>)
    requires
        adj_ok(adj@),
    ensures
        r@.len() == adj@.len(),
        adj_ok(r@),
        forall|x: int, y: int| #[trigger] edge(r@, x, y) <==> edge(adj@, x, y) && keep_link(a as int, b as int, vertex, x, y),
{
    let n = adj.len();
    let mut r: Vec<Vec<usize>> = Vec::new();
    let mut x: usize = 0;
    while x < n
        invariant
            x <= n,
            n == adj@.len(),
            adj_ok(adj@),
            r@.len() == x,
            forall|p: int, j: int| 0 <= p < x && 0 <= j < r@[p]@.len() ==> #[trigger] r@[p]@[j] < n,
            forall|p: int, y: int|
                0 <= p < x ==> (#[trigger] lists(r@[p]@, y) <==> lists(adj@[p]@, y) && keep_link(
                    a as int,
                    b as int,
                    vertex,
                    p,
                    y,
                )),
        decreases n - x,
    {
        let mut row: Vec<usize> = Vec::new();
        let mut j: usize = 0;
        while j < adj[x].len()
            invariant
                x < n,
                n == adj@.len(),
                adj_ok(adj@),
                j <= adj@[x as int]@.len(),
                forall|k: int| 0 <= k < row@.len() ==> #[trigger] row@[k] < n,
                forall|y: int|
                    #[trigger] lists(row@, y) <==> (lists(adj@[x as int]@.subrange(0, j as int), y) && keep_link(
                        a as int,
                        b as int,
                        vertex,
                        x as int,
                        y,
                    )),
            decreases adj@[x as int]@.len() - j,
        {
            let y = adj[x][j];
            proof {
                assert(y < n);
            }
            let keep = if vertex {
                x != a && y != a
            } else {
                !((x == a && y == b) || (x == b && y == a))
            };
            let ghost before = row@;
            let ghost pre = adj@[x as int]@.subrange(0, j as int);
            let ghost post = adj@[x as int]@.subrange(0, j + 1);
            if keep {
                row.push(y);
            }
            proof {
                assert(post =~= pre.push(y));
                assert forall|z: int| #[trigger] lists(post, z) <==> lists(pre, z) || z == y by {
                    if lists(post, z) {
                        let k = choose|k: int| 0 <= k < post.len() && post[k] == z;
                        if k < j {
                            assert(pre[k] == z);
                        }
                    }
                    if lists(pre, z) {
                        let k = choose|k: int| 0 <= k < pre.len() && pre[k] == z;
                        assert(post[k] == z);
                    }
                    if z == y {
                        assert(post[j as int] == z);
                    }
                }
                assert forall|z: int| #[trigger] lists(row@, z) <==> lists(before, z) || (keep && z == y) by {
                    if lists(row@, z) {
                        let k = choose|k: int| 0 <= k < row@.len() && row@[k] == z;
                        if k < before.len() {
                            assert(before[k] == z);
                        }
                    }
                    if lists(before, z) {
                        let k = choose|k: int| 0 <= k < before.len() && before[k] == z;
                        assert(row@[k] == z);
                    }
                    if keep && z == y {
                        assert(row@[before.len() as int] == z);
                    }
                }
                assert forall|z: int|
                    #[trigger] lists(row@, z) <==> (lists(post, z) && keep_link(a as int, b as int, vertex, x as int, z)) by {
                    assert(lists(post, z) <==> lists(pre, z) || z == y);
                    assert(lists(before, z) <==> (lists(pre, z) && keep_link(a as int, b as int, vertex, x as int, z)));
                }
            }
            j = j + 1;
        }
        proof {
            assert(adj@[x as int]@.subrange(0, j as int) =~= adj@[x as int]@);
        }
        let ghost before_r = r@;
        r.push(row);
        proof {
            assert forall|p: int, y: int|
                0 <= p < x + 1 implies (#[trigger] lists(r@[p]@, y) <==> lists(adj@[p]@, y) && keep_link(
                    a as int,
                    b as int,
                    vertex,
                    p,
                    y,
                )) by {
                if p < x {
                    assert(r@[p] == before_r[p]);
                }
            }
        }
        x = x + 1;
    }
    proof {
        assert forall|p: int, y: int| #[trigger] edge(r@, p, y) <==> edge(adj@, p, y) && keep_link(a as int, b as int, vertex, p, y) by {
            if 0 <= p < n {
                assert(edge(r@, p, y) == lists(r@[p]@, y));
                assert(edge(adj@, p, y) == lists(adj@[p]@, y));
            }
        }
    }
    r
}

proof fn lemma_ulink_sym(g: Graph, u: int, vertex: bool, a: int, b: int)
    ensures
        forall|x: int, y: int| #[trigger] without_vertex(g, u)(x, y) ==> without_vertex(g, u)(y, x),
        forall|x: int, y: int| #[trigger] without_link(g, a, b)(x, y) ==> without_link(g, a, b)(y, x),
{
}

/// Whether `u` is a cut vertex, given the undirected adjacency of `g`.
fn cut_vertex(adj: &Vec<Vec<usize>>, u: usize, Ghost(g): Ghost<Graph>) -> (r: bool)
    requires
        adj@.len() == g.nodes@.len(),
        adj_ok(adj@),
        u < adj@.len(),
        forall|x: int, y: int| 0 <= x < adj@.len() ==> (#[trigger] ulink(g)(x, y) <==> edge(adj@, x, y)),
        forall|x: int, y: int| #[trigger] ulink(g)(x, y) ==> 0 <= x < adj@.len() && 0 <= y < adj@.len(),
    ensures
        r == is_cut_vertex(g, u as int),
{
    let n = adj.len();
    if adj[u].len() == 0 {
        proof {
            assert forall|x: int| !#[trigger] ulink(g)(u as int, x) by {
                if ulink(g)(u as int, x) {
                    assert(edge(adj@, u as int, x));
                }
            }
        }
        return false;
    }
    let x0 = adj[u][0];
    let wadj = adj_filter(adj, u, u, true);
    let ghost rel = without_vertex(g, u as int);
    proof {
        assert(edge(adj@, u as int, x0 as int));
        assert forall|x: int, y: int| 0 <= x < wadj@.len() implies (#[trigger] rel(x, y) <==> edge(wadj@, x, y)) by {
            assert(ulink(g)(x, y) <==> edge(adj@, x, y));
        }
        lemma_ulink_sym(g, u as int, true, 0, 0);
    }
    let src = single_source(n, x0);
    let (dist, prev) = bfs(&wadj, &src, None, Ghost(rel));
    let mut j: usize = 0;
    while j < adj[u].len()
        invariant
            n == adj@.len(),
            n == g.nodes@.len(),
            u < n,
            x0 < n,
            adj_ok(adj@),
            j <= adj@[u as int]@.len(),
            rel == without_vertex(g, u as int),
            forall|x: int, y: int| 0 <= x < adj@.len() ==> (#[trigger] ulink(g)(x, y) <==> edge(adj@, x, y)),
            edge(adj@, u as int, x0 as int),
            src@ == single(n as nat, x0 as int),
            bfs_post(rel, src@, None, dist@, prev@),
            forall|k: int| 0 <= k < j ==> (#[trigger] dist@[adj@[u as int]@[k] as int]) is Some,
        decreases adj@[u as int]@.len() - j,
    {
        let y = adj[u][j];
        if dist[y].is_none() {
            proof {
                lemma_bfs_reachable(rel, src@, dist@, prev@, y as int);
                assert(edge(adj@, u as int, y as int));
                assert(ulink(g)(u as int, x0 as int) && ulink(g)(u as int, y as int));
                assert(is_cut_vertex(g, u as int));
            }
            return true;
        }
        j = j + 1;
    }
    proof {
        assert forall|x: int, y: int|
            ulink(g)(u as int, x) && ulink(g)(u as int, y) implies reachable(rel, single(n as nat, x), y) by {
            assert(edge(adj@, u as int, x));
            assert(edge(adj@, u as int, y));
            let jx = choose|k: int| 0 <= k < adj@[u as int]@.len() && adj@[u as int]@[k] == x;
            let jy = choose|k: int| 0 <= k < adj@[u as int]@.len() && adj@[u as int]@[k] == y;
            assert(dist@[adj@[u as int]@[jx] as int] is Some);
            assert(dist@[adj@[u as int]@[jy] as int] is Some);
            lemma_bfs_reachable(rel, src@, dist@, prev@, x);
            lemma_bfs_reachable(rel, src@, dist@, prev@, y);
            lemma_reach_sym(rel, n as nat, x0 as int, x);
            lemma_reach_trans(rel, n as nat, x, x0 as int, y);
        }
    }
    false
}

/// Whether removing the link `a — b` disconnects `a` from `b`.
fn link_is_bridge(adj: &Vec<Vec<usize>>, a: usize, b: usize, Ghost(g): Ghost<Graph>) -> (r: bool)
    requires
        adj@.len() == g.nodes@.len(),
        adj_ok(adj@),
        a < adj@.len(),
        b < adj@.len(),
        forall|x: int, y: int| 0 <= x < adj@.len() ==> (#[trigger] ulink(g)(x, y) <==> edge(adj@, x, y)),
        forall|x: int, y: int| #[trigger] ulink(g)(x, y) ==> 0 <= x < adj@.len() && 0 <= y < adj@.len(),
    ensures
        r == !reachable(without_link(g, a as int, b as int), single(g.nodes@.len(), a as int), b as int),
{
    let n = adj.len();
    let wadj = adj_filter(adj, a, b, false);
    let ghost rel = without_link(g, a as int, b as int);
    proof {
        assert forall|x: int, y: int| 0 <= x < wadj@.len() implies (#[trigger] rel(x, y) <==> edge(wadj@, x, y)) by {
            assert(ulink(g)(x, y) <==> edge(adj@, x, y));
        }
    }
    let src = single_source(n, a);
    let (dist, prev) = bfs(&wadj, &src, None, Ghost(rel));
    proof {
        lemma_bfs_reachable(rel, src@, dist@, prev@, b as int);
    }
    dist[b].is_none()
}

/// Whether `out` names the pairs `ps`, in order.
pub open spec fn names_pairs(g: Graph, out: Seq<BridgeEdge>, ps: Seq<(int, int)>) -> bool {
    &&& out.len() == ps.len()
    &&& forall|i: int|
        0 <= i < ps.len() ==> (#[trigger] out[i]).source@ == g.nodes@[ps[i].0].path@ && out[i].target@
            == g.nodes@[ps[i].1].path@
}

impl Bridges {
    /// The analysis name.
    pub fn name(&self) -> (r: &'static str)
        ensures
            r@ == "bridges"@,
    {
        "bridges"
    }

    /// Over the links between distinct nodes whose target is included, read
    /// without direction: the cut vertices in path order, and the bridges as
    /// pairs in path order, ordered by first end, then second.
    pub fn run(&self, graph: &Graph) -> (r: BridgesResult)
        requires
            graph.wf(),
        ensures
            r.cut_vertices@.len() == cuts_below(*graph, graph.nodes@.len() as int).len(),
            forall|q: int|
                0 <= q < r.cut_vertices@.len() ==> (#[trigger] r.cut_vertices@[q])@ == graph.nodes@[cuts_below(
                    *graph,
                    graph.nodes@.len() as int,
                )[q]].path@,
            names_pairs(*graph, r.bridges@, bridges_below(*graph, graph.nodes@.len() as int)),
    {
        let n = graph.nodes.len();
        let ghost g = *graph;
        let adj = sym_adj(graph, false, true);
        let mut cut_vertices: Vec<String> = Vec::new();
        let mut u: usize = 0;
        while u < n
            invariant
                u <= n,
                n == g.nodes@.len(),
                g == *graph,
                adj@.len() == n,
                adj_ok(adj@),
                forall|x: int, y: int| 0 <= x < adj@.len() ==> (#[trigger] ulink(g)(x, y) <==> edge(adj@, x, y)),
                forall|x: int, y: int| #[trigger] ulink(g)(x, y) ==> 0 <= x < adj@.len() && 0 <= y < adj@.len(),
                cut_vertices@.len() == cuts_below(g, u as int).len(),
                forall|q: int|
                    0 <= q < cut_vertices@.len() ==> (#[trigger] cut_vertices@[q])@ == g.nodes@[cuts_below(g, u as int)[q]].path@,
            decreases n - u,
        {
            let ghost before = cut_vertices@;
            if cut_vertex(&adj, u, Ghost(g)) {
                cut_vertices.push(graph.nodes[u].path.clone());
                proof {
                    assert(cuts_below(g, u + 1) == cuts_below(g, u as int).push(u as int));
                    assert forall|q: int|
                        0 <= q < cut_vertices@.len() implies (#[trigger] cut_vertices@[q])@ == g.nodes@[cuts_below(g, u + 1)[q]].path@ by {
                        if q < before.len() {
                            assert(cut_vertices@[q] == before[q]);
                        }
                    }
                }
            } else {
                assert(cuts_below(g, u + 1) == cuts_below(g, u as int));
            }
            u = u + 1;
        }
        let mut bridges: Vec<BridgeEdge> = Vec::new();
        let mut a: usize = 0;
        while a < n
            invariant
                a <= n,
                n == g.nodes@.len(),
                g == *graph,
                adj@.len() == n,
                adj_ok(adj@),
                forall|x: int, y: int| 0 <= x < adj@.len() ==> (#[trigger] ulink(g)(x, y) <==> edge(adj@, x, y)),
                forall|x: int, y: int| #[trigger] ulink(g)(x, y) ==> 0 <= x < adj@.len() && 0 <= y < adj@.len(),
                names_pairs(g, bridges@, bridges_below(g, a as int)),
            decreases n - a,
        {
            // Mark the nodes linked to `a`.
            let mut linked: Vec<bool> = Vec::new();
            let mut i: usize = 0;
            while i < n
                invariant
                    i <= n,
                    linked@.len() == i,
                    forall|x: int| 0 <= x < i ==> !#[trigger] linked@[x],
                decreases n - i,
            {
                linked.push(false);
                i = i + 1;
            }
            let mut j: usize = 0;
            while j < adj[a].len()
                invariant
                    a < n,
                    n == adj@.len(),
                    adj_ok(adj@),
                    j <= adj@[a as int]@.len(),
                    linked@.len() == n,
                    forall|x: int| 0 <= x < n ==> (#[trigger] linked@[x] <==> exists|k: int| 0 <= k < j && adj@[a as int]@[k] == x),
                decreases adj@[a as int]@.len() - j,
            {
                let y = adj[a][j];
                linked.set(y, true);
                proof {
                    assert forall|x: int| 0 <= x < n implies (#[trigger] linked@[x] <==> exists|k: int| 0 <= k < j + 1 && adj@[a as int]@[k] == x) by {
                        if x == y {
                            assert(adj@[a as int]@[j as int] == x);
                        }
                    }
                }
                j = j + 1;
            }
            proof {
                assert forall|x: int| 0 <= x < n implies (#[trigger] linked@[x] <==> ulink(g)(a as int, x)) by {
                    assert(ulink(g)(a as int, x) <==> edge(adj@, a as int, x));
                }
            }
            let ghost below = bridges_below(g, a as int);
            let mut b: usize = a + 1;
            while b < n
                invariant
                    a < b <= n,
                    n == g.nodes@.len(),
                    g == *graph,
                    adj@.len() == n,
                    adj_ok(adj@),
                    forall|x: int, y: int| 0 <= x < adj@.len() ==> (#[trigger] ulink(g)(x, y) <==> edge(adj@, x, y)),
                    forall|x: int, y: int| #[trigger] ulink(g)(x, y) ==> 0 <= x < adj@.len() && 0 <= y < adj@.len(),
                    linked@.len() == n,
                    forall|x: int| 0 <= x < n ==> (#[trigger] linked@[x] <==> ulink(g)(a as int, x)),
                    below == bridges_below(g, a as int),
                    names_pairs(g, bridges@, below + bridges_from(g, a as int, b as int).map_values(|x: int| (a as int, x))),
                decreases n - b,
            {
                let ghost from0 = bridges_from(g, a as int, b as int);
                let ghost before = bridges@;
                if linked[b] && link_is_bridge(&adj, a, b, Ghost(g)) {
                    bridges.push(BridgeEdge { source: graph.nodes[a].path.clone(), target: graph.nodes[b].path.clone() });
                    proof {
                        assert(is_bridge(g, a as int, b as int));
                        assert(bridges_from(g, a as int, b + 1) == from0.push(b as int));
                        let ps = below + from0.push(b as int).map_values(|x: int| (a as int, x));
                        let ps0 = below + from0.map_values(|x: int| (a as int, x));
                        assert(ps =~= ps0.push((a as int, b as int)));
                        assert forall|i: int| 0 <= i < ps.len() implies (#[trigger] bridges@[i]).source@ == g.nodes@[ps[i].0].path@
                            && bridges@[i].target@ == g.nodes@[ps[i].1].path@ by {
                            if i < before.len() {
                                assert(bridges@[i] == before[i]);
                            }
                        }
                    }
                } else {
                    proof {
                        assert(!is_bridge(g, a as int, b as int));
                        assert(bridges_from(g, a as int, b + 1) == from0);
                    }
                }
                b = b + 1;
            }
            proof {
                let ps = below + bridges_from(g, a as int, n as int).map_values(|x: int| (a as int, x));
                assert(bridges_below(g, a + 1) == ps);
            }
            a = a + 1;
        }
        BridgesResult { cut_vertices, bridges }
    }
}

} // verus!
