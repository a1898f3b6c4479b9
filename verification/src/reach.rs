//! Reachability over adjacency lists: the breadth-first search every
//! structural analysis is built on, with the shortest-distance facts it
//! establishes.

use vstd::prelude::*;

verus! {

/// Whether `adj` has an edge `u → v`.
pub open spec fn edge(adj: Seq<Vec<usize>>, u: int, v: int) -> bool {
    0 <= u < adj.len() && exists|j: int| 0 <= j < adj[u]@.len() && adj[u]@[j] == v
}

/// Whether every listed neighbour is a vertex.
pub open spec fn adj_ok(adj: Seq<Vec<usize>>) -> bool {
    forall|u: int, j: int|
        0 <= u < adj.len() && 0 <= j < adj[u]@.len() ==> #[trigger] adj[u]@[j] < adj.len()
}

/// Whether `p` is a walk along `adj` from a source to `v`.
pub open spec fn is_walk(rel: spec_fn(int, int) -> bool, src: Seq<bool>, p: Seq<int>, v: int) -> bool {
    &&& p.len() > 0
    &&& 0 <= p[0] < src.len()
    &&& src[p[0]]
    &&& p.last() == v
    &&& forall|i: int| 0 <= i < p.len() - 1 ==> #[trigger] rel(p[i], p[i + 1])
}

/// Whether `v` is reachable from a source in at most `k` steps.
pub open spec fn within(rel: spec_fn(int, int) -> bool, src: Seq<bool>, v: int, k: nat) -> bool {
    exists|p: Seq<int>| #[trigger] is_walk(rel, src, p, v) && p.len() <= k + 1
}

/// Reachable in zero steps is being a source.
pub proof fn lemma_within_zero(rel: spec_fn(int, int) -> bool, src: Seq<bool>, v: int)
    ensures
        within(rel, src, v, 0) == (0 <= v < src.len() && src[v]),
{
    if 0 <= v < src.len() && src[v] {
        let p = seq![v];
        assert(is_walk(rel, src, p, v));
    }
    if within(rel, src, v, 0) {
        let p = choose|p: Seq<int>| #[trigger] is_walk(rel, src, p, v) && p.len() <= 1;
        assert(p[0] == v);
    }
}

/// Whether `v`'s shortest distance from the sources is exactly `d`.
pub open spec fn at_level(rel: spec_fn(int, int) -> bool, src: Seq<bool>, v: int, d: nat) -> bool {
    within(rel, src, v, d) && (d == 0 || !within(rel, src, v, (d - 1) as nat))
}

/// Whether `v` is reachable from a source at all.
pub open spec fn reachable(rel: spec_fn(int, int) -> bool, src: Seq<bool>, v: int) -> bool {
    exists|k: nat| within(rel, src, v, k)
}

/// Whether `k` steps are allowed under `limit` (`None` allows any number).
pub open spec fn allowed(k: nat, limit: Option<usize>) -> bool {
    match limit {
        Some(m) => k <= m,
        None => true,
    }
}

/// The number of `true` entries.
pub open spec fn count_true(s: Seq<bool>) -> nat
    decreases s.len(),
{
    if s.len() == 0 {
        0
    } else {
        count_true(s.drop_last()) + if s.last() {
            1nat
        } else {
            0nat
        }
    }
}

proof fn lemma_count_true_le(s: Seq<bool>)
    ensures
        count_true(s) <= s.len(),
    decreases s.len(),
{
    if s.len() > 0 {
        lemma_count_true_le(s.drop_last());
    }
}

proof fn lemma_count_true_set(s: Seq<bool>, w: int)
    requires
        0 <= w < s.len(),
        !s[w],
    ensures
        count_true(s.update(w, true)) == count_true(s) + 1,
    decreases s.len(),
{
    let t = s.update(w, true);
    if w == s.len() - 1 {
        assert(t.drop_last() =~= s.drop_last());
    } else {
        lemma_count_true_set(s.drop_last(), w);
        assert(t.drop_last() =~= s.drop_last().update(w, true));
    }
}

/// One more step reaches what was reached, plus the successors of what was
/// reached.
pub proof fn lemma_within_step(rel: spec_fn(int, int) -> bool, src: Seq<bool>, v: int, k: nat)
    ensures
        within(rel, src, v, k + 1) == (within(rel, src, v, k) || exists|u: int|
            #[trigger] within(rel, src, u, k) && rel(u, v)),
{
    if within(rel, src, v, k + 1) && !within(rel, src, v, k) {
        let p = choose|p: Seq<int>| #[trigger] is_walk(rel, src, p, v) && p.len() <= k + 2;
        assert(p.len() == k + 2);
        let q = p.drop_last();
        let u = q.last();
        assert(is_walk(rel, src, q, u)) by {
            assert forall|i: int| 0 <= i < q.len() - 1 implies #[trigger] rel(q[i], q[i + 1]) by {
                assert(rel(p[i], p[i + 1]));
            }
        }
        assert(within(rel, src, u, k));
        assert(rel(p[p.len() - 2], p[p.len() - 1]));
    }
    if exists|u: int| #[trigger] within(rel, src, u, k) && rel(u, v) {
        let u = choose|u: int| #[trigger] within(rel, src, u, k) && rel(u, v);
        let q = choose|q: Seq<int>| #[trigger] is_walk(rel, src, q, u) && q.len() <= k + 1;
        let p = q.push(v);
        assert(is_walk(rel, src, p, v)) by {
            assert forall|i: int| 0 <= i < p.len() - 1 implies #[trigger] rel(p[i], p[i + 1]) by {
                if i < q.len() - 1 {
                    assert(rel(q[i], q[i + 1]));
                }
            }
        }
    }
    if within(rel, src, v, k) {
        let p = choose|p: Seq<int>| #[trigger] is_walk(rel, src, p, v) && p.len() <= k + 1;
        assert(p.len() <= k + 2);
    }
}

/// Reachability within fewer steps implies within more.
pub proof fn lemma_within_mono(rel: spec_fn(int, int) -> bool, src: Seq<bool>, v: int, j: nat, k: nat)
    requires
        j <= k,
        within(rel, src, v, j),
    ensures
        within(rel, src, v, k),
{
    let p = choose|p: Seq<int>| #[trigger] is_walk(rel, src, p, v) && p.len() <= j + 1;
    assert(p.len() <= k + 1);
}

/// A vertex reachable within `k` steps has some exact level at most `k`.
pub proof fn lemma_has_level(rel: spec_fn(int, int) -> bool, src: Seq<bool>, v: int, k: nat) -> (d: nat)
    requires
        within(rel, src, v, k),
    ensures
        d <= k,
        at_level(rel, src, v, d),
    decreases k,
{
    if k == 0 || !within(rel, src, v, (k - 1) as nat) {
        k
    } else {
        lemma_has_level(rel, src, v, (k - 1) as nat)
    }
}

/// Once a step adds nothing, no number of further steps adds anything.
proof fn lemma_fixpoint(rel: spec_fn(int, int) -> bool, src: Seq<bool>, k: nat, j: nat, v: int)
    requires
        k <= j,
        forall|x: int| within(rel, src, x, k + 1) ==> within(rel, src, x, k),
        within(rel, src, v, j),
    ensures
        within(rel, src, v, k),
    decreases j,
{
    if j > k {
        let j1 = (j - 1) as nat;
        lemma_within_step(rel, src, v, j1);
        assert(j1 + 1 == j);
        if within(rel, src, v, j1) {
            lemma_fixpoint(rel, src, k, j1, v);
        } else {
            let u = choose|u: int| #[trigger] within(rel, src, u, j1) && rel(u, v);
            lemma_fixpoint(rel, src, k, j1, u);
            lemma_within_step(rel, src, v, k);
            assert(within(rel, src, v, k + 1));
        }
    }
}

/// The result of a breadth-first search: for each vertex, its shortest
/// distance from the sources when reached, and the vertex it was reached
/// from.
pub open spec fn bfs_post(
    rel: spec_fn(int, int) -> bool,
    src: Seq<bool>,
    limit: Option<usize>,
    dist: Seq<Option<usize>>,
    prev: Seq<usize>,
) -> bool {
    &&& dist.len() == src.len()
    &&& prev.len() == src.len()
    &&& forall|v: int|
        0 <= v < src.len() ==> match #[trigger] dist[v] {
            Some(d) => {
                &&& at_level(rel, src, v, d as nat)
                &&& allowed(d as nat, limit)
                &&& (d > 0 ==> prev[v] < src.len() && rel(prev[v] as int, v) && at_level(
                    rel,
                    src,
                    prev[v] as int,
                    (d - 1) as nat,
                ))
            },
            None => forall|k: nat| allowed(k, limit) ==> !#[trigger] within(rel, src, v, k),
        }
}

/// Breadth-first search from the sources marked in `src`, taking at most
/// `limit` steps. Every vertex gets its exact shortest distance when one
/// within the limit exists, together with a neighbour one step closer that
/// reached it; every other vertex gets `None`.
pub fn bfs(
    adj: &Vec<Vec<usize>>,
    src: &Vec<bool>,
    limit: Option<usize>,
    Ghost(rel): Ghost<spec_fn(int, int) -> bool>,
) -> (r: (
    Vec<Option<usize>>,
    Vec<usize>,
))
    requires
        adj@.len() == src@.len(),
        adj_ok(adj@),
        forall|u: int, v: int| 0 <= u < adj@.len() ==> (#[trigger] rel(u, v) <==> edge(adj@, u, v)),
        forall|u: int, v: int| #[trigger] rel(u, v) ==> 0 <= u < adj@.len() && 0 <= v < adj@.len(),
    ensures
        bfs_post(rel, src@, limit, r.0@, r.1@),
{
    let n = adj.len();
    let ghost a = adj@;
    let ghost s = src@;
    let mut vis: Vec<bool> = Vec::new();
    let mut dist: Vec<Option<usize>> = Vec::new();
    let mut prev: Vec<usize> = Vec::new();
    let mut frontier: Vec<usize> = Vec::new();
    let mut i: usize = 0;
    while i < n
        invariant
            i <= n,
            n == a.len(),
            a == adj@,
            s == src@,
            s.len() == n,
            vis@.len() == i,
            dist@.len() == i,
            prev@.len() == i,
            forall|v: int| 0 <= v < i ==> (#[trigger] vis@[v] <==> s[v]),
            forall|v: int| 0 <= v < i ==> (#[trigger] dist@[v] == if s[v] {
                Some(0usize)
            } else {
                None
            }),
            forall|x: int| 0 <= x < frontier@.len() ==> #[trigger] frontier@[x] < i && s[frontier@[x] as int],
            forall|v: int| 0 <= v < i && s[v] ==> frontier@.contains(v as usize),
            count_true(vis@) == frontier@.len(),
        decreases n - i,
    {
        let b = src[i];
        let ghost before = vis@;
        let ghost fbefore = frontier@;
        vis.push(b);
        assert(vis@.drop_last() =~= before);
        if b {
            dist.push(Some(0));
            frontier.push(i);
            assert forall|v: int| 0 <= v < i + 1 && s[v] implies frontier@.contains(v as usize) by {
                if v < i {
                    let q = choose|q: int| 0 <= q < fbefore.len() && fbefore[q] == v as usize;
                    assert(frontier@[q] == v as usize);
                } else {
                    assert(frontier@[frontier@.len() - 1] == i);
                }
            }
        } else {
            dist.push(None);
        }
        prev.push(0);
        i = i + 1;
    }
    let mut k: usize = 0;
    proof {
        lemma_count_true_le(vis@);
        assert forall|v: int| 0 <= v < n implies (#[trigger] vis@[v] <==> within(rel, s, v, 0)) by {
            lemma_within_zero(rel, s, v);
        }
        assert forall|v: int| 0 <= v < n && #[trigger] at_level(rel, s, v, 0) implies frontier@.contains(
            v as usize,
        ) by {
            lemma_within_zero(rel, s, v);
        }
        assert forall|x: int| 0 <= x < frontier@.len() implies #[trigger] frontier@[x] < n && at_level(rel,
            s,
            frontier@[x] as int,
            0,
        ) by {
            lemma_within_zero(rel, s, frontier@[x] as int);
        }
        assert forall|v: int| 0 <= v < n implies match #[trigger] dist@[v] {
            Some(d) => {
                &&& at_level(rel, s, v, d as nat)
                &&& d <= 0
                &&& (d > 0 ==> prev@[v] < n && rel(prev@[v] as int, v) && at_level(rel,
                    s,
                    prev@[v] as int,
                    (d - 1) as nat,
                ))
            },
            None => true,
        } by {
            lemma_within_zero(rel, s, v);
        }
    }
    loop
        invariant
            n == a.len(),
            a == adj@,
            s == src@,
            s.len() == n,
            adj_ok(a),
            forall|u: int, v: int| 0 <= u < n ==> (#[trigger] rel(u, v) <==> edge(a, u, v)),
            forall|u: int, v: int| #[trigger] rel(u, v) ==> 0 <= u < n && 0 <= v < n,
            vis@.len() == n,
            dist@.len() == n,
            prev@.len() == n,
            allowed(k as nat, limit),
            k <= count_true(vis@),
            count_true(vis@) <= n,
            forall|v: int| 0 <= v < n ==> (#[trigger] vis@[v] <==> within(rel, s, v, k as nat)),
            forall|v: int| 0 <= v < n ==> (#[trigger] vis@[v] <==> dist@[v] is Some),
            forall|v: int|
                0 <= v < n ==> match #[trigger] dist@[v] {
                    Some(d) => {
                        &&& at_level(rel, s, v, d as nat)
                        &&& d <= k
                        &&& (d > 0 ==> prev@[v] < n && rel(prev@[v] as int, v) && at_level(rel,
                            s,
                            prev@[v] as int,
                            (d - 1) as nat,
                        ))
                    },
                    None => true,
                },
            forall|x: int|
                0 <= x < frontier@.len() ==> #[trigger] frontier@[x] < n && at_level(rel,
                    s,
                    frontier@[x] as int,
                    k as nat,
                ),
            forall|v: int| 0 <= v < n && #[trigger] at_level(rel, s, v, k as nat) ==> frontier@.contains(v as usize),
        ensures
            bfs_post(rel, s, limit, dist@, prev@),
        decreases n - count_true(vis@),
    {
        let stop = match limit {
            Some(m) => k >= m,
            None => false,
        };
        if stop {
            assert forall|v: int| 0 <= v < n implies match #[trigger] dist@[v] {
                Some(d) => allowed(d as nat, limit),
                None => forall|j: nat| allowed(j, limit) ==> !#[trigger] within(rel, s, v, j),
            } by {
                match dist@[v] {
                    Some(d) => {},
                    None => {
                        assert(!vis@[v]);
                        assert(!within(rel, s, v, k as nat));
                        assert forall|j: nat| allowed(j, limit) implies !#[trigger] within(rel, s, v, j) by {
                            if within(rel, s, v, j) {
                                match limit {
                                    Some(m) => {
                                        assert(j <= m);
                                        assert(m <= k);
                                    },
                                    None => {},
                                }
                                lemma_within_mono(rel, s, v, j, k as nat);
                            }
                        }
                    },
                }
            }
            break;
        }
        let ghost c0 = count_true(vis@);
        let ghost vis0 = vis@;
        let mut next: Vec<usize> = Vec::new();
        let mut fi: usize = 0;
        while fi < frontier.len()
            invariant
                n == a.len(),
                a == adj@,
                s == src@,
                s.len() == n,
                adj_ok(a),
                forall|u: int, v: int| 0 <= u < n ==> (#[trigger] rel(u, v) <==> edge(a, u, v)),
                forall|u: int, v: int| #[trigger] rel(u, v) ==> 0 <= u < n && 0 <= v < n,
                vis@.len() == n,
                dist@.len() == n,
                prev@.len() == n,
                fi <= frontier@.len(),
                k <= c0,
                c0 <= n,
                count_true(vis@) == c0 + next@.len(),
                count_true(vis@) <= n,
                forall|v: int| 0 <= v < n ==> (within(rel, s, v, k as nat) ==> #[trigger] vis@[v]),
                forall|v: int| 0 <= v < n ==> (vis0[v] <==> within(rel, s, v, k as nat)),
                forall|v: int| 0 <= v < n ==> (#[trigger] vis@[v] <==> dist@[v] is Some),
                forall|v: int|
                    0 <= v < n ==> match #[trigger] dist@[v] {
                        Some(d) => {
                            &&& at_level(rel, s, v, d as nat)
                            &&& d <= k + 1
                            &&& (d > 0 ==> prev@[v] < n && rel(prev@[v] as int, v) && at_level(rel,
                                s,
                                prev@[v] as int,
                                (d - 1) as nat,
                            ))
                        },
                        None => true,
                    },
                forall|v: int|
                    0 <= v < n && #[trigger] vis@[v] && !within(rel, s, v, k as nat) ==> at_level(rel,
                        s,
                        v,
                        (k + 1) as nat,
                    ) && next@.contains(v as usize),
                forall|x: int|
                    0 <= x < next@.len() ==> #[trigger] next@[x] < n && at_level(rel,
                        s,
                        next@[x] as int,
                        (k + 1) as nat,
                    ),
                forall|x: int|
                    0 <= x < frontier@.len() ==> #[trigger] frontier@[x] < n && at_level(rel,
                        s,
                        frontier@[x] as int,
                        k as nat,
                    ),
                forall|x: int, j: int|
                    0 <= x < fi && 0 <= j < a[frontier@[x] as int]@.len() ==> #[trigger] vis@[a[frontier@[x] as int]@[j] as int],
            decreases frontier@.len() - fi,
        {
            let u = frontier[fi];
            let nbrs = &adj[u];
            let mut j: usize = 0;
            while j < nbrs.len()
                invariant
                    n == a.len(),
                    a == adj@,
                    s == src@,
                    s.len() == n,
                    adj_ok(a),
                    forall|u: int, v: int| 0 <= u < n ==> (#[trigger] rel(u, v) <==> edge(a, u, v)),
                    forall|u: int, v: int| #[trigger] rel(u, v) ==> 0 <= u < n && 0 <= v < n,
                    nbrs@ == a[u as int]@,
                    u < n,
                    at_level(rel, s, u as int, k as nat),
                    vis@.len() == n,
                    dist@.len() == n,
                    prev@.len() == n,
                    fi < frontier@.len(),
                    frontier@[fi as int] == u,
                    forall|x: int| 0 <= x < frontier@.len() ==> #[trigger] frontier@[x] < n,
                    j <= nbrs@.len(),
                    k <= c0,
                    c0 <= n,
                    count_true(vis@) == c0 + next@.len(),
                    count_true(vis@) <= n,
                    forall|v: int| 0 <= v < n ==> (within(rel, s, v, k as nat) ==> #[trigger] vis@[v]),
                    forall|v: int| 0 <= v < n ==> (vis0[v] <==> within(rel, s, v, k as nat)),
                    forall|v: int| 0 <= v < n ==> (#[trigger] vis@[v] <==> dist@[v] is Some),
                    forall|v: int|
                        0 <= v < n ==> match #[trigger] dist@[v] {
                            Some(d) => {
                                &&& at_level(rel, s, v, d as nat)
                                &&& d <= k + 1
                                &&& (d > 0 ==> prev@[v] < n && rel(prev@[v] as int, v)
                                    && at_level(rel, s, prev@[v] as int, (d - 1) as nat))
                            },
                            None => true,
                        },
                    forall|v: int|
                        0 <= v < n && #[trigger] vis@[v] && !within(rel, s, v, k as nat) ==> at_level(rel,
                            s,
                            v,
                            (k + 1) as nat,
                        ) && next@.contains(v as usize),
                    forall|x: int|
                        0 <= x < next@.len() ==> #[trigger] next@[x] < n && at_level(rel,
                            s,
                            next@[x] as int,
                            (k + 1) as nat,
                        ),
                    forall|x: int, jj: int|
                        0 <= x < fi && 0 <= jj < a[frontier@[x] as int]@.len() ==> #[trigger] vis@[a[frontier@[x] as int]@[jj] as int],
                    forall|jj: int| 0 <= jj < j ==> #[trigger] vis@[nbrs@[jj] as int],
                decreases nbrs@.len() - j,
            {
                let w = nbrs[j];
                assert(w < n) by {
                    assert(a[u as int]@[j as int] < a.len());
                }
                if !vis[w] {
                    proof {
                        lemma_count_true_set(vis@, w as int);
                        lemma_count_true_le(vis@.update(w as int, true));
                        assert(a[u as int]@[j as int] == w);
                        assert(edge(a, u as int, w as int));
                        assert(rel(u as int, w as int));
                        lemma_within_step(rel, s, w as int, k as nat);
                        assert(within(rel, s, w as int, (k + 1) as nat));
                        assert(!within(rel, s, w as int, k as nat));
                    }
                    let ghost vprev = vis@;
                    let ghost nprev = next@;
                    vis.set(w, true);
                    dist.set(w, Some(k + 1));
                    prev.set(w, u);
                    next.push(w);
                    assert forall|v: int|
                        0 <= v < n && #[trigger] vis@[v] && !within(rel, s, v, k as nat) implies at_level(rel,
                        s,
                        v,
                        (k + 1) as nat,
                    ) && next@.contains(v as usize) by {
                        if v != w {
                            assert(vprev[v]);
                            assert(nprev.contains(v as usize));
                            let q = choose|q: int| 0 <= q < nprev.len() && nprev[q] == v as usize;
                            assert(next@[q] == v as usize);
                        } else {
                            assert(next@[next@.len() - 1] == w);
                        }
                    }
                }
                j = j + 1;
            }
            assert forall|x: int, jj: int|
                0 <= x < fi + 1 && 0 <= jj < a[frontier@[x] as int]@.len() implies #[trigger] vis@[a[frontier@[x] as int]@[jj] as int] by {
                if x == fi {
                    assert(a[frontier@[x] as int]@[jj] == nbrs@[jj]);
                }
            }
            fi = fi + 1;
        }
        proof {
            assert forall|v: int| 0 <= v < n implies (#[trigger] vis@[v] <==> within(rel,
                s,
                v,
                (k + 1) as nat,
            )) by {
                if vis@[v] && !within(rel, s, v, k as nat) {
                    assert(at_level(rel, s, v, (k + 1) as nat));
                }
                lemma_within_step(rel, s, v, k as nat);
                if within(rel, s, v, (k + 1) as nat) && !within(rel, s, v, k as nat) {
                    let u = choose|u: int| #[trigger] within(rel, s, u, k as nat) && rel(u, v);
                    assert(0 <= u < n);
                    let d = lemma_has_level(rel, s, u, k as nat);
                    if d < k {
                        lemma_within_mono(rel, s, u, d, (k - 1) as nat);
                        lemma_within_step(rel, s, v, (k - 1) as nat);
                        assert(within(rel, s, v, k as nat));
                    } else {
                        assert(at_level(rel, s, u, k as nat));
                        assert(frontier@.contains(u as usize));
                        let x = choose|x: int| 0 <= x < frontier@.len() && frontier@[x] == u as usize;
                        assert(edge(a, u, v));
                        let jj = choose|jj: int| 0 <= jj < a[u]@.len() && a[u]@[jj] == v;
                        assert(vis@[a[frontier@[x] as int]@[jj] as int]);
                    }
                }
            }
            lemma_count_true_le(vis@);
        }
        if next.len() == 0 {
            proof {
                assert forall|x: int| within(rel, s, x, (k + 1) as nat) implies within(rel,
                    s,
                    x,
                    k as nat,
                ) by {
                    lemma_within_step(rel, s, x, k as nat);
                    if !within(rel, s, x, k as nat) {
                        let u = choose|u: int| #[trigger] within(rel, s, u, k as nat) && rel(u, x);
                        assert(0 <= x < n);
                        if 0 <= x < n {
                            assert(vis@[x]);
                            assert(next@.contains(x as usize));
                        } else {
                            assert(edge(a, u, x));
                            let jj = choose|jj: int| 0 <= jj < a[u]@.len() && a[u]@[jj] == x;
                            assert(a[u]@[jj] < a.len());
                        }
                    }
                }
                assert forall|v: int| 0 <= v < n implies match #[trigger] dist@[v] {
                    Some(d) => allowed(d as nat, limit),
                    None => forall|j: nat| allowed(j, limit) ==> !#[trigger] within(rel, s, v, j),
                } by {
                    match dist@[v] {
                        Some(d) => {
                            if d > k {
                                assert(at_level(rel, s, v, d as nat));
                                assert(vis@[v]);
                                assert(within(rel, s, v, k as nat));
                                lemma_within_mono(rel, s, v, k as nat, (d - 1) as nat);
                            }
                            lemma_allowed_mono(d as nat, k as nat, limit);
                        },
                        None => {
                            assert(!vis@[v]);
                            assert forall|j: nat| allowed(j, limit) implies !#[trigger] within(rel,
                                s,
                                v,
                                j,
                            ) by {
                                if within(rel, s, v, j) {
                                    assert(!vis@[v]);
                                    if j <= k {
                                        lemma_within_mono(rel, s, v, j, k as nat);
                                    } else {
                                        lemma_fixpoint(rel, s, k as nat, j, v);
                                    }
                                }
                            }
                        },
                    }
                }
            }
            break;
        }
        assert forall|v: int| 0 <= v < n && #[trigger] at_level(rel, s, v, (k + 1) as nat) implies next@.contains(
            v as usize,
        ) by {
            assert(vis@[v]);
        }
        k = k + 1;
        frontier = next;
    }
    (dist, prev)
}

/// A vertex has at most one exact level.
pub proof fn lemma_level_unique(rel: spec_fn(int, int) -> bool, src: Seq<bool>, v: int, d1: nat, d2: nat)
    requires
        at_level(rel, src, v, d1),
        at_level(rel, src, v, d2),
    ensures
        d1 == d2,
{
    if d1 < d2 {
        lemma_within_mono(rel, src, v, d1, (d2 - 1) as nat);
    } else if d2 < d1 {
        lemma_within_mono(rel, src, v, d2, (d1 - 1) as nat);
    }
}

/// What a search without a limit says about reachability: a vertex is
/// reachable exactly when it got a distance, and then it is at that level.
pub proof fn lemma_bfs_reachable(
    rel: spec_fn(int, int) -> bool,
    src: Seq<bool>,
    dist: Seq<Option<usize>>,
    prev: Seq<usize>,
    v: int,
)
    requires
        bfs_post(rel, src, None, dist, prev),
        0 <= v < src.len(),
    ensures
        reachable(rel, src, v) == dist[v] is Some,
        forall|d: nat| #[trigger] at_level(rel, src, v, d) ==> dist[v] == Some(d as usize),
{
    match dist[v] {
        Some(d) => {
            assert(within(rel, src, v, d as nat));
            assert forall|e: nat| #[trigger] at_level(rel, src, v, e) implies dist[v] == Some(e as usize) by {
                lemma_level_unique(rel, src, v, e, d as nat);
            }
        },
        None => {
            assert(forall|k: nat| allowed(k, None) ==> !#[trigger] within(rel, src, v, k));
            assert forall|k: nat| !#[trigger] within(rel, src, v, k) by {
                assert(allowed(k, None));
            }
        },
    }
}

/// The marking of the single source `v` among `n` vertices.
pub open spec fn single(n: nat, v: int) -> Seq<bool> {
    Seq::new(n, |i: int| i == v)
}

/// How many of the vertices below `m` satisfy `pred`.
pub open spec fn count_of(m: nat, pred: spec_fn(int) -> bool) -> nat
    decreases m,
{
    if m == 0 {
        0
    } else {
        count_of((m - 1) as nat, pred) + if pred(m - 1) {
            1nat
        } else {
            0nat
        }
    }
}

/// A count never exceeds the number of vertices counted over.
pub proof fn lemma_count_of_le(m: nat, pred: spec_fn(int) -> bool)
    ensures
        count_of(m, pred) <= m,
    decreases m,
{
    if m > 0 {
        lemma_count_of_le((m - 1) as nat, pred);
    }
}

/// The sources as a vector of marks.
pub fn single_source(n: usize, v: usize) -> (r: Vec<bool>)
    ensures
        r@ == single(n as nat, v as int),
{
    let mut r: Vec<bool> = Vec::new();
    let mut i: usize = 0;
    while i < n
        invariant
            i <= n,
            r@ == single(i as nat, v as int),
        decreases n - i,
    {
        r.push(i == v);
        i = i + 1;
        assert(r@ =~= single(i as nat, v as int));
    }
    r
}

/// Every vertex reaches itself.
pub proof fn lemma_reach_self(rel: spec_fn(int, int) -> bool, n: nat, a: int)
    requires
        0 <= a < n,
    ensures
        reachable(rel, single(n, a), a),
{
    let p = seq![a];
    assert(is_walk(rel, single(n, a), p, a));
    assert(within(rel, single(n, a), a, 0));
}

/// Reachability composes.
pub proof fn lemma_reach_trans(rel: spec_fn(int, int) -> bool, n: nat, a: int, b: int, c: int)
    requires
        0 <= b < n,
        reachable(rel, single(n, a), b),
        reachable(rel, single(n, b), c),
    ensures
        reachable(rel, single(n, a), c),
{
    let k1 = choose|k: nat| within(rel, single(n, a), b, k);
    let p = choose|p: Seq<int>| #[trigger] is_walk(rel, single(n, a), p, b) && p.len() <= k1 + 1;
    let k2 = choose|k: nat| within(rel, single(n, b), c, k);
    let q = choose|q: Seq<int>| #[trigger] is_walk(rel, single(n, b), q, c) && q.len() <= k2 + 1;
    let w = p + q.drop_first();
    assert(q[0] == b);
    assert(is_walk(rel, single(n, a), w, c)) by {
        assert(w[0] == p[0]);
        if q.len() > 1 {
            assert(w.last() == q.last());
        } else {
            assert(w =~= p);
        }
        assert forall|i: int| 0 <= i < w.len() - 1 implies #[trigger] rel(w[i], w[i + 1]) by {
            if i < p.len() - 1 {
                assert(w[i] == p[i] && w[i + 1] == p[i + 1]);
                assert(rel(p[i], p[i + 1]));
            } else if i == p.len() - 1 {
                assert(w[i] == b && w[i + 1] == q[1]);
                assert(rel(q[0], q[0int + 1]));
            } else {
                let j = i - p.len() + 1;
                assert(w[i] == q[j] && w[i + 1] == q[j + 1]);
                assert(rel(q[j], q[j + 1]));
            }
        }
    }
    assert(within(rel, single(n, a), c, (w.len() - 1) as nat));
}

/// Over a symmetric relation, reachability is symmetric.
pub proof fn lemma_reach_sym(rel: spec_fn(int, int) -> bool, n: nat, a: int, b: int)
    requires
        forall|x: int, y: int| #[trigger] rel(x, y) ==> rel(y, x),
        0 <= a < n,
        0 <= b < n,
        reachable(rel, single(n, a), b),
    ensures
        reachable(rel, single(n, b), a),
{
    let k = choose|k: nat| within(rel, single(n, a), b, k);
    let p = choose|p: Seq<int>| #[trigger] is_walk(rel, single(n, a), p, b) && p.len() <= k + 1;
    let q = p.reverse();
    assert(p[0] == a);
    assert(is_walk(rel, single(n, b), q, a)) by {
        assert(q[0] == p[p.len() - 1]);
        assert(q.last() == p[0]);
        assert forall|i: int| 0 <= i < q.len() - 1 implies #[trigger] rel(q[i], q[i + 1]) by {
            let j = p.len() - 2 - i;
            assert(q[i] == p[j + 1] && q[i + 1] == p[j]);
            assert(rel(p[j], p[j + 1]));
        }
    }
    assert(within(rel, single(n, b), a, (q.len() - 1) as nat));
}

/// A reachable vertex other than the source is entered by some step.
pub proof fn lemma_reach_entered(rel: spec_fn(int, int) -> bool, n: nat, a: int, b: int)
    requires
        reachable(rel, single(n, a), b),
        b != a,
    ensures
        exists|u: int| #[trigger] rel(u, b),
{
    let k = choose|k: nat| within(rel, single(n, a), b, k);
    let p = choose|p: Seq<int>| #[trigger] is_walk(rel, single(n, a), p, b) && p.len() <= k + 1;
    assert(p[0] == a);
    assert(p.len() >= 2);
    assert(rel(p[p.len() - 2], p[(p.len() - 2) + 1]));
}

/// Reachability along a relation is reachability the other way along its
/// reverse.
pub proof fn lemma_reach_reverse(
    rel: spec_fn(int, int) -> bool,
    rev: spec_fn(int, int) -> bool,
    n: nat,
    a: int,
    b: int,
)
    requires
        forall|x: int, y: int| #![trigger rev(x, y)] #![trigger rel(y, x)] rev(x, y) <==> rel(y, x),
        0 <= a < n,
        0 <= b < n,
        reachable(rel, single(n, a), b),
    ensures
        reachable(rev, single(n, b), a),
{
    let k = choose|k: nat| within(rel, single(n, a), b, k);
    let p = choose|p: Seq<int>| #[trigger] is_walk(rel, single(n, a), p, b) && p.len() <= k + 1;
    let q = p.reverse();
    assert(p[0] == a);
    assert(is_walk(rev, single(n, b), q, a)) by {
        assert(q[0] == p[p.len() - 1]);
        assert(q.last() == p[0]);
        assert forall|i: int| 0 <= i < q.len() - 1 implies #[trigger] rev(q[i], q[i + 1]) by {
            let j = p.len() - 2 - i;
            assert(q[i] == p[j + 1] && q[i + 1] == p[j]);
            assert(rel(p[j], p[j + 1]));
        }
    }
    assert(within(rev, single(n, b), a, (q.len() - 1) as nat));
}

/// One step is a walk.
pub proof fn lemma_reach_edge(rel: spec_fn(int, int) -> bool, n: nat, a: int, b: int)
    requires
        0 <= a < n,
        rel(a, b),
    ensures
        reachable(rel, single(n, a), b),
{
    let p = seq![a, b];
    assert(is_walk(rel, single(n, a), p, b)) by {
        assert forall|i: int| 0 <= i < p.len() - 1 implies #[trigger] rel(p[i], p[i + 1]) by {
            assert(i == 0);
        }
    }
    assert(within(rel, single(n, a), b, 1));
}

/// A shortest walk repeats no vertex, so a vertex's level is below the
/// number of vertices.
pub proof fn lemma_level_lt(rel: spec_fn(int, int) -> bool, src: Seq<bool>, v: int, d: nat)
    requires
        at_level(rel, src, v, d),
        forall|x: int, y: int| #[trigger] rel(x, y) ==> 0 <= x < src.len() && 0 <= y < src.len(),
    ensures
        d < src.len(),
{
    let n = src.len();
    let p = choose|p: Seq<int>| #[trigger] is_walk(rel, src, p, v) && p.len() <= d + 1;
    if p.len() < d + 1 {
        assert(within(rel, src, v, (d - 1) as nat));
    }
    assert(p.len() == d + 1);
    assert forall|i: int, j: int| 0 <= i < p.len() && 0 <= j < p.len() && i != j implies p[i] != p[j] by {
        if p[i] == p[j] {
            let (lo, hi) = if i < j { (i, j) } else { (j, i) };
            let q = p.subrange(0, lo + 1) + p.subrange(hi + 1, p.len() as int);
            assert(is_walk(rel, src, q, v)) by {
                assert(q[0] == p[0]);
                if hi + 1 < p.len() {
                    assert(q.last() == p.last());
                } else {
                    assert(q.last() == p[lo]);
                }
                assert forall|k: int| 0 <= k < q.len() - 1 implies #[trigger] rel(q[k], q[k + 1]) by {
                    if k < lo {
                        assert(q[k] == p[k] && q[k + 1] == p[k + 1]);
                        assert(rel(p[k], p[k + 1]));
                    } else if k == lo {
                        assert(q[k] == p[hi] && q[k + 1] == p[hi + 1]);
                        assert(rel(p[hi], p[hi + 1]));
                    } else {
                        let m = k - lo + hi;
                        assert(q[k] == p[m] && q[k + 1] == p[m + 1]);
                        assert(rel(p[m], p[m + 1]));
                    }
                }
            }
            assert(q.len() <= d);
            assert(within(rel, src, v, (d - 1) as nat));
        }
    }
    assert forall|i: int| 0 <= i < p.len() implies 0 <= #[trigger] p[i] < n by {
        if i > 0 {
            assert(rel(p[i - 1], p[(i - 1) + 1]));
        }
    }
    p.unique_seq_to_set();
    vstd::set_lib::lemma_int_range(0, n as int);
    assert(p.to_set().subset_of(vstd::set_lib::set_int_range(0, n as int))) by {
        assert forall|x: int| p.to_set().contains(x) implies vstd::set_lib::set_int_range(0, n as int).contains(x) by {
            let i = choose|i: int| 0 <= i < p.len() && p[i] == x;
        }
    }
    vstd::set_lib::lemma_len_subset(p.to_set(), vstd::set_lib::set_int_range(0, n as int));
}

proof fn lemma_allowed_mono(d: nat, k: nat, limit: Option<usize>)
    requires
        d <= k,
        allowed(k, limit),
    ensures
        allowed(d, limit),
{
}

} // verus!
