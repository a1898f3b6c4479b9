//! The lock snapshot: the content hash of every included node, keyed by
//! path. Edges are not stored — edge changes show through content hashes.

use vstd::prelude::*;
use crate::analyses::{included_below, included_indices};
use crate::diagnostic::opt_view;
use crate::graph::Graph;
use crate::order::{chars_lt, lemma_lt_irrefl, lemma_lt_trans, lemma_lt_trichotomy, seq_lt};
use crate::text::{chars_of, one_line_spec, push_all, push_one_line, views};
use crate::paths::str_eq;
use crate::commands::{below, below_exec, not_found_message, not_found_spec, suggestion_needles, suggestions};
use crate::graph::Node;
use crate::paths::{normalize_relative_path, normalize_spec};
use crate::graph::NodeType;
use crate::hints::Hint;
use crate::text::{decimal, decimal_string};

verus! {

/// One locked node.
#[derive(Debug, Clone, PartialEq, Eq)]
pub struct LockfileNode {
    pub hash: Option<String>,
}

/// A lock snapshot: its format version and the locked nodes in path order.
#[derive(Debug, Clone, PartialEq, Eq)]
pub struct Lockfile {
    pub lockfile_version: u32,
    pub nodes: Vec<(String, LockfileNode)>,
}

/// A copy of an optional string.
pub(crate) fn copy_opt(o: &Option<String>) -> (r: Option<String>)
    ensures
        opt_view(r) == opt_view(*o),
{
    match o {
        Some(s) => Some(s.clone()),
        None => None,
    }
}

impl Lockfile {
    /// The snapshot of a graph: every included node with its hash, in path
    /// order, at format version 2.
    pub fn from_graph(graph: &Graph) -> (r: Lockfile)
        ensures
            r.lockfile_version == 2,
            crate::graph::sorted_nodes(graph.nodes@) ==> r.wf(),
            r.nodes@.len() == included_indices(*graph).len(),
            forall|q: int|
                0 <= q < r.nodes@.len() ==> (#[trigger] r.nodes@[q]).0@ == graph.nodes@[included_indices(*graph)[q]].path@
                    && opt_view(r.nodes@[q].1.hash) == opt_view(graph.nodes@[included_indices(*graph)[q]].hash),
    {
        let n = graph.nodes.len();
        let ghost g = *graph;
        let mut nodes: Vec<(String, LockfileNode)> = Vec::new();
        let mut v: usize = 0;
        while v < n
            invariant
                v <= n,
                n == graph.nodes@.len(),
                g == *graph,
                nodes@.len() == included_below(g, v as int).len(),
                forall|q: int|
                    0 <= q < nodes@.len() ==> (#[trigger] nodes@[q]).0@ == g.nodes@[included_below(g, v as int)[q]].path@
                        && opt_view(nodes@[q].1.hash) == opt_view(g.nodes@[included_below(g, v as int)[q]].hash),
            decreases n - v,
        {
            let ghost before = nodes@;
            if graph.nodes[v].included {
                let entry = (graph.nodes[v].path.clone(), LockfileNode { hash: copy_opt(&graph.nodes[v].hash) });
                nodes.push(entry);
                proof {
                    assert(included_below(g, v + 1) == included_below(g, v as int).push(v as int));
                    assert forall|q: int|
                        0 <= q < nodes@.len() implies (#[trigger] nodes@[q]).0@ == g.nodes@[included_below(g, v + 1)[q]].path@
                            && opt_view(nodes@[q].1.hash) == opt_view(g.nodes@[included_below(g, v + 1)[q]].hash) by {
                        if q < before.len() {
                            assert(nodes@[q] == before[q]);
                        }
                    }
                }
            } else {
                assert(included_below(g, v + 1) == included_below(g, v as int));
            }
            v = v + 1;
        }
        proof {
            crate::analyses::lemma_included_below(g, n as int);
            if crate::graph::sorted_nodes(g.nodes@) {
                assert forall|i: int, j: int| 0 <= i < j < nodes@.len() implies seq_lt(
                    #[trigger] nodes@[i].0@,
                    #[trigger] nodes@[j].0@,
                ) by {
                    let ii = included_below(g, n as int)[i];
                    let jj = included_below(g, n as int)[j];
                    assert(ii < jj);
                    assert(seq_lt(g.nodes@[ii].path@, g.nodes@[jj].path@));
                }
            }
        }
        Lockfile { lockfile_version: 2, nodes }
    }
}

// ---------------------------------------------------------------------------
// Entries by path

/// Whether entries are in strictly increasing path order (so no path
/// repeats).
pub open spec fn sorted_entries(es: Seq<(String, LockfileNode)>) -> bool {
    forall|i: int, j: int| 0 <= i < j < es.len() ==> seq_lt(#[trigger] es[i].0@, #[trigger] es[j].0@)
}

/// Whether entry `i` is for path `p`.
pub open spec fn has_entry(es: Seq<(String, LockfileNode)>, i: int, p: Seq<char>) -> bool {
    0 <= i < es.len() && es[i].0@ == p
}

/// The locked hash of path `p` (itself optional), if `p` has an entry.
pub open spec fn entry_at(es: Seq<(String, LockfileNode)>, p: Seq<char>) -> Option<Option<Seq<char>>> {
    if exists|i: int| #[trigger] has_entry(es, i, p) {
        Some(opt_view(es[choose|i: int| #[trigger] has_entry(es, i, p)].1.hash))
    } else {
        None
    }
}

/// In path order, a path has at most one entry.
pub proof fn lemma_entry_unique(es: Seq<(String, LockfileNode)>, i: int, p: Seq<char>)
    requires
        sorted_entries(es),
        has_entry(es, i, p),
    ensures
        (choose|j: int| #[trigger] has_entry(es, j, p)) == i,
        entry_at(es, p) == Some(opt_view(es[i].1.hash)),
{
    let j = choose|j: int| #[trigger] has_entry(es, j, p);
    if j < i {
        assert(seq_lt(es[j].0@, es[i].0@));
        lemma_lt_irrefl(p, 0);
    } else if i < j {
        assert(seq_lt(es[i].0@, es[j].0@));
        lemma_lt_irrefl(p, 0);
    }
}

impl Lockfile {
    /// Entries are in strictly increasing path order.
    pub open spec fn wf(&self) -> bool {
        sorted_entries(self.nodes@)
    }

    /// The locked hash of `p`, if `p` has an entry.
    pub open spec fn entry(&self, p: Seq<char>) -> Option<Option<Seq<char>>> {
        entry_at(self.nodes@, p)
    }

    /// Whether `path` has an entry.
    pub fn contains(&self, path: &str) -> (r: bool)
        requires
            self.wf(),
        ensures
            r == (self.entry(path@) is Some),
    {
        let mut i: usize = 0;
        while i < self.nodes.len()
            invariant
                i <= self.nodes@.len(),
                forall|q: int| 0 <= q < i ==> !#[trigger] has_entry(self.nodes@, q, path@),
            decreases self.nodes@.len() - i,
        {
            if str_eq(self.nodes[i].0.as_str(), path) {
                assert(has_entry(self.nodes@, i as int, path@));
                return true;
            }
            i = i + 1;
        }
        false
    }

    /// Record `node` as the entry for `path`, replacing any entry it had;
    /// path order is kept and no other entry changes.
    pub fn set(&mut self, path: String, node: LockfileNode)
        requires
            old(self).wf(),
        ensures
            final(self).wf(),
            final(self).lockfile_version == old(self).lockfile_version,
            final(self).entry(path@) == Some(opt_view(node.hash)),
            forall|p: Seq<char>| p != path@ ==> #[trigger] final(self).entry(p) == old(self).entry(p),
    {
        let ghost old_es = self.nodes@;
        let ghost p0 = path@;
        let ghost h0 = opt_view(node.hash);
        let key = chars_of(path.as_str());
        let mut pos: usize = 0;
        while pos < self.nodes.len()
            invariant
                pos <= self.nodes@.len(),
                self.nodes@ == old_es,
                key@ == p0,
                forall|j: int| 0 <= j < pos ==> seq_lt(#[trigger] old_es[j].0@, p0),
            ensures
                pos <= self.nodes@.len(),
                self.nodes@ == old_es,
                forall|j: int| 0 <= j < pos ==> seq_lt(#[trigger] old_es[j].0@, p0),
                pos < self.nodes@.len() ==> !seq_lt(old_es[pos as int].0@, p0),
            decreases self.nodes@.len() - pos,
        {
            let have = chars_of(self.nodes[pos].0.as_str());
            if !chars_lt(&have, &key) {
                break;
            }
            pos = pos + 1;
        }
        let n = self.nodes.len();
        let mut replace = false;
        if pos < n {
            let have = chars_of(self.nodes[pos].0.as_str());
            replace = !chars_lt(&key, &have);
        }
        if replace {
            proof {
                let q = old_es[pos as int].0@;
                lemma_lt_trichotomy(q, p0);
            }
            self.nodes.set(pos, (path, node));
            proof {
                let es = self.nodes@;
                assert forall|i: int, j: int| 0 <= i < j < es.len() implies seq_lt(#[trigger] es[i].0@, #[trigger] es[j].0@) by {
                    assert(seq_lt(old_es[i].0@, old_es[j].0@));
                }
                lemma_entry_unique(es, pos as int, p0);
                assert forall|p: Seq<char>| p != p0 implies #[trigger] entry_at(es, p) == entry_at(old_es, p) by {
                    if exists|i: int| #[trigger] has_entry(old_es, i, p) {
                        let i = choose|i: int| #[trigger] has_entry(old_es, i, p);
                        assert(has_entry(es, i, p));
                        lemma_entry_unique(old_es, i, p);
                        lemma_entry_unique(es, i, p);
                    } else {
                        assert forall|i: int| !#[trigger] has_entry(es, i, p) by {
                            if has_entry(es, i, p) {
                                assert(has_entry(old_es, i, p));
                            }
                        }
                    }
                }
            }
        } else {
            proof {
                if pos < n {
                    let q = old_es[pos as int].0@;
                    lemma_lt_trichotomy(q, p0);
                }
            }
            self.nodes.insert(pos, (path, node));
            proof {
                let es = self.nodes@;
                assert forall|i: int, j: int| 0 <= i < j < es.len() implies seq_lt(#[trigger] es[i].0@, #[trigger] es[j].0@) by {
                    if j < pos {
                        assert(seq_lt(old_es[i].0@, old_es[j].0@));
                    } else if j == pos {
                    } else if i < pos {
                        assert(seq_lt(old_es[i].0@, p0));
                        assert(seq_lt(p0, old_es[pos as int].0@));
                        if j - 1 > pos {
                            assert(seq_lt(old_es[pos as int].0@, old_es[j - 1].0@));
                            lemma_lt_trans(p0, old_es[pos as int].0@, old_es[j - 1].0@, 0);
                        }
                        lemma_lt_trans(old_es[i].0@, p0, old_es[j - 1].0@, 0);
                    } else if i == pos {
                        assert(seq_lt(p0, old_es[pos as int].0@));
                        if j - 1 > pos {
                            assert(seq_lt(old_es[pos as int].0@, old_es[j - 1].0@));
                            lemma_lt_trans(p0, old_es[pos as int].0@, old_es[j - 1].0@, 0);
                        }
                    } else {
                        assert(seq_lt(old_es[i - 1].0@, old_es[j - 1].0@));
                    }
                }
                lemma_entry_unique(es, pos as int, p0);
                assert forall|p: Seq<char>| p != p0 implies #[trigger] entry_at(es, p) == entry_at(old_es, p) by {
                    if exists|i: int| #[trigger] has_entry(old_es, i, p) {
                        let i = choose|i: int| #[trigger] has_entry(old_es, i, p);
                        lemma_entry_unique(old_es, i, p);
                        if i < pos {
                            assert(has_entry(es, i, p));
                            lemma_entry_unique(es, i, p);
                        } else {
                            assert(has_entry(es, i + 1, p));
                            lemma_entry_unique(es, i + 1, p);
                        }
                    } else {
                        assert forall|i: int| !#[trigger] has_entry(es, i, p) by {
                            if has_entry(es, i, p) {
                                if i < pos {
                                    assert(has_entry(old_es, i, p));
                                } else if i > pos {
                                    assert(has_entry(old_es, i - 1, p));
                                }
                            }
                        }
                    }
                }
            }
        }
    }

    /// Remove the entry for `path`, if it has one; path order is kept and no
    /// other entry changes. Whether there was one is returned.
    pub fn remove(&mut self, path: &str) -> (r: bool)
        requires
            old(self).wf(),
        ensures
            final(self).wf(),
            final(self).lockfile_version == old(self).lockfile_version,
            r == (old(self).entry(path@) is Some),
            final(self).entry(path@) is None,
            forall|p: Seq<char>| p != path@ ==> #[trigger] final(self).entry(p) == old(self).entry(p),
    {
        let ghost old_es = self.nodes@;
        let mut i: usize = 0;
        while i < self.nodes.len()
            invariant
                i <= self.nodes@.len(),
                self.nodes@ == old_es,
                old_es == old(self).nodes@,
                sorted_entries(old_es),
                self.lockfile_version == old(self).lockfile_version,
                forall|q: int| 0 <= q < i ==> !#[trigger] has_entry(old_es, q, path@),
            decreases self.nodes@.len() - i,
        {
            if str_eq(self.nodes[i].0.as_str(), path) {
                proof {
                    assert(has_entry(old_es, i as int, path@));
                }
                self.nodes.remove(i);
                proof {
                    let es = self.nodes@;
                    assert(es =~= old_es.remove(i as int));
                    assert forall|a: int, b: int| 0 <= a < b < es.len() implies seq_lt(#[trigger] es[a].0@, #[trigger] es[b].0@) by {
                        if b < i {
                            assert(seq_lt(old_es[a].0@, old_es[b].0@));
                        } else if a < i {
                            assert(seq_lt(old_es[a].0@, old_es[b + 1].0@));
                        } else {
                            assert(seq_lt(old_es[a + 1].0@, old_es[b + 1].0@));
                        }
                    }
                    assert forall|q: int| !#[trigger] has_entry(es, q, path@) by {
                        if has_entry(es, q, path@) {
                            if q < i {
                                assert(seq_lt(old_es[q].0@, old_es[i as int].0@));
                                lemma_lt_irrefl(path@, 0);
                            } else {
                                assert(seq_lt(old_es[i as int].0@, old_es[q + 1].0@));
                                lemma_lt_irrefl(path@, 0);
                            }
                        }
                    }
                    assert forall|p: Seq<char>| p != path@ implies #[trigger] entry_at(es, p) == entry_at(old_es, p) by {
                        if exists|j: int| #[trigger] has_entry(old_es, j, p) {
                            let j = choose|j: int| #[trigger] has_entry(old_es, j, p);
                            lemma_entry_unique(old_es, j, p);
                            assert(j != i);
                            if j < i {
                                assert(has_entry(es, j, p));
                                lemma_entry_unique(es, j, p);
                            } else {
                                assert(has_entry(es, j - 1, p));
                                lemma_entry_unique(es, j - 1, p);
                            }
                        } else {
                            assert forall|j: int| !#[trigger] has_entry(es, j, p) by {
                                if has_entry(es, j, p) {
                                    if j < i {
                                        assert(has_entry(old_es, j, p));
                                    } else {
                                        assert(has_entry(old_es, j + 1, p));
                                    }
                                }
                            }
                        }
                    }
                }
                return true;
            }
            i = i + 1;
        }
        false
    }
}

// ---------------------------------------------------------------------------
// Locking

/// The paths a scoped lock records: each named path the snapshot has an
/// entry for, once, in the order first named.
pub open spec fn locked_spec(paths: Seq<Seq<char>>, snap: Seq<(String, LockfileNode)>) -> Seq<Seq<char>>
    decreases paths.len(),
{
    if paths.len() == 0 {
        Seq::empty()
    } else {
        let prev = locked_spec(paths.drop_last(), snap);
        let p = paths.last();
        if entry_at(snap, p) is Some && !paths.drop_last().contains(p) {
            prev.push(p)
        } else {
            prev
        }
    }
}

/// The paths a scoped lock drops: each named path the snapshot has no entry
/// for but the existing lock has, once, in the order first named.
pub open spec fn dropped_spec(
    paths: Seq<Seq<char>>,
    existing: Seq<(String, LockfileNode)>,
    snap: Seq<(String, LockfileNode)>,
) -> Seq<Seq<char>>
    decreases paths.len(),
{
    if paths.len() == 0 {
        Seq::empty()
    } else {
        let prev = dropped_spec(paths.drop_last(), existing, snap);
        let p = paths.last();
        if entry_at(snap, p) is None && entry_at(existing, p) is Some && !paths.drop_last().contains(p) {
            prev.push(p)
        } else {
            prev
        }
    }
}

/// What a lock did: the resulting lock, the paths it recorded and the paths
/// whose entries it dropped.
#[derive(Debug, Clone)]
pub struct LockOutcome {
    pub lock: Lockfile,
    pub locked: Vec<String>,
    pub dropped: Vec<String>,
}

proof fn lemma_locked_contains(paths: Seq<Seq<char>>, snap: Seq<(String, LockfileNode)>, p: Seq<char>)
    ensures
        locked_spec(paths, snap).contains(p) <==> (paths.contains(p) && entry_at(snap, p) is Some),
    decreases paths.len(),
{
    if paths.len() > 0 {
        let pre = paths.drop_last();
        lemma_locked_contains(pre, snap, p);
        let l = locked_spec(paths, snap);
        let lp = locked_spec(pre, snap);
        if paths.contains(p) && !pre.contains(p) {
            let q = choose|q: int| 0 <= q < paths.len() && paths[q] == p;
            if q < pre.len() {
                assert(pre[q] == p);
            }
        }
        if pre.contains(p) {
            let q = choose|q: int| 0 <= q < pre.len() && pre[q] == p;
            assert(paths[q] == p);
        }
        if l.contains(p) && !lp.contains(p) {
            let q = choose|q: int| 0 <= q < l.len() && l[q] == p;
            if q < lp.len() {
                assert(lp[q] == p);
            }
            assert(paths[paths.len() - 1] == p);
        }
        if lp.contains(p) && l != lp {
            let q = choose|q: int| 0 <= q < lp.len() && lp[q] == p;
            assert(l[q] == p);
        }
        if paths.last() == p && entry_at(snap, p) is Some && !pre.contains(p) {
            assert(l[l.len() - 1] == p);
        }
    }
}

/// The entry `path` has in this lock, copied.
pub fn lookup(lock: &Lockfile, path: &str) -> (r: Option<LockfileNode>)
    requires
        lock.wf(),
    ensures
        match r {
            Some(n) => lock.entry(path@) == Some(opt_view(n.hash)),
            None => lock.entry(path@) is None,
        },
{
    let mut i: usize = 0;
    while i < lock.nodes.len()
        invariant
            i <= lock.nodes@.len(),
            lock.wf(),
            forall|q: int| 0 <= q < i ==> !#[trigger] has_entry(lock.nodes@, q, path@),
        decreases lock.nodes@.len() - i,
    {
        if str_eq(lock.nodes[i].0.as_str(), path) {
            proof {
                lemma_entry_unique(lock.nodes@, i as int, path@);
            }
            return Some(LockfileNode { hash: copy_opt(&lock.nodes[i].1.hash) });
        }
        i = i + 1;
    }
    None
}

/// Whether `s` holds `p`.
fn holds(s: &Vec<String>, p: &String) -> (r: bool)
    ensures
        r == views(s@).contains(p@),
{
    let mut i: usize = 0;
    while i < s.len()
        invariant
            i <= s@.len(),
            forall|q: int| 0 <= q < i ==> s@[q]@ != p@,
        decreases s@.len() - i,
    {
        if str_eq(s[i].as_str(), p.as_str()) {
            assert(views(s@)[i as int] == p@);
            return true;
        }
        i = i + 1;
    }
    proof {
        if views(s@).contains(p@) {
            let q = choose|q: int| 0 <= q < views(s@).len() && views(s@)[q] == p@;
            assert(s@[q]@ == p@);
        }
    }
    false
}

/// Lock the named paths: each takes the snapshot's entry for it, or loses
/// its entry when the snapshot has none (a reviewed deletion); every other
/// entry stays as it was. Paths are named already resolved.
pub fn lock_paths(existing: Lockfile, snapshot: &Lockfile, paths: &Vec<String>) -> (r: LockOutcome)
    requires
        existing.wf(),
        snapshot.wf(),
    ensures
        r.lock.wf(),
        r.lock.lockfile_version == existing.lockfile_version,
        forall|p: Seq<char>| views(paths@).contains(p) ==> #[trigger] r.lock.entry(p) == snapshot.entry(p),
        forall|p: Seq<char>| !views(paths@).contains(p) ==> #[trigger] r.lock.entry(p) == existing.entry(p),
        views(r.locked@) == locked_spec(views(paths@), snapshot.nodes@),
        views(r.dropped@) == dropped_spec(views(paths@), existing.nodes@, snapshot.nodes@),
{
    let ghost ps = views(paths@);
    let ghost ex = existing;
    let mut lock = existing;
    let mut locked: Vec<String> = Vec::new();
    let mut dropped: Vec<String> = Vec::new();
    let mut k: usize = 0;
    while k < paths.len()
        invariant
            k <= paths@.len(),
            ps == views(paths@),
            ex.wf(),
            snapshot.wf(),
            lock.wf(),
            lock.lockfile_version == ex.lockfile_version,
            forall|p: Seq<char>| #![trigger lock.entry(p)] lock.entry(p) == if ps.subrange(0, k as int).contains(p) {
                snapshot.entry(p)
            } else {
                ex.entry(p)
            },
            views(locked@) == locked_spec(ps.subrange(0, k as int), snapshot.nodes@),
            views(dropped@) == dropped_spec(ps.subrange(0, k as int), ex.nodes@, snapshot.nodes@),
        decreases paths@.len() - k,
    {
        let p = &paths[k];
        let ghost pre = ps.subrange(0, k as int);
        let ghost post = ps.subrange(0, k + 1);
        let ghost before = lock;
        proof {
            assert(post.drop_last() =~= pre);
            assert(post.last() == p@);
            assert forall|x: Seq<char>| post.contains(x) <==> (pre.contains(x) || x == p@) by {
                if post.contains(x) {
                    let q = choose|q: int| 0 <= q < post.len() && post[q] == x;
                    if q < k {
                        assert(pre[q] == x);
                    }
                }
                if pre.contains(x) {
                    let q = choose|q: int| 0 <= q < pre.len() && pre[q] == x;
                    assert(post[q] == x);
                }
                if x == p@ {
                    assert(post[k as int] == x);
                }
            }
        }
        match lookup(snapshot, p.as_str()) {
            Some(entry) => {
                lock.set(p.clone(), entry);
                proof {
                    lemma_locked_contains(pre, snapshot.nodes@, p@);
                }
                if !holds(&locked, p) {
                    let ghost lv = views(locked@);
                    locked.push(p.clone());
                    assert(views(locked@) =~= lv.push(p@));
                }
            },
            None => {
                let removed = lock.remove(p.as_str());
                if removed {
                    let ghost dv = views(dropped@);
                    dropped.push(p.clone());
                    assert(views(dropped@) =~= dv.push(p@));
                }
            },
        }
        proof {
            assert forall|x: Seq<char>| #![trigger lock.entry(x)] lock.entry(x) == if post.contains(x) {
                snapshot.entry(x)
            } else {
                ex.entry(x)
            } by {
                if x != p@ {
                    assert(lock.entry(x) == before.entry(x));
                }
            }
        }
        k = k + 1;
    }
    assert(ps.subrange(0, paths@.len() as int) =~= ps);
    LockOutcome { lock, locked, dropped }
}

/// The paths of `existing` the snapshot has no entry for, in path order.
pub open spec fn missing_from(existing: Seq<(String, LockfileNode)>, snap: Seq<(String, LockfileNode)>) -> Seq<Seq<char>>
    decreases existing.len(),
{
    if existing.len() == 0 {
        Seq::empty()
    } else if entry_at(snap, existing.last().0@) is None {
        missing_from(existing.drop_last(), snap).push(existing.last().0@)
    } else {
        missing_from(existing.drop_last(), snap)
    }
}

/// Rebuild the lock from the snapshot: the result is the snapshot, every
/// snapshot path is locked, and every entry the existing lock held that the
/// snapshot lacks is dropped. The lock is written when there is something to
/// record or a lock file already exists.
pub fn lock_all(existing: Option<&Lockfile>, snapshot: Lockfile, lock_exists: bool) -> (r: (LockOutcome, bool))
    requires
        snapshot.wf(),
        existing matches Some(e) ==> e.wf(),
    ensures
        r.0.lock == snapshot,
        views(r.0.locked@) == snapshot.nodes@.map_values(|e: (String, LockfileNode)| e.0@),
        views(r.0.dropped@) == match existing {
            Some(e) => missing_from(e.nodes@, snapshot.nodes@),
            None => Seq::empty(),
        },
        r.1 == (snapshot.nodes@.len() > 0 || lock_exists),
{
    let mut locked: Vec<String> = Vec::new();
    let mut i: usize = 0;
    while i < snapshot.nodes.len()
        invariant
            i <= snapshot.nodes@.len(),
            views(locked@) == snapshot.nodes@.subrange(0, i as int).map_values(|e: (String, LockfileNode)| e.0@),
        decreases snapshot.nodes@.len() - i,
    {
        let ghost lv = views(locked@);
        locked.push(snapshot.nodes[i].0.clone());
        assert(views(locked@) =~= lv.push(snapshot.nodes@[i as int].0@));
        assert(snapshot.nodes@.subrange(0, i + 1).map_values(|e: (String, LockfileNode)| e.0@) =~= snapshot.nodes@.subrange(
            0,
            i as int,
        ).map_values(|e: (String, LockfileNode)| e.0@).push(snapshot.nodes@[i as int].0@));
        i = i + 1;
    }
    assert(snapshot.nodes@.subrange(0, snapshot.nodes@.len() as int) =~= snapshot.nodes@);
    let mut dropped: Vec<String> = Vec::new();
    match existing {
        Some(e) => {
            let mut j: usize = 0;
            while j < e.nodes.len()
                invariant
                    j <= e.nodes@.len(),
                    snapshot.wf(),
                    views(dropped@) == missing_from(e.nodes@.subrange(0, j as int), snapshot.nodes@),
                decreases e.nodes@.len() - j,
            {
                assert(e.nodes@.subrange(0, j + 1).drop_last() =~= e.nodes@.subrange(0, j as int));
                if !snapshot.contains(e.nodes[j].0.as_str()) {
                    let ghost dv = views(dropped@);
                    dropped.push(e.nodes[j].0.clone());
                    assert(views(dropped@) =~= dv.push(e.nodes@[j as int].0@));
                }
                j = j + 1;
            }
            assert(e.nodes@.subrange(0, e.nodes@.len() as int) =~= e.nodes@);
        },
        None => {},
    }
    let write = snapshot.nodes.len() > 0 || lock_exists;
    (LockOutcome { lock: snapshot, locked, dropped }, write)
}

/// The refusal of an empty path list without `--all`.
pub open spec fn no_paths_message() -> Seq<char> {
    "no paths given — name the paths you reviewed (`drft lock <path>...`), or pass `--all` to lock every node. An empty argument list is also what a shell substitution that matched nothing produces, so it is not read as the whole graph."@
}

/// The refusal of paths together with `--all`.
pub open spec fn all_with_paths_message() -> Seq<char> {
    "`--all` locks every node, so it cannot be combined with paths — drop `--all` to lock only the paths you named, or drop the paths to lock the whole graph."@
}

/// A hint as text: its name, locus, message and next move.
pub open spec fn hint_view(h: Hint) -> (Seq<char>, Option<Seq<char>>, Seq<char>, Option<Seq<char>>) {
    (h.name@, opt_view(h.locus), h.message@, opt_view(h.next))
}

/// How many entries of `es` lie beneath the directory `dir`.
pub open spec fn entries_beneath(es: Seq<(String, LockfileNode)>, dir: Seq<char>) -> nat
    decreases es.len(),
{
    if es.len() == 0 {
        0
    } else {
        entries_beneath(es.drop_last(), dir) + if below(es.last().0@, dir) {
            1nat
        } else {
            0nat
        }
    }
}

/// Whether the `i`-th named node is named there for the first time.
pub open spec fn first_naming(resolved: Seq<Seq<char>>, i: int) -> bool {
    forall|j: int| 0 <= j < i ==> resolved[j] != resolved[i]
}

/// The message of a directory named to a scoped lock, with `n` lockable
/// nodes beneath it.
pub open spec fn directory_lock_hint_message(n: nat) -> Seq<char> {
    "is a directory, which carries no content to snapshot — this run locked none of the "@ + decimal(n)
        + " lockable "@ + (if n == 1 { "node"@ } else { "nodes"@ }) + " beneath it"@
}

/// What a scoped lock says about the `i`-th named node when it has nothing to
/// snapshot: for a directory, how many lockable nodes beneath it this run did
/// not lock; for a file or symlink whose stale entry was not just dropped,
/// that it carries no content; nothing otherwise.
pub open spec fn node_lock_hint(
    resolved: Seq<Seq<char>>,
    kinds: Seq<Option<NodeType>>,
    snapshot: Lockfile,
    existing: Lockfile,
    i: int,
) -> Option<(Seq<char>, Option<Seq<char>>, Seq<char>, Option<Seq<char>>)> {
    let node = resolved[i];
    if snapshot.entry(node) is Some {
        None
    } else if kinds[i] == Some(NodeType::Directory) {
        Some((
            "directory-lock"@,
            Some(node),
            directory_lock_hint_message(entries_beneath(snapshot.nodes@, node)),
            Some("name the files you reviewed, or pass `--all`"@),
        ))
    } else if (kinds[i] == Some(NodeType::File) || kinds[i] == Some(NodeType::Symlink)) && !(
    existing.entry(node) is Some && first_naming(resolved, i)) {
        Some((
            "nothing-to-lock"@,
            Some(node),
            "carries no content to snapshot, so it has no lock entry"@,
            Some("name a file whose content drft can hash"@),
        ))
    } else {
        None
    }
}

/// The hints a scoped lock raises over its first `n` named nodes, in order.
pub open spec fn lock_hints_spec(
    resolved: Seq<Seq<char>>,
    kinds: Seq<Option<NodeType>>,
    snapshot: Lockfile,
    existing: Lockfile,
    n: int,
) -> Seq<(Seq<char>, Option<Seq<char>>, Seq<char>, Option<Seq<char>>)>
    decreases n,
{
    if n <= 0 {
        Seq::empty()
    } else {
        let prev = lock_hints_spec(resolved, kinds, snapshot, existing, n - 1);
        match node_lock_hint(resolved, kinds, snapshot, existing, n - 1) {
            Some(h) => prev.push(h),
            None => prev,
        }
    }
}

/// How many entries of `lock` lie beneath the directory `dir`.
fn count_beneath(lock: &Lockfile, dir: &str) -> (r: usize)
    ensures
        r == entries_beneath(lock.nodes@, dir@),
{
    let mut n: usize = 0;
    let mut i: usize = 0;
    while i < lock.nodes.len()
        invariant
            i <= lock.nodes@.len(),
            n == entries_beneath(lock.nodes@.subrange(0, i as int), dir@),
            n <= i,
        decreases lock.nodes@.len() - i,
    {
        assert(lock.nodes@.subrange(0, i + 1).drop_last() =~= lock.nodes@.subrange(0, i as int));
        if below_exec(lock.nodes[i].0.as_str(), dir) {
            n = n + 1;
        }
        i = i + 1;
    }
    assert(lock.nodes@.subrange(0, lock.nodes@.len() as int) =~= lock.nodes@);
    n
}

/// The hints a scoped lock raises: per named node that has nothing to
/// snapshot, per [`node_lock_hint`], in the order named. `kinds` holds each
/// named node's type in the graph (`None` when it is not a filesystem node).
pub fn scoped_lock_hints(
    resolved: &Vec<String>,
    kinds: &Vec<Option<NodeType>>,
    snapshot: &Lockfile,
    existing: &Lockfile,
) -> (r: Vec<Hint>)
    requires
        kinds@.len() == resolved@.len(),
        snapshot.wf(),
        existing.wf(),
    ensures
        r@.map_values(|h: Hint| hint_view(h)) == lock_hints_spec(
            views(resolved@),
            kinds@,
            *snapshot,
            *existing,
            resolved@.len() as int,
        ),
{
    let ghost res = views(resolved@);
    let mut out: Vec<Hint> = Vec::new();
    let mut i: usize = 0;
    while i < resolved.len()
        invariant
            i <= resolved@.len(),
            kinds@.len() == resolved@.len(),
            snapshot.wf(),
            existing.wf(),
            res == views(resolved@),
            out@.map_values(|h: Hint| hint_view(h)) == lock_hints_spec(res, kinds@, *snapshot, *existing, i as int),
        decreases resolved@.len() - i,
    {
        let ghost before = out@.map_values(|h: Hint| hint_view(h));
        let node = resolved[i].as_str();
        assert(res[i as int] == node@);
        if !snapshot.contains(node) {
            match kinds[i] {
                Some(NodeType::Directory) => {
                    let n = count_beneath(snapshot, node);
                    let mut m = String::new();
                    push_all(&mut m, "is a directory, which carries no content to snapshot — this run locked none of the ");
                    let ds = decimal_string(n);
                    push_all(&mut m, ds.as_str());
                    push_all(&mut m, " lockable ");
                    if n == 1 {
                        push_all(&mut m, "node");
                    } else {
                        push_all(&mut m, "nodes");
                    }
                    push_all(&mut m, " beneath it");
                    assert(m@ =~= directory_lock_hint_message(n as nat));
                    let h = Hint::new("directory-lock", m.as_str()).at(node).with_next(
                        "name the files you reviewed, or pass `--all`",
                    );
                    out.push(h);
                },
                Some(NodeType::File) | Some(NodeType::Symlink) => {
                    let mut first = true;
                    let mut j: usize = 0;
                    while j < i
                        invariant
                            j <= i < resolved@.len(),
                            res == views(resolved@),
                            res[i as int] == node@,
                            first == (forall|q: int| 0 <= q < j ==> res[q] != res[i as int]),
                        decreases i - j,
                    {
                        assert(res[j as int] == resolved@[j as int]@);
                        if str_eq(resolved[j].as_str(), node) {
                            first = false;
                        }
                        j = j + 1;
                    }
                    let dropped_here = existing.contains(node) && first;
                    if !dropped_here {
                        let h = Hint::new("nothing-to-lock", "carries no content to snapshot, so it has no lock entry")
                            .at(node).with_next("name a file whose content drft can hash");
                        out.push(h);
                    }
                },
                _ => {},
            }
        }
        assert(out@.map_values(|h: Hint| hint_view(h)) =~= match node_lock_hint(res, kinds@, *snapshot, *existing, i as int) {
            Some(h) => before.push(h),
            None => before,
        });
        i = i + 1;
    }
    out
}

/// The keys a scoped lock may name: the graph's nodes, then the lock's
/// entries.
pub open spec fn lockable_keys(g: Graph, lock: Lockfile) -> Seq<Seq<char>> {
    g.nodes@.map_values(|n: Node| n.path@) + lock.nodes@.map_values(|e: (String, LockfileNode)| e.0@)
}

/// Whether `key` names a node of the graph or an entry of the lock (a
/// deleted file can still be named, to clear its entry).
pub open spec fn lock_resolves(g: Graph, lock: Lockfile, key: Seq<char>) -> bool {
    g.node_at(key) is Some || lock.entry(key) is Some
}

/// The refusal of a path that resolves to nothing a lock could name.
pub open spec fn unresolved_lock_message(g: Graph, lock: Lockfile, path: Seq<char>) -> Seq<char> {
    not_found_spec(path, suggestions(lockable_keys(g, lock), suggestion_needles(path, Some(normalize_spec(path)))))
}

/// Resolve every path a scoped lock names before anything is written: each
/// normalized path must name a node of the graph or an entry of the lock; the
/// first that names neither is refused, with suggestions, and nothing is
/// locked. A typo never leaves a partial lock behind.
pub fn resolve_lock_paths(paths: &Vec<String>, graph: &Graph, lock: &Lockfile) -> (r: Result<Vec<String>, String>)
    requires
        graph.wf(),
        lock.wf(),
    ensures
        r is Ok <==> forall|i: int| 0 <= i < paths@.len() ==> lock_resolves(*graph, *lock, normalize_spec(#[trigger] paths@[i]@)),
        r matches Ok(keys) ==> keys@.len() == paths@.len() && forall|i: int|
            0 <= i < paths@.len() ==> (#[trigger] keys@[i])@ == normalize_spec(paths@[i]@),
        r matches Err(m) ==> exists|i: int|
            0 <= i < paths@.len() && !lock_resolves(*graph, *lock, normalize_spec(#[trigger] paths@[i]@))
                && (forall|j: int| 0 <= j < i ==> lock_resolves(*graph, *lock, normalize_spec(#[trigger] paths@[j]@)))
                && m@ == unresolved_lock_message(*graph, *lock, paths@[i]@),
{
    let mut keys: Vec<String> = Vec::new();
    let mut i: usize = 0;
    while i < paths.len()
        invariant
            i <= paths@.len(),
            graph.wf(),
            lock.wf(),
            keys@.len() == i,
            forall|j: int| 0 <= j < i ==> (#[trigger] keys@[j])@ == normalize_spec(paths@[j]@),
            forall|j: int| 0 <= j < i ==> lock_resolves(*graph, *lock, normalize_spec(#[trigger] paths@[j]@)),
        decreases paths@.len() - i,
    {
        let key = normalize_relative_path(paths[i].as_str());
        let in_graph = match graph.index_of(key.as_str()) {
            Some(k) => {
                proof {
                    crate::graph::lemma_index_unique(graph.nodes@, k as int, key@);
                }
                true
            },
            None => false,
        };
        if !in_graph && !lock.contains(key.as_str()) {
            let mut all: Vec<String> = Vec::new();
            let mut k: usize = 0;
            while k < graph.nodes.len()
                invariant
                    k <= graph.nodes@.len(),
                    all@.len() == k,
                    forall|q: int| 0 <= q < k ==> (#[trigger] all@[q])@ == graph.nodes@[q].path@,
                decreases graph.nodes@.len() - k,
            {
                all.push(graph.nodes[k].path.clone());
                k = k + 1;
            }
            let mut k: usize = 0;
            while k < lock.nodes.len()
                invariant
                    k <= lock.nodes@.len(),
                    all@.len() == graph.nodes@.len() + k,
                    forall|q: int| 0 <= q < graph.nodes@.len() ==> (#[trigger] all@[q])@ == graph.nodes@[q].path@,
                    forall|q: int| 0 <= q < k ==> (#[trigger] all@[graph.nodes@.len() + q])@ == lock.nodes@[q].0@,
                decreases lock.nodes@.len() - k,
            {
                all.push(lock.nodes[k].0.clone());
                assert(all@[graph.nodes@.len() + k as int]@ == lock.nodes@[k as int].0@);
                k = k + 1;
            }
            assert(views(all@) =~= lockable_keys(*graph, *lock)) by {
                assert forall|q: int| 0 <= q < all@.len() implies #[trigger] views(all@)[q] == lockable_keys(*graph, *lock)[q] by {
                    if q >= graph.nodes@.len() {
                        let r = q - graph.nodes@.len();
                        assert(all@[graph.nodes@.len() + r]@ == lock.nodes@[r].0@);
                    }
                }
            }
            let m = not_found_message(&all, paths[i].as_str(), Some(key.as_str()));
            assert(!lock_resolves(*graph, *lock, normalize_spec(paths@[i as int]@)));
            return Err(m);
        }
        keys.push(key);
        i = i + 1;
    }
    Ok(keys)
}

/// Whether a scoped lock changed anything, and so has a lock file to write:
/// a lock that recorded nothing must not create a baseline covering nothing.
pub fn scoped_lock_changed(outcome: &LockOutcome) -> (r: bool)
    ensures
        r == (outcome.locked@.len() > 0 || outcome.dropped@.len() > 0),
{
    outcome.locked.len() > 0 || outcome.dropped.len() > 0
}

/// The refusal of a directory named to a scoped lock.
pub open spec fn directory_lock_message(named: Seq<char>) -> Seq<char> {
    "cannot lock directory node \""@ + one_line_spec(named)
        + "\" — directories carry no content to snapshot. Name the files you reviewed, or pass `--all` to lock every node."@
}

/// Whether the `i`-th named path is a directory that no lock entry records,
/// now or before: naming it would lock nothing.
pub open spec fn refused_directory(
    resolved: Seq<Seq<char>>,
    is_dir: Seq<bool>,
    snapshot: Lockfile,
    existing: Lockfile,
    i: int,
) -> bool {
    is_dir[i] && snapshot.entry(resolved[i]) is None && existing.entry(resolved[i]) is None
}

/// Refuse a scoped lock that names a directory before any path is locked: a
/// directory carries no content hash and no outbound edge. A directory that
/// still has an entry in the old lock is not refused (it used to be lockable,
/// and naming it drops that stale entry). The first such path, in the order
/// named, is the one reported.
pub fn refuse_directory_lock(
    named: &Vec<String>,
    resolved: &Vec<String>,
    is_dir: &Vec<bool>,
    snapshot: &Lockfile,
    existing: &Lockfile,
) -> (r: Result<(), String>)
    requires
        named@.len() == resolved@.len(),
        is_dir@.len() == resolved@.len(),
        snapshot.wf(),
        existing.wf(),
    ensures
        r is Ok <==> forall|i: int|
            0 <= i < resolved@.len() ==> !#[trigger] refused_directory(
                views(resolved@),
                is_dir@,
                *snapshot,
                *existing,
                i,
            ),
        r matches Err(m) ==> exists|i: int|
            0 <= i < resolved@.len() && #[trigger] refused_directory(views(resolved@), is_dir@, *snapshot, *existing, i)
                && (forall|j: int| 0 <= j < i ==> !#[trigger] refused_directory(views(resolved@), is_dir@, *snapshot, *existing, j))
                && m@ == directory_lock_message(named@[i]@),
{
    let mut i: usize = 0;
    while i < resolved.len()
        invariant
            i <= resolved@.len(),
            named@.len() == resolved@.len(),
            is_dir@.len() == resolved@.len(),
            snapshot.wf(),
            existing.wf(),
            forall|j: int| 0 <= j < i ==> !#[trigger] refused_directory(views(resolved@), is_dir@, *snapshot, *existing, j),
        decreases resolved@.len() - i,
    {
        assert(views(resolved@)[i as int] == resolved@[i as int]@);
        if is_dir[i] && !snapshot.contains(resolved[i].as_str()) && !existing.contains(resolved[i].as_str()) {
            let mut m = String::new();
            push_all(&mut m, "cannot lock directory node \"");
            push_one_line(&mut m, named[i].as_str());
            push_all(&mut m, "\" — directories carry no content to snapshot. Name the files you reviewed, or pass `--all` to lock every node.");
            assert(refused_directory(views(resolved@), is_dir@, *snapshot, *existing, i as int));
            return Err(m);
        }
        i = i + 1;
    }
    Ok(())
}

/// Check a lock request before any graph work: it names paths, or asks for
/// `--all`, but not both and not neither.
pub fn check_lock_request(path_count: usize, all: bool) -> (r: Result<(), String>)
    ensures
        r is Ok <==> ((path_count > 0) != all),
        (path_count == 0 && !all) ==> (r matches Err(m) && m@ == no_paths_message()),
        (path_count > 0 && all) ==> (r matches Err(m) && m@ == all_with_paths_message()),
{
    if path_count == 0 && !all {
        let mut m = String::new();
        crate::text::push_all(&mut m, "no paths given — name the paths you reviewed (`drft lock <path>...`), or pass `--all` to lock every node. An empty argument list is also what a shell substitution that matched nothing produces, so it is not read as the whole graph.");
        return Err(m);
    }
    if path_count > 0 && all {
        let mut m = String::new();
        crate::text::push_all(&mut m, "`--all` locks every node, so it cannot be combined with paths — drop `--all` to lock only the paths you named, or drop the paths to lock the whole graph.");
        return Err(m);
    }
    Ok(())
}

} // verus!
