//! The order paths are kept in: lexicographic by character.

use vstd::prelude::*;
use crate::text::{chars_of, views};

verus! {

/// Whether `a` sorts before `b` when both are read from position `i` on:
/// the first differing character decides, and a proper prefix sorts first.
pub open spec fn lt_from(a: Seq<char>, b: Seq<char>, i: nat) -> bool
    decreases a.len() - i,
{
    if i >= a.len() {
        i < b.len()
    } else if i >= b.len() {
        false
    } else if a[i as int] != b[i as int] {
        (a[i as int] as int) < (b[i as int] as int)
    } else {
        lt_from(a, b, i + 1)
    }
}

/// Lexicographic order on character sequences.
pub open spec fn seq_lt(a: Seq<char>, b: Seq<char>) -> bool {
    lt_from(a, b, 0)
}

/// Nothing sorts before itself.
pub proof fn lemma_lt_irrefl(a: Seq<char>, i: nat)
    ensures
        !lt_from(a, a, i),
    decreases a.len() - i,
{
    if i < a.len() {
        lemma_lt_irrefl(a, i + 1);
    }
}

/// At most one of two sequences sorts before the other.
pub proof fn lemma_lt_asym(a: Seq<char>, b: Seq<char>, i: nat)
    ensures
        !(lt_from(a, b, i) && lt_from(b, a, i)),
    decreases a.len() - i,
{
    if i < a.len() && i < b.len() && a[i as int] == b[i as int] {
        lemma_lt_asym(a, b, i + 1);
    }
}

/// Two sequences that agree before `i` and neither sorts first from `i` on are
/// equal.
pub proof fn lemma_lt_total(a: Seq<char>, b: Seq<char>, i: nat)
    requires
        i <= a.len(),
        i <= b.len(),
        a.subrange(0, i as int) == b.subrange(0, i as int),
        !lt_from(a, b, i),
        !lt_from(b, a, i),
    ensures
        a == b,
    decreases a.len() - i,
{
    if i < a.len() && i < b.len() {
        if a[i as int] == b[i as int] {
            assert(a.subrange(0, (i + 1) as int) =~= a.subrange(0, i as int).push(a[i as int]));
            assert(b.subrange(0, (i + 1) as int) =~= b.subrange(0, i as int).push(b[i as int]));
            lemma_lt_total(a, b, i + 1);
        } else {
            assert((a[i as int] as int) != (b[i as int] as int));
        }
    } else {
        assert(a.len() == i && b.len() == i);
        assert(a =~= a.subrange(0, i as int));
        assert(b =~= b.subrange(0, i as int));
    }
}

/// Distinct sequences are ordered one way or the other.
pub proof fn lemma_lt_trichotomy(a: Seq<char>, b: Seq<char>)
    ensures
        a == b || seq_lt(a, b) || seq_lt(b, a),
{
    if !seq_lt(a, b) && !seq_lt(b, a) {
        assert(a.subrange(0, 0) =~= b.subrange(0, 0));
        lemma_lt_total(a, b, 0);
    }
}

/// The order is transitive.
pub proof fn lemma_lt_trans(a: Seq<char>, b: Seq<char>, c: Seq<char>, i: nat)
    requires
        lt_from(a, b, i),
        lt_from(b, c, i),
    ensures
        lt_from(a, c, i),
    decreases a.len() - i,
{
    if i < a.len() && i < b.len() && i < c.len() {
        if a[i as int] == b[i as int] && b[i as int] == c[i as int] {
            lemma_lt_trans(a, b, c, i + 1);
        }
    }
}

/// Whether `a` sorts before `b`.
pub fn chars_lt(a: &Vec<char>, b: &Vec<char>) -> (r: bool)
    ensures
        r == seq_lt(a@, b@),
{
    let mut i: usize = 0;
    while i < a.len() && i < b.len() && a[i] == b[i]
        invariant
            i <= a.len(),
            i <= b.len(),
            lt_from(a@, b@, 0) == lt_from(a@, b@, i as nat),
        decreases a.len() - i,
    {
        i = i + 1;
    }
    if i >= a.len() {
        i < b.len()
    } else if i >= b.len() {
        false
    } else {
        a[i] < b[i]
    }
}

/// Whether the sequences are in strictly increasing order (so none repeats).
pub open spec fn strictly_sorted(s: Seq<Seq<char>>) -> bool {
    forall|i: int, j: int| 0 <= i < j < s.len() ==> seq_lt(#[trigger] s[i], #[trigger] s[j])
}

/// The members of a finite set of sequences, in increasing order.
pub open spec fn sorted_members(s: Set<Seq<char>>) -> Seq<Seq<char>> {
    choose|m: Seq<Seq<char>>| strictly_sorted(m) && (forall|x: Seq<char>| m.contains(x) <==> s.contains(x))
}

/// Two strictly sorted sequences with the same members are equal.
pub proof fn lemma_sorted_unique(a: Seq<Seq<char>>, b: Seq<Seq<char>>)
    requires
        strictly_sorted(a),
        strictly_sorted(b),
        forall|x: Seq<char>| a.contains(x) <==> b.contains(x),
    ensures
        a == b,
    decreases a.len(),
{
    if a.len() == 0 {
        if b.len() > 0 {
            assert(b.contains(b[0]));
        }
        assert(a =~= b);
    } else {
        assert(a.contains(a[0]));
        assert(b.len() > 0);
        let j = choose|j: int| 0 <= j < b.len() && b[j] == a[0];
        assert(b.contains(b[0]));
        let i = choose|i: int| 0 <= i < a.len() && a[i] == b[0];
        if a[0] != b[0] {
            assert(j > 0 && i > 0);
            assert(seq_lt(b[0], b[j]));
            assert(seq_lt(a[0], a[i]));
            lemma_lt_asym(a[0], b[0], 0);
        }
        let a1 = a.drop_first();
        let b1 = b.drop_first();
        assert forall|x: Seq<char>| a1.contains(x) implies b1.contains(x) by {
            let k = choose|k: int| 0 <= k < a1.len() && a1[k] == x;
            assert(a[k + 1] == x);
            assert(seq_lt(a[0], a[k + 1]));
            lemma_lt_irrefl(x, 0);
            assert(a.contains(x));
            let m = choose|m: int| 0 <= m < b.len() && b[m] == x;
            assert(m != 0);
            assert(b1[m - 1] == x);
        }
        assert forall|x: Seq<char>| b1.contains(x) implies a1.contains(x) by {
            let k = choose|k: int| 0 <= k < b1.len() && b1[k] == x;
            assert(b[k + 1] == x);
            assert(seq_lt(b[0], b[k + 1]));
            lemma_lt_irrefl(x, 0);
            assert(b.contains(x));
            let m = choose|m: int| 0 <= m < a.len() && a[m] == x;
            assert(m != 0);
            assert(a1[m - 1] == x);
        }
        assert(strictly_sorted(a1));
        assert(strictly_sorted(b1));
        lemma_sorted_unique(a1, b1);
        assert(a =~= seq![a[0]] + a1);
        assert(b =~= seq![b[0]] + b1);
    }
}

/// A strictly sorted sequence is the sorted form of its own members.
pub proof fn lemma_is_sorted_members(m: Seq<Seq<char>>, s: Set<Seq<char>>)
    requires
        strictly_sorted(m),
        forall|x: Seq<char>| m.contains(x) <==> s.contains(x),
    ensures
        sorted_members(s) == m,
{
    let c = sorted_members(s);
    assert(strictly_sorted(c) && (forall|x: Seq<char>| c.contains(x) <==> s.contains(x)));
    lemma_sorted_unique(c, m);
}

/// Insert `s` into a strictly sorted list, unless it is already there.
fn insert_sorted(r: &mut Vec<String>, s: &String)
    requires
        strictly_sorted(views(old(r)@)),
    ensures
        strictly_sorted(views(final(r)@)),
        forall|x: Seq<char>| views(final(r)@).contains(x) <==> (views(old(r)@).contains(x) || x == s@),
{
    let ghost v0 = views(r@);
    let key = chars_of(s.as_str());
    let mut pos: usize = 0;
    loop
        invariant
            pos <= r@.len(),
            v0 == views(r@),
            key@ == s@,
            forall|j: int| 0 <= j < pos ==> seq_lt(#[trigger] v0[j], s@),
        ensures
            pos <= r@.len(),
            v0 == views(r@),
            forall|j: int| 0 <= j < pos ==> seq_lt(#[trigger] v0[j], s@),
            pos < r@.len() ==> !seq_lt(v0[pos as int], s@),
        decreases r@.len() - pos,
    {
        if pos >= r.len() {
            break;
        }
        let here = chars_of(r[pos].as_str());
        if !chars_lt(&here, &key) {
            break;
        }
        pos = pos + 1;
    }
    if pos < r.len() {
        let here = chars_of(r[pos].as_str());
        let same = !chars_lt(&key, &here);
        if same {
            proof {
                lemma_lt_trichotomy(v0[pos as int], s@);
                assert(v0[pos as int] == s@);
                assert(v0.contains(s@));
            }
            return;
        }
    }
    r.insert(pos, s.clone());
    proof {
        let v1 = views(r@);
        assert(v1 =~= v0.insert(pos as int, s@));
        assert forall|i: int, j: int| 0 <= i < j < v1.len() implies seq_lt(#[trigger] v1[i], #[trigger] v1[j]) by {
            if j < pos {
            } else if j == pos {
                assert(v1[i] == v0[i]);
            } else if i == pos {
                assert(v1[j] == v0[j - 1]);
                assert(seq_lt(s@, v0[pos as int]));
                if j - 1 > pos {
                    assert(seq_lt(v0[pos as int], v0[j - 1]));
                    lemma_lt_trans(s@, v0[pos as int], v0[j - 1], 0);
                }
            } else if i < pos {
                assert(v1[i] == v0[i]);
                assert(v1[j] == v0[j - 1]);
            } else {
                assert(v1[i] == v0[i - 1]);
                assert(v1[j] == v0[j - 1]);
            }
        }
        assert forall|x: Seq<char>| v1.contains(x) <==> (v0.contains(x) || x == s@) by {
            if v1.contains(x) {
                let k = choose|k: int| 0 <= k < v1.len() && v1[k] == x;
                if k < pos {
                    assert(v0[k] == x);
                } else if k > pos {
                    assert(v0[k - 1] == x);
                }
            }
            if v0.contains(x) {
                let k = choose|k: int| 0 <= k < v0.len() && v0[k] == x;
                if k < pos {
                    assert(v1[k] == x);
                } else {
                    assert(v1[k + 1] == x);
                }
            }
            if x == s@ {
                assert(v1[pos as int] == x);
            }
        }
    }
}

/// The distinct strings of `v`, sorted.
pub fn sort_distinct(v: &Vec<String>) -> (r: Vec<String>)
    ensures
        views(r@) == sorted_members(views(v@).to_set()),
        strictly_sorted(views(r@)),
        forall|x: Seq<char>| views(r@).contains(x) <==> views(v@).contains(x),
{
    let mut r: Vec<String> = Vec::new();
    let mut i: usize = 0;
    while i < v.len()
        invariant
            i <= v@.len(),
            strictly_sorted(views(r@)),
            forall|x: Seq<char>| views(r@).contains(x) <==> views(v@.subrange(0, i as int)).contains(x),
        decreases v@.len() - i,
    {
        insert_sorted(&mut r, &v[i]);
        proof {
            let before = views(v@.subrange(0, i as int));
            let after = views(v@.subrange(0, i + 1));
            assert(after =~= before.push(v@[i as int]@));
            assert forall|x: Seq<char>| after.contains(x) <==> (before.contains(x) || x == v@[i as int]@) by {
                if after.contains(x) {
                    let k = choose|k: int| 0 <= k < after.len() && after[k] == x;
                    if k < i {
                        assert(before[k] == x);
                    }
                }
                if before.contains(x) {
                    let k = choose|k: int| 0 <= k < before.len() && before[k] == x;
                    assert(after[k] == x);
                }
                if x == v@[i as int]@ {
                    assert(after[i as int] == x);
                }
            }
        }
        i = i + 1;
    }
    proof {
        assert(v@.subrange(0, v@.len() as int) =~= v@);
        assert forall|x: Seq<char>| views(r@).contains(x) <==> views(v@).to_set().contains(x) by {
        }
        lemma_is_sorted_members(views(r@), views(v@).to_set());
    }
    r
}

} // verus!
