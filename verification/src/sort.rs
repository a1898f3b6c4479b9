//! Ordering result rows by a two-part key.

use vstd::prelude::*;

verus! {

/// Whether row `a`'s key `(a.0, a.1)` is at most row `b`'s.
pub open spec fn key_le(a: (usize, usize, usize), b: (usize, usize, usize)) -> bool {
    a.0 < b.0 || (a.0 == b.0 && a.1 <= b.1)
}

/// Whether rows are in non-decreasing key order.
pub open spec fn sorted_by_key(s: Seq<(usize, usize, usize)>) -> bool {
    forall|i: int, j: int| 0 <= i < j < s.len() ==> key_le(#[trigger] s[i], #[trigger] s[j])
}

/// The rows of `v` in non-decreasing key order; rows with equal keys keep
/// their relative order.
pub fn sort_by_key(v: &Vec<(usize, usize, usize)>) -> (r: Vec<(usize, usize, usize)>)
    ensures
        sorted_by_key(r@),
        r@.to_multiset() == v@.to_multiset(),
        r@.len() == v@.len(),
{
    let mut r: Vec<(usize, usize, usize)> = Vec::new();
    let mut i: usize = 0;
    assert(r@ =~= v@.subrange(0, 0));
    while i < v.len()
        invariant
            i <= v@.len(),
            sorted_by_key(r@),
            r@.to_multiset() == v@.subrange(0, i as int).to_multiset(),
            r@.len() == i,
        decreases v@.len() - i,
    {
        let e = v[i];
        let mut pos: usize = 0;
        while pos < r.len() && key_le_exec(r[pos], e)
            invariant
                pos <= r@.len(),
                forall|q: int| 0 <= q < pos ==> key_le(#[trigger] r@[q], e),
            decreases r@.len() - pos,
        {
            pos = pos + 1;
        }
        let ghost before = r@;
        r.insert(pos, e);
        proof {
            assert forall|a: int, b: int| 0 <= a < b < r@.len() implies key_le(#[trigger] r@[a], #[trigger] r@[b]) by {
                if b < pos {
                    assert(key_le(before[a], before[b]));
                } else if b == pos {
                    assert(key_le(before[a], e));
                } else if a < pos {
                    assert(key_le(before[a], before[b - 1]));
                } else if a == pos {
                    assert(!key_le(before[pos as int], e));
                    assert(key_le(before[pos as int], before[b - 1]) || b - 1 == pos);
                } else {
                    assert(key_le(before[a - 1], before[b - 1]));
                }
            }
            assert(r@ == before.insert(pos as int, e));
            vstd::seq_lib::to_multiset_insert(before, pos as int, e);
            assert(r@.to_multiset() == before.to_multiset().insert(e));
            assert(v@.subrange(0, i + 1) =~= v@.subrange(0, i as int).push(e));
            vstd::seq_lib::to_multiset_build(v@.subrange(0, i as int), e);
            assert(v@.subrange(0, i as int).push(e).to_multiset() == v@.subrange(0, i as int).to_multiset().insert(e));
        }
        i = i + 1;
    }
    assert(v@.subrange(0, v@.len() as int) =~= v@);
    r
}

fn key_le_exec(a: (usize, usize, usize), b: (usize, usize, usize)) -> (r: bool)
    ensures
        r == key_le(a, b),
{
    a.0 < b.0 || (a.0 == b.0 && a.1 <= b.1)
}

} // verus!
