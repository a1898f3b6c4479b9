//! Link targets and paths: normalizing a path relative to the graph root,
//! resolving a link from the file that declares it, and splitting a raw link
//! into its node identity and fragment.

use vstd::prelude::*;
use crate::text::{chars_of, join_spec, owned, push_all, string_from_chars};

verus! {

/// `s` split at every `/`; `k` slashes yield `k + 1` segments, some of them
/// possibly empty.
pub open spec fn split_slash(s: Seq<char>) -> Seq<Seq<char>>
    decreases s.len(),
{
    if s.len() == 0 {
        seq![Seq::<char>::empty()]
    } else {
        let p = split_slash(s.drop_last());
        if s.last() == '/' {
            p.push(Seq::<char>::empty())
        } else {
            p.update(p.len() - 1, p.last().push(s.last()))
        }
    }
}

/// The component `..`.
pub open spec fn dotdot() -> Seq<char> {
    seq!['.', '.']
}

/// Apply one path component to the components kept so far: an empty
/// component or `.` changes nothing; `..` removes the last kept component
/// unless there is none or it is itself `..`, in which case `..` is kept (an
/// escape above the root); any other component is appended.
pub open spec fn apply_component(kept: Seq<Seq<char>>, c: Seq<char>) -> Seq<Seq<char>> {
    if c.len() == 0 || c == seq!['.'] {
        kept
    } else if c == dotdot() {
        if kept.len() > 0 && kept.last() != dotdot() {
            kept.drop_last()
        } else {
            kept.push(dotdot())
        }
    } else {
        kept.push(c)
    }
}

/// The components kept after applying `cs` in order.
pub open spec fn normalize_components(cs: Seq<Seq<char>>) -> Seq<Seq<char>>
    decreases cs.len(),
{
    if cs.len() == 0 {
        Seq::empty()
    } else {
        apply_component(normalize_components(cs.drop_last()), cs.last())
    }
}

/// `path` with `.` and `..` resolved lexically, joined with `/`. Leading `..`
/// that escape above the root are preserved; a leading `/` is dropped.
pub open spec fn normalize_spec(path: Seq<char>) -> Seq<char> {
    join_spec(normalize_components(split_slash(path)), seq!['/'])
}

/// Whether `c` holds no `/`.
pub open spec fn no_slash(c: Seq<char>) -> bool {
    forall|i: int| 0 <= i < c.len() ==> #[trigger] c[i] != '/'
}

/// Components in normal form: none is empty, `.`, or holds a `/`, and every
/// `..` comes before every other component.
pub open spec fn normal_components(k: Seq<Seq<char>>) -> bool {
    &&& forall|i: int|
        0 <= i < k.len() ==> #[trigger] k[i].len() > 0 && k[i] != seq!['.'] && no_slash(k[i])
    &&& forall|i: int, j: int|
        0 <= i < j < k.len() && #[trigger] k[j] == dotdot() ==> #[trigger] k[i] == dotdot()
}

/// No segment of a split holds a `/`.
proof fn lemma_split_no_slash(s: Seq<char>)
    ensures
        forall|i: int| 0 <= i < split_slash(s).len() ==> no_slash(#[trigger] split_slash(s)[i]),
        split_slash(s).len() > 0,
    decreases s.len(),
{
    if s.len() > 0 {
        lemma_split_no_slash(s.drop_last());
        let p = split_slash(s.drop_last());
        if s.last() != '/' {
            let q = p.last().push(s.last());
            assert(no_slash(q)) by {
                assert forall|i: int| 0 <= i < q.len() implies #[trigger] q[i] != '/' by {
                    if i < p.last().len() {
                        assert(q[i] == p.last()[i]);
                        assert(no_slash(p[p.len() - 1]));
                    }
                }
            }
            assert forall|i: int| 0 <= i < split_slash(s).len() implies no_slash(
                #[trigger] split_slash(s)[i],
            ) by {
                if i < p.len() - 1 {
                    assert(split_slash(s)[i] == p[i]);
                }
            }
        } else {
            assert(no_slash(Seq::<char>::empty()));
            assert forall|i: int| 0 <= i < split_slash(s).len() implies no_slash(
                #[trigger] split_slash(s)[i],
            ) by {
                if i < p.len() {
                    assert(split_slash(s)[i] == p[i]);
                }
            }
        }
    }
}

/// Applying components free of `/` keeps the normal form.
proof fn lemma_normalize_normal(cs: Seq<Seq<char>>)
    requires
        forall|i: int| 0 <= i < cs.len() ==> no_slash(#[trigger] cs[i]),
    ensures
        normal_components(normalize_components(cs)),
    decreases cs.len(),
{
    if cs.len() > 0 {
        assert forall|i: int| 0 <= i < cs.drop_last().len() implies no_slash(
            #[trigger] cs.drop_last()[i],
        ) by {
            assert(cs.drop_last()[i] == cs[i]);
        }
        lemma_normalize_normal(cs.drop_last());
        let k = normalize_components(cs.drop_last());
        let c = cs.last();
        assert(no_slash(cs[cs.len() - 1]));
        let r = apply_component(k, c);
        if c.len() == 0 || c == seq!['.'] {
        } else if c == dotdot() {
            if k.len() > 0 && k.last() != dotdot() {
                assert(r =~= k.drop_last());
                assert forall|i: int, j: int|
                    0 <= i < j < r.len() && #[trigger] r[j] == dotdot() implies #[trigger] r[i]
                    == dotdot() by {
                    assert(r[j] == k[j] && r[i] == k[i]);
                }
                assert forall|i: int| 0 <= i < r.len() implies #[trigger] r[i].len() > 0 && r[i]
                    != seq!['.'] && no_slash(r[i]) by {
                    assert(r[i] == k[i]);
                }
            } else {
                assert(r == k.push(dotdot()));
                assert(no_slash(dotdot()));
                assert(dotdot() != seq!['.']) by {
                    assert(dotdot().len() != seq!['.'].len());
                }
                assert forall|i: int| 0 <= i < r.len() implies #[trigger] r[i].len() > 0 && r[i]
                    != seq!['.'] && no_slash(r[i]) by {
                    if i < k.len() {
                        assert(r[i] == k[i]);
                    }
                }
                assert forall|i: int, j: int|
                    0 <= i < j < r.len() && #[trigger] r[j] == dotdot() implies #[trigger] r[i]
                    == dotdot() by {
                    assert(r[i] == k[i]);
                    if j < k.len() {
                        assert(r[j] == k[j]);
                    } else if i < k.len() - 1 {
                        assert(k[k.len() - 1] == dotdot());
                    }
                }
            }
        } else {
            assert(r == k.push(c));
            assert forall|i: int| 0 <= i < r.len() implies #[trigger] r[i].len() > 0 && r[i]
                != seq!['.'] && no_slash(r[i]) by {
                if i < k.len() {
                    assert(r[i] == k[i]);
                }
            }
            assert forall|i: int, j: int|
                0 <= i < j < r.len() && #[trigger] r[j] == dotdot() implies #[trigger] r[i]
                == dotdot() by {
                assert(r[i] == k[i]);
                if j < k.len() {
                    assert(r[j] == k[j]);
                }
            }
        }
    }
}

/// Components in normal form are kept as they are.
proof fn lemma_normal_fixed(k: Seq<Seq<char>>)
    requires
        normal_components(k),
    ensures
        normalize_components(k) == k,
    decreases k.len(),
{
    if k.len() > 0 {
        let p = k.drop_last();
        assert(normal_components(p)) by {
            assert forall|i: int| 0 <= i < p.len() implies #[trigger] p[i].len() > 0 && p[i]
                != seq!['.'] && no_slash(p[i]) by {
                assert(p[i] == k[i]);
            }
            assert forall|i: int, j: int|
                0 <= i < j < p.len() && #[trigger] p[j] == dotdot() implies #[trigger] p[i]
                == dotdot() by {
                assert(p[i] == k[i] && p[j] == k[j]);
            }
        }
        lemma_normal_fixed(p);
        let c = k.last();
        assert(k[k.len() - 1].len() > 0 && k[k.len() - 1] != seq!['.']);
        if c == dotdot() && p.len() > 0 {
            assert(k[p.len() - 1] == dotdot());
            assert(p.last() == dotdot());
        }
        assert(p.push(c) =~= k);
    }
}

/// Splitting text that ends in a part free of `/` extends the last segment.
proof fn lemma_split_append(a: Seq<char>, b: Seq<char>)
    requires
        no_slash(b),
    ensures
        split_slash(a + b) == split_slash(a).update(
            split_slash(a).len() - 1,
            split_slash(a).last() + b,
        ),
    decreases b.len(),
{
    lemma_split_no_slash(a);
    if b.len() == 0 {
        assert(a + b =~= a);
        assert(split_slash(a).last() + b =~= split_slash(a).last());
        assert(split_slash(a).update(split_slash(a).len() - 1, split_slash(a).last())
            =~= split_slash(a));
    } else {
        let b0 = b.drop_last();
        assert(no_slash(b0)) by {
            assert forall|i: int| 0 <= i < b0.len() implies #[trigger] b0[i] != '/' by {
                assert(b0[i] == b[i]);
            }
        }
        lemma_split_append(a, b0);
        assert((a + b).drop_last() =~= a + b0);
        assert((a + b).last() == b[b.len() - 1]);
        let sa = split_slash(a);
        assert((sa.last() + b0).push(b.last()) =~= sa.last() + b);
        assert(split_slash(a + b) =~= sa.update(sa.len() - 1, sa.last() + b));
    }
}

/// Splitting a `/`-join of components free of `/` gives the components back.
proof fn lemma_split_join(k: Seq<Seq<char>>)
    requires
        k.len() > 0,
        forall|i: int| 0 <= i < k.len() ==> no_slash(#[trigger] k[i]),
    ensures
        split_slash(join_spec(k, seq!['/'])) == k,
    decreases k.len(),
{
    if k.len() == 1 {
        assert(no_slash(k[0]));
        lemma_split_append(Seq::<char>::empty(), k[0]);
        assert(Seq::<char>::empty() + k[0] =~= k[0]);
        assert(Seq::<char>::empty() + k[0] =~= k[0]);
        assert(split_slash(Seq::<char>::empty()) == seq![Seq::<char>::empty()]);
        assert(split_slash(k[0]) =~= k);
    } else {
        let p = k.drop_last();
        assert forall|i: int| 0 <= i < p.len() implies no_slash(#[trigger] p[i]) by {
            assert(p[i] == k[i]);
        }
        lemma_split_join(p);
        let jp = join_spec(p, seq!['/']);
        let x = jp + seq!['/'];
        assert(x.drop_last() =~= jp);
        assert(split_slash(x) == p.push(Seq::<char>::empty()));
        assert(no_slash(k[k.len() - 1]));
        lemma_split_append(x, k.last());
        assert(Seq::<char>::empty() + k.last() =~= k.last());
        assert(split_slash(x + k.last()) =~= k);
    }
}

/// Normalizing is a law of its own: a normalized path is in normal form (its
/// segments are neither empty nor `.`, and every `..` comes before every other
/// segment; only the empty path has no segment), and normalizing it again
/// changes nothing.
pub proof fn lemma_normalize_idempotent(path: Seq<char>)
    ensures
        normalize_spec(normalize_spec(path)) == normalize_spec(path),
        normalize_spec(path).len() == 0 || normal_components(split_slash(normalize_spec(path))),
{
    lemma_split_no_slash(path);
    let k = normalize_components(split_slash(path));
    lemma_normalize_normal(split_slash(path));
    lemma_normal_fixed(k);
    if k.len() == 0 {
        assert(normalize_spec(path) == Seq::<char>::empty());
        assert(split_slash(Seq::<char>::empty()) == seq![Seq::<char>::empty()]);
        let e = seq![Seq::<char>::empty()];
        assert(e.drop_last() =~= Seq::<Seq<char>>::empty());
        assert(normalize_components(e) == apply_component(Seq::<Seq<char>>::empty(), e.last()));
        assert(normalize_components(e) =~= Seq::<Seq<char>>::empty());
    } else {
        assert forall|i: int| 0 <= i < k.len() implies no_slash(#[trigger] k[i]) by {
            assert(k[i].len() > 0 && k[i] != seq!['.'] && no_slash(k[i]));
        }
        lemma_split_join(k);
    }
}

/// Append `c` to `out` when it is kept, per [`apply_component`].
fn apply_exec(kept: &mut Vec<Vec<char>>, c: Vec<char>)
    ensures
        deep(final(kept)@) == apply_component(deep(old(kept)@), c@),
{
    let ghost k0 = deep(kept@);
    let n = c.len();
    if n == 0 || (n == 1 && c[0] == '.') {
        assert(n == 1 ==> c@ =~= seq!['.']);
        return;
    }
    if n == 2 && c[0] == '.' && c[1] == '.' {
        assert(c@ =~= dotdot());
        let len = kept.len();
        let mut pop = false;
        if len > 0 {
            let last = &kept[len - 1];
            let is_dd = last.len() == 2 && last[0] == '.' && last[1] == '.';
            assert(is_dd <==> k0.last() == dotdot()) by {
                assert(k0.last() == last@);
                if last@ == dotdot() {
                    assert(last.len() == 2);
                }
                if is_dd {
                    assert(last@ =~= dotdot());
                }
            }
            pop = !is_dd;
        }
        if pop {
            kept.pop();
            assert(deep(kept@) =~= k0.drop_last());
        } else {
            kept.push(vec!['.', '.']);
            assert(deep(kept@) =~= k0.push(dotdot()));
        }
        return;
    }
    assert(c@ != seq!['.']) by {
        if c@ == seq!['.'] {
            assert(c@.len() == 1);
        }
    }
    assert(c@ != dotdot()) by {
        if c@ == dotdot() {
            assert(c@.len() == 2);
        }
    }
    kept.push(c);
    assert(deep(kept@) =~= k0.push(c@));
}

/// The views of a list of character vectors.
pub open spec fn deep(vs: Seq<Vec<char>>) -> Seq<Seq<char>> {
    vs.map_values(|v: Vec<char>| v@)
}

/// Join character vectors with `/`.
fn join_slash(parts: &Vec<Vec<char>>) -> (out: String)
    ensures
        out@ == join_spec(deep(parts@), seq!['/']),
{
    let mut cs: Vec<char> = Vec::new();
    let mut i: usize = 0;
    while i < parts.len()
        invariant
            i <= parts.len(),
            cs@ == join_spec(deep(parts@.subrange(0, i as int)), seq!['/']),
        decreases parts.len() - i,
    {
        let ghost before = deep(parts@.subrange(0, i as int));
        let ghost after = deep(parts@.subrange(0, i + 1));
        assert(after.drop_last() =~= before);
        assert(after.last() == parts@[i as int]@);
        if i > 0 {
            cs.push('/');
        }
        let part = &parts[i];
        let mut j: usize = 0;
        let ghost base = cs@;
        while j < part.len()
            invariant
                j <= part.len(),
                cs@ == base + part@.subrange(0, j as int),
            decreases part.len() - j,
        {
            cs.push(part[j]);
            assert(part@.subrange(0, j + 1) =~= part@.subrange(0, j as int).push(part@[j as int]));
            j = j + 1;
        }
        assert(part@.subrange(0, part.len() as int) =~= part@);
        assert(cs@ =~= join_spec(after, seq!['/']));
        i = i + 1;
    }
    assert(parts@.subrange(0, parts.len() as int) =~= parts@);
    string_from_chars(&cs)
}

/// Normalize a relative path by resolving `.` and `..` components, without
/// touching the filesystem. Always `/`-separated; leading `..` that escape
/// above the root are preserved, since they mark a graph escape.
pub fn normalize_relative_path(path: &str) -> (out: String)
    ensures
        out@ == normalize_spec(path@),
{
    let cs = chars_of(path);
    let mut kept: Vec<Vec<char>> = Vec::new();
    let mut cur: Vec<char> = Vec::new();
    let mut i: usize = 0;
    while i < cs.len()
        invariant
            i <= cs.len(),
            cs@ == path@,
            split_slash(cs@.subrange(0, i as int)).last() == cur@,
            normalize_components(split_slash(cs@.subrange(0, i as int)).drop_last()) == deep(kept@),
            split_slash(cs@.subrange(0, i as int)).len() > 0,
        decreases cs.len() - i,
    {
        let ghost pre = cs@.subrange(0, i as int);
        let ghost post = cs@.subrange(0, i + 1);
        assert(post.drop_last() =~= pre);
        let c = cs[i];
        if c == '/' {
            let seg = cur;
            cur = Vec::new();
            apply_exec(&mut kept, seg);
            let ghost sp = split_slash(pre);
            assert(split_slash(post) == sp.push(Seq::<char>::empty()));
            assert(split_slash(post).drop_last() =~= sp);
            assert(sp =~= sp.drop_last().push(sp.last()));
            assert(cur@ =~= Seq::<char>::empty());
        } else {
            cur.push(c);
            let ghost sp = split_slash(pre);
            assert(split_slash(post) == sp.update(sp.len() - 1, sp.last().push(c)));
            assert(split_slash(post).drop_last() =~= sp.drop_last());
        }
        i = i + 1;
    }
    assert(cs@.subrange(0, cs.len() as int) =~= cs@);
    let ghost sp = split_slash(path@);
    apply_exec(&mut kept, cur);
    assert(sp =~= sp.drop_last().push(sp.last()));
    join_slash(&kept)
}

/// The directory part of a file path: everything before its last `/`, or the
/// empty path when it has none.
pub open spec fn dir_of(s: Seq<char>) -> Seq<char>
    decreases s.len(),
{
    if s.len() == 0 {
        Seq::empty()
    } else if s.last() == '/' {
        s.drop_last()
    } else {
        dir_of(s.drop_last())
    }
}

/// A link target resolved against the file that declares it, relative to the
/// graph root: an absolute target stands alone; otherwise it is joined to the
/// declaring file's directory. Either way the result is normalized.
pub open spec fn resolve_spec(source: Seq<char>, target: Seq<char>) -> Seq<char> {
    if target.len() > 0 && target[0] == '/' {
        normalize_spec(target)
    } else {
        normalize_spec(dir_of(source) + seq!['/'] + target)
    }
}

/// Resolve a link target relative to a source file, producing a path relative
/// to the graph root.
pub fn resolve_link(source_file: &str, raw_target: &str) -> (out: String)
    ensures
        out@ == resolve_spec(source_file@, raw_target@),
{
    let t = chars_of(raw_target);
    if t.len() > 0 && t[0] == '/' {
        return normalize_relative_path(raw_target);
    }
    let s = chars_of(source_file);
    let mut end: usize = s.len();
    assert(s@.subrange(0, s.len() as int) =~= s@);
    while end > 0 && s[end - 1] != '/'
        invariant
            end <= s.len(),
            s@ == source_file@,
            dir_of(s@) == dir_of(s@.subrange(0, end as int)),
        decreases end,
    {
        assert(s@.subrange(0, end as int).drop_last() =~= s@.subrange(0, end - 1));
        end = end - 1;
    }
    assert(s@.subrange(0, s.len() as int) =~= s@);
    let mut joined: Vec<char> = Vec::new();
    if end > 0 {
        assert(s@.subrange(0, end as int).drop_last() =~= s@.subrange(0, end - 1));
        let mut k: usize = 0;
        while k + 1 < end
            invariant
                k + 1 <= end,
                end <= s.len(),
                joined@ == s@.subrange(0, k as int),
            decreases end - k,
        {
            joined.push(s[k]);
            assert(s@.subrange(0, k + 1) =~= s@.subrange(0, k as int).push(s@[k as int]));
            k = k + 1;
        }
    }
    assert(joined@ == dir_of(s@));
    joined.push('/');
    let mut k: usize = 0;
    let ghost base = joined@;
    while k < t.len()
        invariant
            k <= t.len(),
            joined@ == base + t@.subrange(0, k as int),
        decreases t.len() - k,
    {
        joined.push(t[k]);
        assert(t@.subrange(0, k + 1) =~= t@.subrange(0, k as int).push(t@[k as int]));
        k = k + 1;
    }
    assert(t@.subrange(0, t.len() as int) =~= t@);
    assert(joined@ =~= dir_of(source_file@) + seq!['/'] + raw_target@);
    let js = string_from_chars(&joined);
    normalize_relative_path(js.as_str())
}


/// Whether `c` has the Unicode `White_Space` property, as `char::is_whitespace`
/// reports it.
pub uninterp spec fn unicode_whitespace(c: char) -> bool;

/// `char::is_whitespace`: whether `c` has the Unicode `White_Space` property.
#[verifier::external_body]
fn is_whitespace(c: char) -> (r: bool)
    ensures
        r == unicode_whitespace(c),
{
    c.is_whitespace()
}

/// `s` without its leading whitespace.
pub open spec fn trim_start_spec(s: Seq<char>) -> Seq<char>
    decreases s.len(),
{
    if s.len() > 0 && unicode_whitespace(s[0]) {
        trim_start_spec(s.drop_first())
    } else {
        s
    }
}

/// `s` without its trailing whitespace.
pub open spec fn trim_end_spec(s: Seq<char>) -> Seq<char>
    decreases s.len(),
{
    if s.len() > 0 && unicode_whitespace(s.last()) {
        trim_end_spec(s.drop_last())
    } else {
        s
    }
}

/// `s` without leading and trailing whitespace, as `str::trim` gives it.
pub open spec fn trim_spec(s: Seq<char>) -> Seq<char> {
    trim_end_spec(trim_start_spec(s))
}

/// The index of the first `#` in `s`, if any.
pub open spec fn first_hash(s: Seq<char>) -> Option<int>
    decreases s.len(),
{
    if s.len() == 0 {
        None
    } else {
        match first_hash(s.drop_last()) {
            Some(i) => Some(i),
            None => if s.last() == '#' {
                Some(s.len() - 1)
            } else {
                None
            },
        }
    }
}

/// A link target's node identity and its fragment.
#[derive(Debug, Clone)]
pub struct NormalizedTarget {
    /// The target path or URI with any fragment stripped: the node identity.
    pub target: String,
    /// The fragment (`#heading`), kept as edge metadata.
    pub fragment: Option<String>,
}

/// The normalized form of a raw link: trimmed; dropped when empty or
/// anchor-only; otherwise split at the first `#` into the identity before it
/// and the fragment from it on.
pub open spec fn normalize_link_spec(raw: Seq<char>) -> Option<(Seq<char>, Option<Seq<char>>)> {
    let t = trim_spec(raw);
    if t.len() == 0 || t[0] == '#' {
        None
    } else {
        match first_hash(t) {
            Some(i) => Some((t.subrange(0, i), Some(t.subrange(i, t.len() as int)))),
            None => Some((t, None)),
        }
    }
}

/// The characters of `cs` from `lo` to `hi`.
pub fn slice_chars(cs: &Vec<char>, lo: usize, hi: usize) -> (out: Vec<char>)
    requires
        lo <= hi <= cs.len(),
    ensures
        out@ == cs@.subrange(lo as int, hi as int),
{
    let mut out: Vec<char> = Vec::new();
    let mut k: usize = lo;
    while k < hi
        invariant
            lo <= k <= hi,
            hi <= cs.len(),
            out@ == cs@.subrange(lo as int, k as int),
        decreases hi - k,
    {
        out.push(cs[k]);
        assert(cs@.subrange(lo as int, k + 1) =~= cs@.subrange(lo as int, k as int).push(cs@[k as int]));
        k = k + 1;
    }
    out
}

/// `s` with leading and trailing Unicode whitespace removed.
pub fn trim_chars(cs: &Vec<char>) -> (out: Vec<char>)
    ensures
        out@ == trim_spec(cs@),
{
    let mut lo: usize = 0;
    assert(cs@.subrange(0, cs.len() as int) =~= cs@);
    while lo < cs.len() && is_whitespace(cs[lo])
        invariant
            lo <= cs.len(),
            trim_start_spec(cs@) == trim_start_spec(cs@.subrange(lo as int, cs.len() as int)),
        decreases cs.len() - lo,
    {
        assert(cs@.subrange(lo as int, cs.len() as int).drop_first() =~= cs@.subrange(
            lo + 1,
            cs.len() as int,
        ));
        lo = lo + 1;
    }
    let ghost st = cs@.subrange(lo as int, cs.len() as int);
    assert(trim_start_spec(st) == st);
    let mut hi: usize = cs.len();
    assert(st.subrange(0, st.len() as int) =~= st);
    while hi > lo && is_whitespace(cs[hi - 1])
        invariant
            lo <= hi <= cs.len(),
            st == cs@.subrange(lo as int, cs.len() as int),
            trim_end_spec(st) == trim_end_spec(cs@.subrange(lo as int, hi as int)),
        decreases hi,
    {
        assert(cs@.subrange(lo as int, hi as int).drop_last() =~= cs@.subrange(lo as int, hi - 1));
        hi = hi - 1;
    }
    slice_chars(cs, lo, hi)
}

/// Normalize a raw link target from a parser: `None` for an empty or
/// anchor-only target; otherwise the target up to its first `#`, with the
/// fragment from that `#` on.
pub fn normalize_link_target(raw: &str) -> (r: Option<NormalizedTarget>)
    ensures
        match (r, normalize_link_spec(raw@)) {
            (None, None) => true,
            (Some(n), Some((t, f))) => n.target@ == t && match (n.fragment, f) {
                (None, None) => true,
                (Some(a), Some(b)) => a@ == b,
                _ => false,
            },
            _ => false,
        },
{
    let all = chars_of(raw);
    let t = trim_chars(&all);
    if t.len() == 0 || t[0] == '#' {
        return None;
    }
    let mut i: usize = 0;
    while i < t.len() && t[i] != '#'
        invariant
            i <= t.len(),
            first_hash(t@.subrange(0, i as int)) is None,
        decreases t.len() - i,
    {
        assert(t@.subrange(0, i + 1).drop_last() =~= t@.subrange(0, i as int));
        i = i + 1;
    }
    if i < t.len() {
        assert(t@.subrange(0, i + 1).drop_last() =~= t@.subrange(0, i as int));
        proof {
            lemma_first_hash_extends(t@, i as int);
        }
        let base = slice_chars(&t, 0, i);
        let frag = slice_chars(&t, i, t.len());
        Some(NormalizedTarget {
            target: string_from_chars(&base),
            fragment: Some(string_from_chars(&frag)),
        })
    } else {
        assert(t@.subrange(0, t.len() as int) =~= t@);
        Some(NormalizedTarget { target: string_from_chars(&t), fragment: None })
    }
}

/// The first `#` of a prefix is the first `#` of the whole.
pub proof fn lemma_first_hash_extends(s: Seq<char>, i: int)
    requires
        0 <= i < s.len(),
        first_hash(s.subrange(0, i + 1)) == Some(i),
    ensures
        first_hash(s) == Some(i),
    decreases s.len(),
{
    if s.len() > i + 1 {
        assert(s.drop_last().subrange(0, i + 1) =~= s.subrange(0, i + 1));
        lemma_first_hash_extends(s.drop_last(), i);
    } else {
        assert(s.subrange(0, i + 1) =~= s);
    }
}

/// The first `#` is the first: before it there is none.
proof fn lemma_first_hash_is_first(s: Seq<char>)
    ensures
        match first_hash(s) {
            Some(i) => 0 <= i < s.len() && s[i] == '#' && forall|j: int| 0 <= j < i ==> s[j] != '#',
            None => forall|j: int| 0 <= j < s.len() ==> s[j] != '#',
        },
    decreases s.len(),
{
    if s.len() > 0 {
        lemma_first_hash_is_first(s.drop_last());
        match first_hash(s.drop_last()) {
            Some(i) => {
                assert forall|j: int| 0 <= j < i implies s[j] != '#' by {
                    assert(s[j] == s.drop_last()[j]);
                }
                assert(s[i] == s.drop_last()[i]);
            },
            None => {
                assert forall|j: int| 0 <= j < s.len() - 1 implies s[j] != '#' by {
                    assert(s[j] == s.drop_last()[j]);
                }
            },
        }
    }
}

/// A link target splits exactly into its identity and its fragment: none
/// for a blank or anchor-only target; else a non-empty identity with no `#`,
/// then the fragment from the first `#` on, which together give back the
/// trimmed target.
pub proof fn lemma_link_target_split(raw: Seq<char>)
    ensures
        normalize_link_spec(raw) is None <==> (trim_spec(raw).len() == 0 || trim_spec(raw)[0] == '#'),
        normalize_link_spec(raw) matches Some((t, f)) ==> {
            &&& t + (match f {
                Some(x) => x,
                None => Seq::<char>::empty(),
            }) == trim_spec(raw)
            &&& t.len() > 0
            &&& !t.contains('#')
            &&& (f matches Some(x) ==> x.len() > 0 && x[0] == '#')
        },
{
    let t = trim_spec(raw);
    lemma_first_hash_is_first(t);
    if !(t.len() == 0 || t[0] == '#') {
        match first_hash(t) {
            Some(i) => {
                let a = t.subrange(0, i);
                let b = t.subrange(i, t.len() as int);
                assert(a + b =~= t);
                assert(i > 0);
                assert(!a.contains('#')) by {
                    if a.contains('#') {
                        let j = choose|j: int| 0 <= j < a.len() && a[j] == '#';
                        assert(t[j] == '#');
                    }
                }
                assert(b[0] == '#');
            },
            None => {
                assert(t + Seq::<char>::empty() =~= t);
                assert(!t.contains('#')) by {
                    if t.contains('#') {
                        let j = choose|j: int| 0 <= j < t.len() && t[j] == '#';
                    }
                }
            },
        }
    }
}

/// What `url::Url::parse` makes of `s`: on success, whether the URL has an
/// authority (`scheme://…`) and its scheme; `None` when parsing fails.
pub uninterp spec fn url_parse_view(s: Seq<char>) -> Option<(bool, Seq<char>)>;

/// `url::Url::parse` (WHATWG URL Standard), reduced to whether the parsed URL
/// has an authority and what its scheme is.
#[verifier::external_body]
fn url_parse(target: &str) -> (r: Option<(bool, String)>)
    ensures
        match (r, url_parse_view(target@)) {
            (None, None) => true,
            (Some((a, s)), Some((b, t))) => a == b && s@ == t,
            _ => false,
        },
{
    match url::Url::parse(target) {
        Ok(url) => Some((url.has_authority(), url.scheme().to_string())),
        Err(_) => None,
    }
}

/// The opaque schemes accepted as URIs without an authority.
pub open spec fn opaque_scheme(s: Seq<char>) -> bool {
    s == "mailto"@ || s == "tel"@ || s == "data"@ || s == "urn"@ || s == "javascript"@
}

/// A parsed target is a URI when it has an authority or a known opaque scheme.
pub open spec fn uri_verdict_spec(parsed: Option<(bool, Seq<char>)>) -> bool {
    match parsed {
        Some((authority, scheme)) => authority || opaque_scheme(scheme),
        None => false,
    }
}

/// Which parsed targets are URIs: one with an authority (`scheme://…`) is,
/// whatever its scheme; one without is exactly when its scheme is `mailto`,
/// `tel`, `data`, `urn` or `javascript`, so an inline `data:` image or a
/// `mailto:` link is a URI while `name: foo` is not; a target that does not
/// parse is not.
pub proof fn lemma_uri_schemes(authority: bool, scheme: Seq<char>)
    ensures
        !uri_verdict_spec(None),
        authority ==> uri_verdict_spec(Some((authority, scheme))),
        !authority ==> (uri_verdict_spec(Some((authority, scheme))) <==> (scheme == "mailto"@ || scheme
            == "tel"@ || scheme == "data"@ || scheme == "urn"@ || scheme == "javascript"@)),
{
}

/// A target that parses with no authority and one of the opaque schemes
/// `mailto`, `tel`, `data`, `urn`, `javascript` is a URI, not a path; one
/// that parses with any other scheme and no authority is not.
pub proof fn lemma_opaque_targets_are_uris(target: Seq<char>)
    ensures
        match url_parse_view(target) {
            Some((a, s)) => !a ==> (uri_verdict_spec(url_parse_view(target)) <==> (s == "data"@ || s
                == "mailto"@ || s == "tel"@ || s == "urn"@ || s == "javascript"@)),
            None => !uri_verdict_spec(url_parse_view(target)),
        },
{
}

fn chars_eq(a: &Vec<char>, b: &Vec<char>) -> (r: bool)
    ensures
        r == (a@ == b@),
{
    if a.len() != b.len() {
        return false;
    }
    let mut i: usize = 0;
    while i < a.len()
        invariant
            i <= a.len(),
            a.len() == b.len(),
            forall|j: int| 0 <= j < i ==> a@[j] == b@[j],
        decreases a.len() - i,
    {
        if a[i] != b[i] {
            return false;
        }
        i = i + 1;
    }
    assert(a@ =~= b@);
    true
}

/// Whether `s` has the same characters as `lit`.
pub fn str_eq(s: &str, lit: &str) -> (r: bool)
    ensures
        r == (s@ == lit@),
{
    let a = chars_of(s);
    let b = chars_of(lit);
    chars_eq(&a, &b)
}

/// Decide whether a parsed target is a URI: it is when it has an authority
/// (`://`) or uses a known opaque scheme (`mailto`, `tel`, `data`, `urn`,
/// `javascript`). A failed parse is not a URI.
pub fn uri_verdict(parsed: Option<(bool, String)>) -> (r: bool)
    ensures
        r == uri_verdict_spec(match parsed {
            Some((a, s)) => Some((a, s@)),
            None => None,
        }),
        parsed is None ==> !r,
        parsed matches Some((a, s)) ==> (r <==> (a || s@ == "mailto"@ || s@ == "tel"@ || s@ == "data"@
            || s@ == "urn"@ || s@ == "javascript"@)),
{
    match parsed {
        Some((authority, scheme)) => {
            authority || str_eq(scheme.as_str(), "mailto") || str_eq(scheme.as_str(), "tel")
                || str_eq(scheme.as_str(), "data") || str_eq(scheme.as_str(), "urn") || str_eq(
                scheme.as_str(),
                "javascript",
            )
        },
        None => false,
    }
}

/// Whether a target string is a URI: it parses as a URL and either has an
/// authority or uses a known opaque scheme. Without that filter any
/// `word:stuff` would pass, and a YAML value like `name: foo` would read as a
/// URI with scheme `name`.
pub fn is_uri(target: &str) -> (r: bool)
    ensures
        r == uri_verdict_spec(url_parse_view(target@)),
        url_parse_view(target@) is None ==> !r,
        url_parse_view(target@) matches Some((a, s)) ==> (r <==> (a || s == "mailto"@ || s == "tel"@
            || s == "data"@ || s == "urn"@ || s == "javascript"@)),
{
    let parsed = url_parse(target);
    uri_verdict(parsed)
}

/// The lowercase hex BLAKE3 digest of `data`.
pub uninterp spec fn blake3_hex_view(data: Seq<u8>) -> Seq<char>;

/// `blake3::hash(data).to_hex()`: the BLAKE3 digest of `data` as 64 lowercase
/// hex characters.
#[verifier::external_body]
fn blake3_hex(data: &[u8]) -> (r: String)
    ensures
        r@ == blake3_hex_view(data@),
        r@.len() == 64,
{
    blake3::hash(data).to_hex().to_string()
}

/// The content hash drft records: `b3:` followed by the BLAKE3 hex digest.
pub open spec fn hash_spec(data: Seq<u8>) -> Seq<char> {
    seq!['b', '3', ':'] + blake3_hex_view(data)
}

/// Hash file contents with BLAKE3, returning `b3:<hex>`.
pub fn hash_bytes(content: &[u8]) -> (r: String)
    ensures
        r@ == hash_spec(content@),
{
    let hex = blake3_hex(content);
    let mut out = String::new();
    out.push('b');
    out.push('3');
    out.push(':');
    push_all(&mut out, hex.as_str());
    assert(out@ =~= hash_spec(content@));
    out
}

} // verus!
