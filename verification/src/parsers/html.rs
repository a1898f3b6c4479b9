//! The addresses a chunk of raw HTML declares: the `id` and `name` of each
//! `<a>` element. Attributes are tokenized rather than searched for by name, so
//! `name=` inside a quoted value is text and a `>` inside a value does not end
//! the tag.

use vstd::prelude::*;
use crate::paths::slice_chars;
use crate::text::{chars_of, string_from_chars, views};

verus! {

/// ASCII whitespace, as `u8::is_ascii_whitespace` counts it: space, tab, line
/// feed, form feed and carriage return.
pub open spec fn ascii_ws(c: char) -> bool {
    c == ' ' || c == '\t' || c == '\n' || c == '\x0C' || c == '\r'
}

fn is_ascii_ws(c: char) -> (r: bool)
    ensures
        r == ascii_ws(c),
{
    c == ' ' || c == '\t' || c == '\n' || c == '\x0C' || c == '\r'
}

/// The first position at or after `i` that is not whitespace or `/`.
pub open spec fn skip_ws_slash(h: Seq<char>, i: int) -> int
    decreases h.len() - i,
{
    if 0 <= i < h.len() && (ascii_ws(h[i]) || h[i] == '/') {
        skip_ws_slash(h, i + 1)
    } else {
        i
    }
}

/// The first position at or after `i` that is not whitespace.
pub open spec fn skip_ws(h: Seq<char>, i: int) -> int
    decreases h.len() - i,
{
    if 0 <= i < h.len() && ascii_ws(h[i]) {
        skip_ws(h, i + 1)
    } else {
        i
    }
}

/// Where an attribute name starting at `i` ends: at whitespace, `=`, `>`,
/// `/` or the end of the chunk.
pub open spec fn name_end(h: Seq<char>, i: int) -> int
    decreases h.len() - i,
{
    if 0 <= i < h.len() && !ascii_ws(h[i]) && h[i] != '=' && h[i] != '>' && h[i] != '/' {
        name_end(h, i + 1)
    } else {
        i
    }
}

/// Where an unquoted value starting at `i` ends: at whitespace, `>` or the end.
pub open spec fn bare_end(h: Seq<char>, i: int) -> int
    decreases h.len() - i,
{
    if 0 <= i < h.len() && !ascii_ws(h[i]) && h[i] != '>' {
        bare_end(h, i + 1)
    } else {
        i
    }
}

/// The first position at or after `i` holding `q`, if any.
pub open spec fn find_from(h: Seq<char>, i: int, q: char) -> Option<int>
    decreases h.len() - i,
{
    if i < 0 || i >= h.len() {
        None
    } else if h[i] == q {
        Some(i)
    } else {
        find_from(h, i + 1, q)
    }
}

/// The next attribute of a tag body from `from`, as `(name, value, next)`;
/// `None` at the tag's `>`, at the end of the chunk, or at a quoted value that
/// is never closed. A bare attribute has an empty value.
pub open spec fn attr_spec(h: Seq<char>, from: int) -> Option<(Seq<char>, Seq<char>, int)> {
    let i = skip_ws_slash(h, from);
    if i >= h.len() || h[i] == '>' {
        None
    } else {
        let ne = name_end(h, i);
        let name = h.subrange(i, ne);
        let an = skip_ws(h, ne);
        if an >= h.len() || h[an] != '=' {
            Some((name, Seq::empty(), ne))
        } else {
            let v = skip_ws(h, an + 1);
            if v >= h.len() {
                Some((name, Seq::empty(), v))
            } else if h[v] == '"' || h[v] == '\'' {
                match find_from(h, v + 1, h[v]) {
                    Some(e) => Some((name, h.subrange(v + 1, e), e + 1)),
                    None => None,
                }
            } else {
                let e = bare_end(h, v);
                Some((name, h.subrange(v, e), e))
            }
        }
    }
}

proof fn lemma_skip_ws_slash(h: Seq<char>, i: int)
    requires
        0 <= i <= h.len(),
    ensures
        i <= skip_ws_slash(h, i) <= h.len(),
        skip_ws_slash(h, i) < h.len() ==> !ascii_ws(h[skip_ws_slash(h, i)]) && h[skip_ws_slash(h, i)] != '/',
    decreases h.len() - i,
{
    if i < h.len() && (ascii_ws(h[i]) || h[i] == '/') {
        lemma_skip_ws_slash(h, i + 1);
    }
}

proof fn lemma_skip_ws(h: Seq<char>, i: int)
    requires
        0 <= i <= h.len(),
    ensures
        i <= skip_ws(h, i) <= h.len(),
        skip_ws(h, i) < h.len() ==> !ascii_ws(h[skip_ws(h, i)]),
    decreases h.len() - i,
{
    if i < h.len() && ascii_ws(h[i]) {
        lemma_skip_ws(h, i + 1);
    }
}

proof fn lemma_name_end(h: Seq<char>, i: int)
    requires
        0 <= i <= h.len(),
    ensures
        i <= name_end(h, i) <= h.len(),
    decreases h.len() - i,
{
    if i < h.len() && !ascii_ws(h[i]) && h[i] != '=' && h[i] != '>' && h[i] != '/' {
        lemma_name_end(h, i + 1);
    }
}

proof fn lemma_bare_end(h: Seq<char>, i: int)
    requires
        0 <= i <= h.len(),
    ensures
        i <= bare_end(h, i) <= h.len(),
    decreases h.len() - i,
{
    if i < h.len() && !ascii_ws(h[i]) && h[i] != '>' {
        lemma_bare_end(h, i + 1);
    }
}

proof fn lemma_find_from(h: Seq<char>, i: int, q: char)
    requires
        0 <= i,
    ensures
        match find_from(h, i, q) {
            Some(e) => i <= e < h.len() && h[e] == q,
            None => true,
        },
    decreases h.len() - i,
{
    if i < h.len() && h[i] != q {
        lemma_find_from(h, i + 1, q);
    }
}

/// An attribute that is found ends past where the scan began.
pub proof fn lemma_attr_advances(h: Seq<char>, from: int)
    requires
        0 <= from <= h.len(),
    ensures
        match attr_spec(h, from) {
            Some((_, _, next)) => from < next <= h.len(),
            None => true,
        },
{
    let i = skip_ws_slash(h, from);
    lemma_skip_ws_slash(h, from);
    if i < h.len() && h[i] != '>' {
        let ne = name_end(h, i);
        lemma_name_end(h, i);
        let an = skip_ws(h, ne);
        lemma_skip_ws(h, ne);
        if h[i] != '=' {
            lemma_name_end(h, i + 1);
        }
        if an >= h.len() || h[an] != '=' {
            assert(ne > i);
        } else {
            let v = skip_ws(h, an + 1);
            lemma_skip_ws(h, an + 1);
            if v < h.len() {
                if h[v] == '"' || h[v] == '\'' {
                    lemma_find_from(h, v + 1, h[v]);
                } else {
                    lemma_bare_end(h, v);
                }
            }
        }
    }
}

/// The next attribute of a tag body from `from`: its name, its value (empty
/// for a bare attribute), and where the scan resumes.
pub fn attribute(h: &Vec<char>, from: usize) -> (r: Option<(Vec<char>, Vec<char>, usize)>)
    requires
        from <= h@.len(),
    ensures
        match (r, attr_spec(h@, from as int)) {
            (Some((name, value, next)), Some((sn, sv, snext))) => name@ == sn && value@ == sv && next == snext,
            (None, None) => true,
            _ => false,
        },
{
    let n = h.len();
    let mut i = from;
    while i < n && (is_ascii_ws(h[i]) || h[i] == '/')
        invariant
            from <= i <= n,
            n == h@.len(),
            skip_ws_slash(h@, from as int) == skip_ws_slash(h@, i as int),
        decreases n - i,
    {
        i = i + 1;
    }
    if i >= n || h[i] == '>' {
        return None;
    }
    let name_start = i;
    while i < n && !is_ascii_ws(h[i]) && h[i] != '=' && h[i] != '>' && h[i] != '/'
        invariant
            name_start <= i <= n,
            n == h@.len(),
            name_end(h@, name_start as int) == name_end(h@, i as int),
        decreases n - i,
    {
        i = i + 1;
    }
    let name = slice_chars(h, name_start, i);
    let mut after = i;
    while after < n && is_ascii_ws(h[after])
        invariant
            i <= after <= n,
            n == h@.len(),
            skip_ws(h@, i as int) == skip_ws(h@, after as int),
        decreases n - after,
    {
        after = after + 1;
    }
    if after >= n || h[after] != '=' {
        return Some((name, Vec::new(), i));
    }
    let mut v = after + 1;
    while v < n && is_ascii_ws(h[v])
        invariant
            after + 1 <= v <= n,
            n == h@.len(),
            skip_ws(h@, after + 1) == skip_ws(h@, v as int),
        decreases n - v,
    {
        v = v + 1;
    }
    if v >= n {
        return Some((name, Vec::new(), v));
    }
    let q = h[v];
    if q == '"' || q == '\'' {
        let mut e = v + 1;
        while e < n && h[e] != q
            invariant
                v + 1 <= e <= n,
                n == h@.len(),
                find_from(h@, v + 1, q) == find_from(h@, e as int, q),
            decreases n - e,
        {
            e = e + 1;
        }
        if e >= n {
            return None;
        }
        let value = slice_chars(h, v + 1, e);
        Some((name, value, e + 1))
    } else {
        let mut e = v;
        while e < n && !is_ascii_ws(h[e]) && h[e] != '>'
            invariant
                v <= e <= n,
                n == h@.len(),
                bare_end(h@, v as int) == bare_end(h@, e as int),
            decreases n - e,
        {
            e = e + 1;
        }
        let value = slice_chars(h, v, e);
        Some((name, value, e))
    }
}

/// Whether an attribute name is `id`, in any ASCII case.
pub open spec fn is_id_attr(name: Seq<char>) -> bool {
    name.len() == 2 && (name[0] == 'i' || name[0] == 'I') && (name[1] == 'd' || name[1] == 'D')
}

/// Whether an attribute name is `name`, in any ASCII case.
pub open spec fn is_name_attr(name: Seq<char>) -> bool {
    &&& name.len() == 4
    &&& (name[0] == 'n' || name[0] == 'N')
    &&& (name[1] == 'a' || name[1] == 'A')
    &&& (name[2] == 'm' || name[2] == 'M')
    &&& (name[3] == 'e' || name[3] == 'E')
}

/// The addresses a tag body declares from `i` on, given whether an `id` and a
/// `name` were already taken (HTML keeps the first of a repeated attribute),
/// and where the attribute scan stops. An empty value declares nothing.
pub open spec fn tag_ids(h: Seq<char>, i: int, seen_id: bool, seen_name: bool) -> (Seq<Seq<char>>, int)
    decreases h.len() - i,
{
    if !(0 <= i <= h.len()) {
        (Seq::empty(), i)
    } else {
        match attr_spec(h, i) {
            None => (Seq::empty(), i),
            Some((name, value, next)) => {
                if next <= i || next > h.len() {
                    (Seq::empty(), i)
                } else if value.len() == 0 {
                    tag_ids(h, next, seen_id, seen_name)
                } else if is_id_attr(name) {
                    let rest = tag_ids(h, next, true, seen_name);
                    if seen_id {
                        rest
                    } else {
                        (seq![value] + rest.0, rest.1)
                    }
                } else if is_name_attr(name) {
                    let rest = tag_ids(h, next, seen_id, true);
                    if seen_name {
                        rest
                    } else {
                        (seq![value] + rest.0, rest.1)
                    }
                } else {
                    tag_ids(h, next, seen_id, seen_name)
                }
            },
        }
    }
}

/// Whether an `<a>` tag opens at `i`: `<`, then `a` or `A`, then whitespace,
/// `/` or `>` (so `<abbr>` does not).
pub open spec fn opens_anchor(h: Seq<char>, i: int) -> bool {
    &&& 0 <= i && i + 2 < h.len()
    &&& h[i] == '<'
    &&& (h[i + 1] == 'a' || h[i + 1] == 'A')
    &&& {
        let c = h[i + 2];
        c == ' ' || c == '\t' || c == '\n' || c == '\r' || c == '/' || c == '>'
    }
}

/// The addresses the `<a>` tags from `i` on declare, in order.
pub open spec fn ids_from(h: Seq<char>, i: int) -> Seq<Seq<char>>
    decreases h.len() - i,
{
    if !(0 <= i < h.len()) {
        Seq::empty()
    } else if !opens_anchor(h, i) {
        ids_from(h, i + 1)
    } else {
        let t = tag_ids(h, i + 2, false, false);
        if t.1 <= i || t.1 > h.len() {
            Seq::empty()
        } else {
            t.0 + ids_from(h, t.1)
        }
    }
}

/// The ids declared by `<a id="…">` and `<a name="…">` in a chunk of raw
/// HTML, in order, with their case kept: `#FAQ` and `#faq` are different
/// addresses.
pub fn html_anchor_ids(html: &str) -> (ids: Vec<String>)
    ensures
        views(ids@) == ids_from(html@, 0),
{
    let h = chars_of(html);
    let n = h.len();
    let mut ids: Vec<String> = Vec::new();
    let mut i: usize = 0;
    while i < n
        invariant
            i <= n,
            n == h@.len(),
            h@ == html@,
            views(ids@) + ids_from(h@, i as int) == ids_from(h@, 0),
        decreases n - i,
    {
        let opens = h[i] == '<' && 2 < n - i && (h[i + 1] == 'a' || h[i + 1] == 'A') && (h[i + 2] == ' '
            || h[i + 2] == '\t' || h[i + 2] == '\n' || h[i + 2] == '\r' || h[i + 2] == '/' || h[i + 2]
            == '>');
        assert(opens == opens_anchor(h@, i as int));
        if !opens {
            i = i + 1;
        } else {
            let ghost start = i;
            let ghost target = tag_ids(h@, i + 2, false, false);
            let ghost base = views(ids@);
            i = i + 2;
            let mut seen_id = false;
            let mut seen_name = false;
            loop
                invariant
                    start + 2 <= i <= n,
                    n == h@.len(),
                    h@ == html@,
                    base + ids_from(h@, start as int) == ids_from(h@, 0),
                    ids_from(h@, start as int) == (if target.1 <= start || target.1 > h@.len() {
                        Seq::empty()
                    } else {
                        target.0 + ids_from(h@, target.1)
                    }),
                    views(ids@) + tag_ids(h@, i as int, seen_id, seen_name).0 == base + target.0,
                    tag_ids(h@, i as int, seen_id, seen_name).1 == target.1,
                ensures
                    start + 2 <= i <= n,
                    views(ids@) == base + target.0,
                    target.1 == i,
                    base + ids_from(h@, start as int) == ids_from(h@, 0),
                    ids_from(h@, start as int) == target.0 + ids_from(h@, target.1),
                decreases n - i,
            {
                proof {
                    lemma_attr_advances(h@, i as int);
                }
                match attribute(&h, i) {
                    None => {
                        break;
                    },
                    Some((name, value, next)) => {
                        let ghost before = views(ids@);
                        i = next;
                        if value.len() > 0 {
                            let is_id = name.len() == 2 && (name[0] == 'i' || name[0] == 'I') && (name[1]
                                == 'd' || name[1] == 'D');
                            let is_name = name.len() == 4 && (name[0] == 'n' || name[0] == 'N') && (name[1]
                                == 'a' || name[1] == 'A') && (name[2] == 'm' || name[2] == 'M') && (name[3]
                                == 'e' || name[3] == 'E');
                            assert(is_id == is_id_attr(name@));
                            assert(is_name == is_name_attr(name@));
                            if is_id {
                                if !seen_id {
                                    ids.push(string_from_chars(&value));
                                    assert(views(ids@) =~= before.push(value@));
                                }
                                seen_id = true;
                            } else if is_name {
                                if !seen_name {
                                    ids.push(string_from_chars(&value));
                                    assert(views(ids@) =~= before.push(value@));
                                }
                                seen_name = true;
                            }
                        }
                    },
                }
            }
        }
    }
    ids
}

} // verus!
