//! GitHub's heading-anchor algorithm: the function that decides what
//! `#fragment` a heading answers to. It runs over the heading only; a link's
//! fragment is compared to the result character for character.

use vstd::prelude::*;
use crate::cli::ascii_lower;
use crate::text::{chars_of, decimal, decimal_string, push_all};

verus! {

/// The lowercase mapping of `c`, as `char::to_lowercase` yields it.
pub uninterp spec fn unicode_lowercase(c: char) -> Seq<char>;

/// Whether `c` is alphabetic or numeric, as `char::is_alphanumeric` reports it.
pub uninterp spec fn unicode_alphanumeric(c: char) -> bool;

/// `char::to_lowercase`: the lowercase mapping of `c`, one or more
/// characters (the character itself when it has none). An ASCII character
/// maps to its ASCII lowercase: `A`–`Z` to `a`–`z`, every other one to itself.
#[verifier::external_body]
fn to_lowercase(c: char) -> (r: Vec<char>)
    ensures
        r@ == unicode_lowercase(c),
        r@.len() >= 1,
        (c as u32) < 128 ==> r@ == seq![ascii_lower(c)],
{
    c.to_lowercase().collect()
}

/// `char::is_alphanumeric`: whether `c` is alphabetic or numeric. Among
/// ASCII characters exactly the letters and the digits are.
#[verifier::external_body]
fn is_alphanumeric(c: char) -> (r: bool)
    ensures
        r == unicode_alphanumeric(c),
        (c as u32) < 128 ==> (r <==> ('a' <= c <= 'z' || 'A' <= c <= 'Z' || '0' <= c <= '9')),
{
    c.is_alphanumeric()
}

/// The lowercase mapping of every character, in order.
pub open spec fn lowered(s: Seq<char>) -> Seq<char>
    decreases s.len(),
{
    if s.len() == 0 {
        Seq::empty()
    } else {
        lowered(s.drop_last()) + unicode_lowercase(s.last())
    }
}

/// What one lowercased character contributes to an anchor: a space becomes a
/// hyphen; a letter, digit, underscore or hyphen stays; anything else goes.
pub open spec fn slug_keep(ch: char) -> Seq<char> {
    if ch == ' ' {
        seq!['-']
    } else if ch == '-' || ch == '_' || unicode_alphanumeric(ch) {
        seq![ch]
    } else {
        Seq::empty()
    }
}

/// The anchor characters kept from already lowercased text.
pub open spec fn slug_of(cs: Seq<char>) -> Seq<char>
    decreases cs.len(),
{
    if cs.len() == 0 {
        Seq::empty()
    } else {
        slug_of(cs.drop_last()) + slug_keep(cs.last())
    }
}

/// The anchor a heading's text answers to.
pub open spec fn slug_spec(text: Seq<char>) -> Seq<char> {
    slug_of(lowered(text))
}

/// Whether every character of `s` is ASCII.
pub open spec fn all_ascii(s: Seq<char>) -> bool {
    forall|i: int| 0 <= i < s.len() ==> (#[trigger] s[i] as u32) < 128
}

/// Whether `c` is an ASCII letter or digit.
pub open spec fn ascii_alnum(c: char) -> bool {
    'a' <= c <= 'z' || 'A' <= c <= 'Z' || '0' <= c <= '9'
}

/// What one lowercased ASCII character contributes to an anchor.
pub open spec fn ascii_keep(l: char) -> Seq<char> {
    if l == ' ' {
        seq!['-']
    } else if l == '-' || l == '_' || ascii_alnum(l) {
        seq![l]
    } else {
        Seq::empty()
    }
}

/// The anchor of ASCII text: lowercase `A`–`Z`, keep letters, digits,
/// underscores and hyphens, turn spaces into hyphens, drop the rest.
pub open spec fn ascii_slug(s: Seq<char>) -> Seq<char>
    decreases s.len(),
{
    if s.len() == 0 {
        Seq::empty()
    } else {
        ascii_slug(s.drop_last()) + ascii_keep(ascii_lower(s.last()))
    }
}

/// Whether `c` is a character an ASCII anchor is made of: a lowercase
/// letter, a digit, an underscore or a hyphen.
pub open spec fn anchor_char(c: char) -> bool {
    'a' <= c <= 'z' || '0' <= c <= '9' || c == '_' || c == '-'
}

/// What one ASCII character contributes is at most one anchor character.
proof fn lemma_ascii_keep_anchor(c: char)
    ensures
        ascii_keep(ascii_lower(c)).len() <= 1,
        forall|i: int| 0 <= i < ascii_keep(ascii_lower(c)).len() ==> anchor_char(#[trigger] ascii_keep(ascii_lower(c))[i]),
{
    if 'A' <= c <= 'Z' {
        let l = ascii_lower(c);
        assert(97 <= l as u32 <= 122);
        assert('a' <= l <= 'z');
    }
}

/// An anchor character is kept as it is.
proof fn lemma_anchor_char_kept(c: char)
    requires
        anchor_char(c),
    ensures
        ascii_keep(ascii_lower(c)) == seq![c],
{
}

/// A text made of anchor characters is its own anchor.
proof fn lemma_ascii_slug_fixed(s: Seq<char>)
    requires
        forall|i: int| 0 <= i < s.len() ==> anchor_char(#[trigger] s[i]),
    ensures
        ascii_slug(s) == s,
    decreases s.len(),
{
    if s.len() > 0 {
        assert forall|i: int| 0 <= i < s.drop_last().len() implies anchor_char(#[trigger] s.drop_last()[i]) by {
            assert(s.drop_last()[i] == s[i]);
        }
        lemma_ascii_slug_fixed(s.drop_last());
        assert(anchor_char(s[s.len() - 1]));
        lemma_anchor_char_kept(s.last());
        assert(s.drop_last() + seq![s.last()] =~= s);
    }
}

/// The anchor of ASCII text is made of anchor characters only (lowercase
/// letters, digits, underscores and hyphens), is no longer than the text,
/// and is its own anchor.
pub proof fn lemma_ascii_slug_laws(s: Seq<char>)
    ensures
        forall|i: int| 0 <= i < ascii_slug(s).len() ==> anchor_char(#[trigger] ascii_slug(s)[i]),
        ascii_slug(s).len() <= s.len(),
        ascii_slug(ascii_slug(s)) == ascii_slug(s),
    decreases s.len(),
{
    if s.len() > 0 {
        lemma_ascii_slug_laws(s.drop_last());
        let p = ascii_slug(s.drop_last());
        let k = ascii_keep(ascii_lower(s.last()));
        lemma_ascii_keep_anchor(s.last());
        assert forall|i: int| 0 <= i < (p + k).len() implies anchor_char(#[trigger] (p + k)[i]) by {
            if i < p.len() {
                assert((p + k)[i] == p[i]);
            } else {
                assert((p + k)[i] == k[i - p.len()]);
            }
        }
    }
    lemma_ascii_slug_fixed(ascii_slug(s));
}

proof fn lemma_slug_concat(a: Seq<char>, b: Seq<char>)
    ensures
        slug_of(a + b) == slug_of(a) + slug_of(b),
    decreases b.len(),
{
    if b.len() == 0 {
        assert(a + b =~= a);
    } else {
        lemma_slug_concat(a, b.drop_last());
        assert((a + b).drop_last() =~= a + b.drop_last());
        assert((a + b).last() == b.last());
    }
}

/// The anchor a heading's rendered text answers to: downcase, drop every
/// character that is not a letter, digit, underscore, hyphen or space, then
/// turn spaces into hyphens. Punctuation is removed rather than replaced, so
/// `Sizing — notes` becomes `sizing--notes`.
pub fn slug(text: &str) -> (out: String)
    ensures
        out@ == slug_spec(text@),
        all_ascii(text@) ==> out@ == ascii_slug(text@),
{
    let cs = chars_of(text);
    let mut out = String::new();
    let mut i: usize = 0;
    while i < cs.len()
        invariant
            i <= cs@.len(),
            cs@ == text@,
            out@ == slug_of(lowered(cs@.subrange(0, i as int))),
            all_ascii(text@) ==> out@ == ascii_slug(cs@.subrange(0, i as int)),
        decreases cs@.len() - i,
    {
        let c = cs[i];
        let low = to_lowercase(c);
        let ghost base = out@;
        let ghost ascii = all_ascii(text@);
        proof {
            if ascii {
                assert((cs@[i as int] as u32) < 128);
                if 'A' <= c <= 'Z' {
                    assert((ascii_lower(c) as u32) < 128);
                }
            }
        }
        let mut j: usize = 0;
        while j < low.len()
            invariant
                j <= low@.len(),
                out@ == base + slug_of(low@.subrange(0, j as int)),
                ascii ==> low@ == seq![ascii_lower(c)],
                ascii ==> (ascii_lower(c) as u32) < 128,
                ascii && j == 1 ==> out@ == base + ascii_keep(ascii_lower(c)),
            decreases low@.len() - j,
        {
            let ch = low[j];
            if ch == ' ' {
                out.push('-');
            } else if ch == '-' || ch == '_' || is_alphanumeric(ch) {
                out.push(ch);
            }
            proof {
                let pre = low@.subrange(0, j as int);
                let post = low@.subrange(0, j + 1);
                assert(post.drop_last() =~= pre);
                assert(post.last() == ch);
                assert(out@ =~= base + slug_of(post));
                if ascii {
                    assert(j == 0);
                    assert(pre =~= Seq::<char>::empty());
                    assert(out@ =~= base + ascii_keep(ascii_lower(c)));
                }
            }
            j = j + 1;
        }
        proof {
            assert(low@.subrange(0, j as int) =~= low@);
            let pre = cs@.subrange(0, i as int);
            let post = cs@.subrange(0, i + 1);
            assert(post.drop_last() =~= pre);
            assert(lowered(post) == lowered(pre) + low@);
            lemma_slug_concat(lowered(pre), low@);
            if ascii {
                assert(post.last() == c);
                assert(ascii_slug(post) == ascii_slug(pre) + ascii_keep(ascii_lower(c)));
            }
        }
        i = i + 1;
    }
    assert(cs@.subrange(0, cs@.len() as int) =~= text@);
    out
}

/// How many entries of `s` equal `x`.
pub open spec fn count_eq(s: Seq<Seq<char>>, x: Seq<char>) -> nat
    decreases s.len(),
{
    if s.len() == 0 {
        0
    } else {
        count_eq(s.drop_last(), x) + if s.last() == x {
            1nat
        } else {
            0nat
        }
    }
}

/// The anchor of the `i`-th of `bases`: the base itself the first time it
/// occurs, then `base-1`, `base-2`, … for each repeat.
pub open spec fn anchor_spec(bases: Seq<Seq<char>>, i: int) -> Seq<char> {
    let k = count_eq(bases.subrange(0, i), bases[i]);
    if k == 0 {
        bases[i]
    } else {
        bases[i] + seq!['-'] + decimal(k)
    }
}

/// The slugs of the headings, in order.
pub open spec fn heading_slugs(headings: Seq<&str>) -> Seq<Seq<char>> {
    headings.map_values(|h: &str| slug_spec(h@))
}

/// Whether two character sequences are equal.
fn same_chars(a: &Vec<char>, b: &Vec<char>) -> (r: bool)
    ensures
        r == (a@ == b@),
{
    if a.len() != b.len() {
        return false;
    }
    let mut k: usize = 0;
    while k < a.len()
        invariant
            k <= a@.len(),
            a@.len() == b@.len(),
            forall|m: int| 0 <= m < k ==> a@[m] == b@[m],
        decreases a@.len() - k,
    {
        if a[k] != b[k] {
            return false;
        }
        k = k + 1;
    }
    assert(a@ =~= b@);
    true
}

/// Resolve a document's headings, in order, to the anchors they define. A
/// slug that repeats takes GitHub's `-1`, `-2` disambiguator, so the second
/// `## Notes` answers to `#notes-1`.
pub fn anchors(headings: &Vec<&str>) -> (out: Vec<String>)
    ensures
        out@.len() == headings@.len(),
        forall|i: int| 0 <= i < out@.len() ==> (#[trigger] out@[i])@ == anchor_spec(heading_slugs(headings@), i),
{
    let ghost bases = heading_slugs(headings@);
    let mut keys: Vec<Vec<char>> = Vec::new();
    let mut out: Vec<String> = Vec::new();
    let mut i: usize = 0;
    while i < headings.len()
        invariant
            i <= headings@.len(),
            bases == heading_slugs(headings@),
            bases.len() == headings@.len(),
            keys@.len() == i,
            forall|j: int| 0 <= j < i ==> (#[trigger] keys@[j])@ == bases[j],
            out@.len() == i,
            forall|j: int| 0 <= j < i ==> (#[trigger] out@[j])@ == anchor_spec(bases, j),
        decreases headings@.len() - i,
    {
        let base = slug(headings[i]);
        let key = chars_of(base.as_str());
        let mut count: usize = 0;
        let mut j: usize = 0;
        while j < i
            invariant
                j <= i,
                i < headings@.len(),
                keys@.len() == i,
                bases.len() == headings@.len(),
                forall|q: int| 0 <= q < i ==> (#[trigger] keys@[q])@ == bases[q],
                key@ == bases[i as int],
                count == count_eq(bases.subrange(0, j as int), bases[i as int]),
                count <= j,
            decreases i - j,
        {
            let ghost pre = bases.subrange(0, j as int);
            let ghost post = bases.subrange(0, j + 1);
            proof {
                assert(post.drop_last() =~= pre);
                assert(post.last() == bases[j as int]);
            }
            if same_chars(&keys[j], &key) {
                count = count + 1;
            }
            j = j + 1;
        }
        let anchor = if count == 0 {
            base
        } else {
            let mut a = String::new();
            push_all(&mut a, base.as_str());
            a.push('-');
            let digits = decimal_string(count);
            push_all(&mut a, digits.as_str());
            assert(a@ =~= bases[i as int] + seq!['-'] + decimal(count as nat));
            a
        };
        keys.push(key);
        out.push(anchor);
        i = i + 1;
    }
    out
}

} // verus!
