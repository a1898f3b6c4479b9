//! Character-level text helpers shared by every renderer: reading a string as
//! characters, building strings, rendering numbers, and keeping a value on one
//! line.

use vstd::prelude::*;
use vstd::std_specs::iter::IteratorSpec;

verus! {

/// `String::push` appends one character.
pub assume_specification[ String::push ](s: &mut String, ch: char)
    ensures
        final(s)@ == old(s)@.push(ch),
;

/// The characters of `s`, in order.
pub fn chars_of(s: &str) -> (out: Vec<char>)
    ensures
        out@ == s@,
{
    let mut it = s.chars();
    let mut out: Vec<char> = Vec::new();
    let ghost whole = s@;
    loop
        invariant
            it.obeys_prophetic_iter_laws(),
            whole == s@,
            whole == out@ + it.remaining(),
        ensures
            out@ == s@,
        decreases whole.len() - out@.len(),
    {
        match it.next() {
            Some(c) => {
                out.push(c);
            },
            None => {
                assert(out@ =~= whole);
                break;
            },
        }
    }
    out
}


/// The text of a character sequence.
pub fn string_from_chars(cs: &Vec<char>) -> (out: String)
    ensures
        out@ == cs@,
{
    let mut out = String::new();
    let mut i: usize = 0;
    while i < cs.len()
        invariant
            i <= cs.len(),
            out@ == cs@.subrange(0, i as int),
        decreases cs.len() - i,
    {
        out.push(cs[i]);
        assert(cs@.subrange(0, i + 1) =~= cs@.subrange(0, i as int).push(cs@[i as int]));
        i = i + 1;
    }
    assert(cs@.subrange(0, cs.len() as int) =~= cs@);
    out
}

/// A fresh copy of `s`.
pub fn owned(s: &str) -> (out: String)
    ensures
        out@ == s@,
{
    let cs = chars_of(s);
    string_from_chars(&cs)
}

/// Append every character of `s` to `out`.
pub fn push_all(out: &mut String, s: &str)
    ensures
        final(out)@ == old(out)@ + s@,
{
    let cs = chars_of(s);
    let mut i: usize = 0;
    while i < cs.len()
        invariant
            i <= cs.len(),
            cs@ == s@,
            out@ == old(out)@ + cs@.subrange(0, i as int),
        decreases cs.len() - i,
    {
        out.push(cs[i]);
        assert(cs@.subrange(0, i + 1) =~= cs@.subrange(0, i as int).push(cs@[i as int]));
        i = i + 1;
    }
    assert(cs@.subrange(0, cs.len() as int) =~= cs@);
}

/// The ASCII digit for `d < 10`.
pub open spec fn digit_char(d: nat) -> char {
    ((48 + d) as u8) as char
}

/// The decimal rendering of `n`, most significant digit first, with no
/// leading zeros (`0` renders as `"0"`).
pub open spec fn decimal(n: nat) -> Seq<char>
    decreases n,
{
    if n < 10 {
        seq![digit_char(n)]
    } else {
        decimal(n / 10).push(digit_char(n % 10))
    }
}

/// Append the decimal rendering of `n`.
pub fn push_decimal(out: &mut String, n: usize)
    ensures
        final(out)@ == old(out)@ + decimal(n as nat),
    decreases n,
{
    if n >= 10 {
        push_decimal(out, n / 10);
    }
    let d: u8 = (n % 10) as u8;
    let c: char = (48u8 + d) as char;
    out.push(c);
    assert(final(out)@ =~= old(out)@ + decimal(n as nat)) by {
        if n >= 10 {
            assert(decimal(n as nat) == decimal((n / 10) as nat).push(digit_char((n % 10) as nat)));
        }
    }
}

/// The decimal rendering of `n` as a string.
pub fn decimal_string(n: usize) -> (out: String)
    ensures
        out@ == decimal(n as nat),
{
    let mut out = String::new();
    push_decimal(&mut out, n);
    assert(out@ =~= decimal(n as nat));
    out
}

/// Whether `c` breaks a line.
pub open spec fn is_line_break(c: char) -> bool {
    c == '\n' || c == '\r'
}

/// How one character renders when a value must stay on one line: a newline,
/// carriage return, or tab becomes its two-character backslash escape; every
/// other character stands for itself.
pub open spec fn escape_char(c: char) -> Seq<char> {
    if c == '\n' {
        seq!['\\', 'n']
    } else if c == '\r' {
        seq!['\\', 'r']
    } else if c == '\t' {
        seq!['\\', 't']
    } else {
        seq![c]
    }
}

/// `s` rendered so that it occupies one line.
pub open spec fn one_line_spec(s: Seq<char>) -> Seq<char>
    decreases s.len(),
{
    if s.len() == 0 {
        Seq::empty()
    } else {
        one_line_spec(s.drop_last()) + escape_char(s.last())
    }
}

/// Whether `s` holds no line break.
pub open spec fn single_line(s: Seq<char>) -> bool {
    forall|i: int| 0 <= i < s.len() ==> !is_line_break(#[trigger] s[i])
}

/// An escaped value never breaks a line.
pub proof fn lemma_one_line_is_single_line(s: Seq<char>)
    ensures
        single_line(one_line_spec(s)),
    decreases s.len(),
{
    if s.len() > 0 {
        lemma_one_line_is_single_line(s.drop_last());
        let head = one_line_spec(s.drop_last());
        let tail = escape_char(s.last());
        assert forall|i: int| 0 <= i < (head + tail).len() implies !is_line_break(
            #[trigger] (head + tail)[i],
        ) by {
            if i < head.len() {
                assert((head + tail)[i] == head[i]);
            } else {
                assert((head + tail)[i] == tail[i - head.len()]);
            }
        }
    }
}

/// A value already free of line breaks and tabs is rendered unchanged.
pub proof fn lemma_one_line_plain(s: Seq<char>)
    requires
        forall|i: int| 0 <= i < s.len() ==> !is_line_break(#[trigger] s[i]) && s[i] != '\t',
    ensures
        one_line_spec(s) == s,
    decreases s.len(),
{
    if s.len() > 0 {
        lemma_one_line_plain(s.drop_last());
        assert(s.drop_last().push(s.last()) =~= s);
    }
}

/// Append `s` to `out`, escaped so that it stays on one line.
pub fn push_one_line(out: &mut String, s: &str)
    ensures
        final(out)@ == old(out)@ + one_line_spec(s@),
{
    let cs = chars_of(s);
    let mut i: usize = 0;
    while i < cs.len()
        invariant
            i <= cs.len(),
            cs@ == s@,
            out@ == old(out)@ + one_line_spec(cs@.subrange(0, i as int)),
        decreases cs.len() - i,
    {
        let c = cs[i];
        if c == '\n' {
            out.push('\\');
            out.push('n');
        } else if c == '\r' {
            out.push('\\');
            out.push('r');
        } else if c == '\t' {
            out.push('\\');
            out.push('t');
        } else {
            out.push(c);
        }
        let ghost prefix = cs@.subrange(0, i + 1);
        assert(prefix.drop_last() =~= cs@.subrange(0, i as int));
        assert(out@ =~= old(out)@ + one_line_spec(prefix));
        i = i + 1;
    }
    assert(cs@.subrange(0, cs.len() as int) =~= cs@);
}

/// `s` escaped so that it stays on one line: newlines, carriage returns and tabs
/// become `\n`, `\r` and `\t`.
pub fn one_line(s: &str) -> (out: String)
    ensures
        out@ == one_line_spec(s@),
{
    let mut out = String::new();
    push_one_line(&mut out, s);
    assert(out@ =~= one_line_spec(s@));
    out
}

/// `parts` joined with `sep` between consecutive parts.
pub open spec fn join_spec(parts: Seq<Seq<char>>, sep: Seq<char>) -> Seq<char>
    decreases parts.len(),
{
    if parts.len() == 0 {
        Seq::empty()
    } else if parts.len() == 1 {
        parts[0]
    } else {
        join_spec(parts.drop_last(), sep) + sep + parts.last()
    }
}

/// The views of a list of strings.
pub open spec fn views(parts: Seq<String>) -> Seq<Seq<char>> {
    parts.map_values(|p: String| p@)
}

/// A fresh copy of a list of strings.
pub fn copy_strings(v: &Vec<String>) -> (r: Vec<String>)
    ensures
        views(r@) == views(v@),
{
    let mut r: Vec<String> = Vec::new();
    let mut i: usize = 0;
    while i < v.len()
        invariant
            i <= v@.len(),
            views(r@) == views(v@.subrange(0, i as int)),
        decreases v@.len() - i,
    {
        r.push(v[i].clone());
        assert(views(v@.subrange(0, i + 1)) =~= views(v@.subrange(0, i as int)).push(v@[i as int]@));
        assert(views(r@) =~= views(v@.subrange(0, i + 1)));
        i = i + 1;
    }
    assert(v@.subrange(0, v@.len() as int) =~= v@);
    r
}

/// `parts` joined with `sep`.
pub fn join(parts: &Vec<String>, sep: &str) -> (out: String)
    ensures
        out@ == join_spec(views(parts@), sep@),
{
    let mut out = String::new();
    let mut i: usize = 0;
    while i < parts.len()
        invariant
            i <= parts.len(),
            out@ == join_spec(views(parts@.subrange(0, i as int)), sep@),
        decreases parts.len() - i,
    {
        let ghost before = views(parts@.subrange(0, i as int));
        if i > 0 {
            push_all(&mut out, sep);
        }
        push_all(&mut out, parts[i].as_str());
        let ghost after = views(parts@.subrange(0, i + 1));
        assert(after.drop_last() =~= before);
        assert(after.last() == parts@[i as int]@);
        if i == 0 {
            assert(out@ =~= join_spec(after, sep@));
        } else {
            assert(out@ =~= join_spec(after, sep@));
        }
        i = i + 1;
    }
    assert(parts@.subrange(0, parts.len() as int) =~= parts@);
    out
}

/// The decimal renderings of `ns` joined by commas, as in `12,49`.
pub open spec fn comma_numbers(ns: Seq<usize>) -> Seq<char>
    decreases ns.len(),
{
    if ns.len() == 0 {
        Seq::empty()
    } else if ns.len() == 1 {
        decimal(ns[0] as nat)
    } else {
        comma_numbers(ns.drop_last()) + seq![','] + decimal(ns.last() as nat)
    }
}

/// Append the decimal renderings of `ns`, separated by commas.
pub fn push_comma_numbers(out: &mut String, ns: &Vec<usize>)
    ensures
        final(out)@ == old(out)@ + comma_numbers(ns@),
{
    let mut i: usize = 0;
    while i < ns.len()
        invariant
            i <= ns.len(),
            out@ == old(out)@ + comma_numbers(ns@.subrange(0, i as int)),
        decreases ns.len() - i,
    {
        let ghost before = ns@.subrange(0, i as int);
        let ghost after = ns@.subrange(0, i + 1);
        if i > 0 {
            out.push(',');
        }
        push_decimal(out, ns[i]);
        assert(after.drop_last() =~= before);
        assert(out@ =~= old(out)@ + comma_numbers(after));
        i = i + 1;
    }
    assert(ns@.subrange(0, ns.len() as int) =~= ns@);
}


/// Append a sequence of characters.
pub fn push_chars(out: &mut String, cs: &[char])
    ensures
        final(out)@ == old(out)@ + cs@,
{
    let mut i: usize = 0;
    while i < cs.len()
        invariant
            i <= cs.len(),
            out@ == old(out)@ + cs@.subrange(0, i as int),
        decreases cs.len() - i,
    {
        out.push(cs[i]);
        assert(cs@.subrange(0, i + 1) =~= cs@.subrange(0, i as int).push(cs@[i as int]));
        i = i + 1;
    }
    assert(cs@.subrange(0, cs.len() as int) =~= cs@);
}

/// The number of line breaks in `s`.
pub open spec fn count_breaks(s: Seq<char>) -> nat
    decreases s.len(),
{
    if s.len() == 0 {
        0
    } else {
        count_breaks(s.drop_last()) + if is_line_break(s.last()) {
            1nat
        } else {
            0nat
        }
    }
}

/// Line breaks add up over concatenation.
pub proof fn lemma_count_breaks_concat(a: Seq<char>, b: Seq<char>)
    ensures
        count_breaks(a + b) == count_breaks(a) + count_breaks(b),
    decreases b.len(),
{
    if b.len() > 0 {
        lemma_count_breaks_concat(a, b.drop_last());
        assert((a + b).drop_last() =~= a + b.drop_last());
    } else {
        assert(a + b =~= a);
    }
}

/// A single-line sequence holds no line break.
pub proof fn lemma_single_line_count(s: Seq<char>)
    requires
        single_line(s),
    ensures
        count_breaks(s) == 0,
    decreases s.len(),
{
    if s.len() > 0 {
        assert(single_line(s.drop_last())) by {
            assert forall|i: int| 0 <= i < s.drop_last().len() implies !is_line_break(
                #[trigger] s.drop_last()[i],
            ) by {
                assert(s.drop_last()[i] == s[i]);
            }
        }
        lemma_single_line_count(s.drop_last());
        assert(!is_line_break(s[s.len() - 1]));
    }
}

/// Concatenating single-line sequences stays on one line.
pub proof fn lemma_single_line_concat(a: Seq<char>, b: Seq<char>)
    requires
        single_line(a),
        single_line(b),
    ensures
        single_line(a + b),
{
    assert forall|i: int| 0 <= i < (a + b).len() implies !is_line_break(#[trigger] (a + b)[i]) by {
        if i < a.len() {
            assert((a + b)[i] == a[i]);
        } else {
            assert((a + b)[i] == b[i - a.len()]);
        }
    }
}

/// A decimal rendering is all digits, so it stays on one line.
pub proof fn lemma_decimal_single_line(n: nat)
    ensures
        single_line(decimal(n)),
    decreases n,
{
    if n >= 10 {
        lemma_decimal_single_line(n / 10);
        let d = decimal(n / 10);
        assert forall|i: int| 0 <= i < d.push(digit_char(n % 10)).len() implies !is_line_break(
            #[trigger] d.push(digit_char(n % 10))[i],
        ) by {
            if i < d.len() {
                assert(d.push(digit_char(n % 10))[i] == d[i]);
            }
        }
    }
}

/// Comma-joined numbers stay on one line.
pub proof fn lemma_comma_numbers_single_line(ns: Seq<usize>)
    ensures
        single_line(comma_numbers(ns)),
    decreases ns.len(),
{
    if ns.len() == 1 {
        lemma_decimal_single_line(ns[0] as nat);
    } else if ns.len() > 1 {
        lemma_comma_numbers_single_line(ns.drop_last());
        lemma_decimal_single_line(ns.last() as nat);
        lemma_single_line_concat(comma_numbers(ns.drop_last()), seq![',']);
        lemma_single_line_concat(comma_numbers(ns.drop_last()) + seq![','], decimal(ns.last() as nat));
    }
}

} // verus!
