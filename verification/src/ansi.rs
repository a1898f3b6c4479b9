//! Terminal colour escapes, read back: what a reader that ignores every
//! `ESC [ … m` sequence sees of a rendering.

use vstd::prelude::*;
use crate::text::{comma_numbers, decimal, digit_char, escape_char, one_line_spec};

verus! {

/// Where a left-to-right reader of escapes stands between two characters.
pub enum SgrState {
    /// Outside any escape sequence.
    Text,
    /// Just past an `ESC` that may open a sequence.
    Escape,
    /// Inside a sequence, until its closing `m`.
    Inside,
}

/// The escape character.
pub open spec fn esc() -> char {
    '\x1b'
}

/// One step of the reader: what `c` adds to the visible text from `st`, and
/// where the reader stands after it.
pub open spec fn sgr_step(st: SgrState, c: char) -> (Seq<char>, SgrState) {
    match st {
        SgrState::Text => if c == esc() {
            (Seq::empty(), SgrState::Escape)
        } else {
            (seq![c], SgrState::Text)
        },
        SgrState::Escape => if c == '[' {
            (Seq::empty(), SgrState::Inside)
        } else if c == esc() {
            (seq![esc()], SgrState::Escape)
        } else {
            (seq![esc(), c], SgrState::Text)
        },
        SgrState::Inside => if c == 'm' {
            (Seq::empty(), SgrState::Text)
        } else {
            (Seq::empty(), SgrState::Inside)
        },
    }
}

/// The reader run over `s` from `st`: the visible text and the final state.
pub open spec fn sgr_run(s: Seq<char>, st: SgrState) -> (Seq<char>, SgrState)
    decreases s.len(),
{
    if s.len() == 0 {
        (Seq::empty(), st)
    } else {
        let (o, st1) = sgr_run(s.drop_last(), st);
        let (o2, st2) = sgr_step(st1, s.last());
        (o + o2, st2)
    }
}

/// `s` with every `ESC [ … m` sequence deleted. An `ESC` that opens no
/// sequence stays; a sequence left open at the end is deleted to the end.
pub open spec fn strip_sgr(s: Seq<char>) -> Seq<char> {
    let (o, st) = sgr_run(s, SgrState::Text);
    match st {
        SgrState::Escape => o.push(esc()),
        _ => o,
    }
}

/// Whether `s` holds no escape character.
pub open spec fn no_escape(s: Seq<char>) -> bool {
    forall|i: int| 0 <= i < s.len() ==> #[trigger] s[i] != esc()
}

/// Whether `e` is one complete sequence `ESC [ … m` with no other `m` inside.
pub open spec fn is_sgr(e: Seq<char>) -> bool {
    &&& e.len() >= 3
    &&& e[0] == esc()
    &&& e[1] == '['
    &&& e.last() == 'm'
    &&& forall|i: int| 2 <= i < e.len() - 1 ==> #[trigger] e[i] != 'm'
}

/// Running over a concatenation runs over each part in turn.
pub proof fn lemma_sgr_run_concat(a: Seq<char>, b: Seq<char>, st: SgrState)
    ensures
        sgr_run(a + b, st).0 == sgr_run(a, st).0 + sgr_run(b, sgr_run(a, st).1).0,
        sgr_run(a + b, st).1 == sgr_run(b, sgr_run(a, st).1).1,
    decreases b.len(),
{
    if b.len() == 0 {
        assert(a + b =~= a);
        assert(sgr_run(a, st).0 + Seq::<char>::empty() =~= sgr_run(a, st).0);
    } else {
        lemma_sgr_run_concat(a, b.drop_last(), st);
        assert((a + b).drop_last() =~= a + b.drop_last());
        assert((a + b).last() == b.last());
        let (oa, sa) = sgr_run(a, st);
        let (ob1, sb1) = sgr_run(b.drop_last(), sa);
        let (o2, s2) = sgr_step(sb1, b.last());
        assert(oa + ob1 + o2 =~= oa + (ob1 + o2));
    }
}

/// Text with no escape passes through the reader unchanged.
pub proof fn lemma_sgr_run_plain(b: Seq<char>)
    requires
        no_escape(b),
    ensures
        sgr_run(b, SgrState::Text) == (b, SgrState::Text),
    decreases b.len(),
{
    if b.len() == 0 {
        assert(sgr_run(b, SgrState::Text).0 =~= b);
    } else {
        assert(no_escape(b.drop_last())) by {
            assert forall|i: int| 0 <= i < b.drop_last().len() implies #[trigger] b.drop_last()[i]
                != esc() by {
                assert(b.drop_last()[i] == b[i]);
            }
        }
        lemma_sgr_run_plain(b.drop_last());
        assert(b[b.len() - 1] != esc());
        assert(b.drop_last() + seq![b.last()] =~= b);
    }
}

/// Inside a sequence, every prefix short of the closing `m` shows nothing.
proof fn lemma_sgr_run_open(e: Seq<char>, k: int)
    requires
        is_sgr(e),
        2 <= k < e.len(),
    ensures
        sgr_run(e.subrange(0, k), SgrState::Text) == (Seq::<char>::empty(), SgrState::Inside),
    decreases k,
{
    let p = e.subrange(0, k);
    let none = Seq::<char>::empty();
    assert(none + none =~= none);
    if k == 2 {
        let p1 = e.subrange(0, 1);
        assert(p.drop_last() =~= p1);
        assert(p1.drop_last() =~= none);
        assert(sgr_run(none, SgrState::Text) == (none, SgrState::Text));
        assert(p1.last() == esc());
        assert(sgr_step(SgrState::Text, esc()) == (none, SgrState::Escape));
        assert(sgr_run(p1, SgrState::Text) == (none, SgrState::Escape));
        assert(p.last() == '[');
        assert(sgr_step(SgrState::Escape, '[') == (none, SgrState::Inside));
    } else {
        lemma_sgr_run_open(e, k - 1);
        assert(p.drop_last() =~= e.subrange(0, k - 1));
        assert(p.last() == e[k - 1]);
        assert(e[k - 1] != 'm');
        assert(sgr_step(SgrState::Inside, e[k - 1]) == (none, SgrState::Inside));
    }
}

/// A complete sequence shows nothing and leaves the reader outside.
pub proof fn lemma_sgr_run_escape(e: Seq<char>)
    requires
        is_sgr(e),
    ensures
        sgr_run(e, SgrState::Text) == (Seq::<char>::empty(), SgrState::Text),
{
    lemma_sgr_run_open(e, e.len() - 1);
    assert(e.drop_last() =~= e.subrange(0, e.len() - 1));
    assert(Seq::<char>::empty() + Seq::<char>::empty() =~= Seq::<char>::empty());
}

/// Plain text after a prefix that ends outside a sequence is shown as is.
pub proof fn lemma_strip_then_plain(a: Seq<char>, b: Seq<char>)
    requires
        sgr_run(a, SgrState::Text).1 == SgrState::Text,
        no_escape(b),
    ensures
        sgr_run(a + b, SgrState::Text) == (sgr_run(a, SgrState::Text).0 + b, SgrState::Text),
{
    lemma_sgr_run_concat(a, b, SgrState::Text);
    lemma_sgr_run_plain(b);
}

/// A complete sequence after a prefix that ends outside one shows nothing.
pub proof fn lemma_strip_then_escape(a: Seq<char>, e: Seq<char>)
    requires
        sgr_run(a, SgrState::Text).1 == SgrState::Text,
        is_sgr(e),
    ensures
        sgr_run(a + e, SgrState::Text) == (sgr_run(a, SgrState::Text).0, SgrState::Text),
{
    lemma_sgr_run_concat(a, e, SgrState::Text);
    lemma_sgr_run_escape(e);
    assert(sgr_run(a, SgrState::Text).0 + Seq::<char>::empty() =~= sgr_run(a, SgrState::Text).0);
}

/// Concatenated text free of escapes stays free of them.
pub proof fn lemma_no_escape_concat(a: Seq<char>, b: Seq<char>)
    requires
        no_escape(a),
        no_escape(b),
    ensures
        no_escape(a + b),
{
    assert forall|i: int| 0 <= i < (a + b).len() implies #[trigger] (a + b)[i] != esc() by {
        if i < a.len() {
            assert((a + b)[i] == a[i]);
        } else {
            assert((a + b)[i] == b[i - a.len()]);
        }
    }
}

/// Escaping onto one line brings in no escape character.
pub proof fn lemma_one_line_no_escape(s: Seq<char>)
    requires
        no_escape(s),
    ensures
        no_escape(one_line_spec(s)),
    decreases s.len(),
{
    if s.len() > 0 {
        assert(no_escape(s.drop_last())) by {
            assert forall|i: int| 0 <= i < s.drop_last().len() implies #[trigger] s.drop_last()[i]
                != esc() by {
                assert(s.drop_last()[i] == s[i]);
            }
        }
        lemma_one_line_no_escape(s.drop_last());
        assert(s[s.len() - 1] != esc());
        assert(no_escape(escape_char(s.last())));
        lemma_no_escape_concat(one_line_spec(s.drop_last()), escape_char(s.last()));
    }
}

/// A decimal rendering is all digits, so it holds no escape.
pub proof fn lemma_decimal_no_escape(n: nat)
    ensures
        no_escape(decimal(n)),
    decreases n,
{
    let d = digit_char(n % 10);
    assert(d != esc()) by {
        assert(n % 10 < 10);
        assert((48 + n % 10) as u8 == 48 + n % 10);
    }
    if n >= 10 {
        lemma_decimal_no_escape(n / 10);
        lemma_no_escape_concat(decimal(n / 10), seq![d]);
        assert(decimal(n / 10).push(d) =~= decimal(n / 10) + seq![d]);
    } else {
        assert(no_escape(seq![d]));
    }
}

/// Comma-joined numbers hold no escape.
pub proof fn lemma_comma_numbers_no_escape(ns: Seq<usize>)
    ensures
        no_escape(comma_numbers(ns)),
    decreases ns.len(),
{
    if ns.len() == 1 {
        lemma_decimal_no_escape(ns[0] as nat);
    } else if ns.len() > 1 {
        lemma_comma_numbers_no_escape(ns.drop_last());
        lemma_decimal_no_escape(ns.last() as nat);
        assert(no_escape(seq![',']));
        lemma_no_escape_concat(comma_numbers(ns.drop_last()), seq![',']);
        lemma_no_escape_concat(comma_numbers(ns.drop_last()) + seq![','], decimal(ns.last() as nat));
    }
}

/// What the reader shows of a text that ends outside any sequence.
pub proof fn lemma_strip_settled(s: Seq<char>)
    requires
        sgr_run(s, SgrState::Text).1 == SgrState::Text,
    ensures
        strip_sgr(s) == sgr_run(s, SgrState::Text).0,
{
}

} // verus!
