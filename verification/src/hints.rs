//! Hints: advisory statements about a run rather than about an item in the
//! graph. A hint annotates output and never changes an exit code.

use vstd::prelude::*;
use crate::ansi::{
    esc, is_sgr, lemma_no_escape_concat, lemma_one_line_no_escape, lemma_sgr_run_escape,
    lemma_strip_settled, lemma_strip_then_escape, lemma_strip_then_plain, no_escape, sgr_run,
    strip_sgr, SgrState,
};
use crate::diagnostic::{ansi_bold, ansi_cyan, ansi_reset, opt_view};
use crate::text::{
    count_breaks, lemma_count_breaks_concat, lemma_one_line_is_single_line,
    lemma_single_line_concat, lemma_single_line_count, one_line_spec, owned, push_all, push_chars,
    push_one_line, single_line,
};

verus! {

/// One advisory statement about the run: a stable `name` a consumer matches
/// on, an optional `locus` it points at, the `message`, and the optional
/// `next` move that resolves it.
#[derive(Debug, Clone, PartialEq, Eq)]
pub struct Hint {
    pub name: String,
    pub locus: Option<String>,
    pub message: String,
    pub next: Option<String>,
}

/// The head line of a hint: `hint[name]: locus (message)`, or
/// `hint[name]: message` without a locus.
pub open spec fn hint_head_spec(h: Hint) -> Seq<char> {
    match h.locus {
        Some(l) => seq!['h', 'i', 'n', 't', '['] + h.name@ + seq![']', ':', ' '] + one_line_spec(l@)
            + seq![' ', '('] + one_line_spec(h.message@) + seq![')'],
        None => seq!['h', 'i', 'n', 't', '['] + h.name@ + seq![']', ':', ' '] + one_line_spec(
            h.message@,
        ),
    }
}

/// The plain rendering of a hint: its head, then `\n  next: …` when a next
/// move is set.
pub open spec fn hint_text_spec(h: Hint) -> Seq<char> {
    match h.next {
        Some(n) => hint_head_spec(h) + seq!['\n', ' ', ' ', 'n', 'e', 'x', 't', ':', ' ']
            + one_line_spec(n@),
        None => hint_head_spec(h),
    }
}

/// Blue.
pub open spec fn ansi_blue() -> Seq<char> {
    seq!['\x1b', '[', '1', ';', '3', '4', 'm']
}

/// The coloured head line of a hint.
pub open spec fn hint_color_head_spec(h: Hint) -> Seq<char> {
    let lead = ansi_blue() + seq!['h', 'i', 'n', 't'] + ansi_reset() + seq!['['] + ansi_bold() + h.name@
        + ansi_reset() + seq![']', ':', ' '];
    match h.locus {
        Some(l) => lead + ansi_cyan() + one_line_spec(l@) + ansi_reset() + seq![' ', '(']
            + one_line_spec(h.message@) + seq![')'],
        None => lead + one_line_spec(h.message@),
    }
}

/// The coloured rendering of a hint: the same facts as [`hint_text_spec`]
/// wrapped in escapes.
pub open spec fn hint_color_spec(h: Hint) -> Seq<char> {
    match h.next {
        Some(n) => hint_color_head_spec(h) + seq!['\n', ' ', ' '] + ansi_bold() + seq![
            'n',
            'e',
            'x',
            't',
        ] + ansi_reset() + seq![':', ' '] + one_line_spec(n@),
        None => hint_color_head_spec(h),
    }
}

/// One break, counted.
proof fn lemma_one_break()
    ensures
        count_breaks(seq!['\n']) == 1,
{
    assert(seq!['\n'].drop_last() =~= Seq::<char>::empty());
    assert(count_breaks(Seq::<char>::empty()) == 0);
    assert(seq!['\n'].last() == '\n');
}

/// A head line and a single-line tail joined by one newline hold one break.
proof fn lemma_head_newline_tail(head: Seq<char>, tail: Seq<char>)
    requires
        single_line(head),
        single_line(tail),
    ensures
        count_breaks(head + seq!['\n'] + tail) == 1,
{
    lemma_one_break();
    lemma_single_line_count(head);
    lemma_single_line_count(tail);
    lemma_count_breaks_concat(head, seq!['\n']);
    lemma_count_breaks_concat(head + seq!['\n'], tail);
}

/// The plain head line of a hint never breaks a line when its name does not.
proof fn lemma_hint_head_single_line(h: Hint)
    requires
        single_line(h.name@),
    ensures
        single_line(hint_head_spec(h)),
{
    lemma_one_line_is_single_line(h.message@);
    let m = one_line_spec(h.message@);
    let p = seq!['h', 'i', 'n', 't', '['];
    lemma_single_line_concat(p, h.name@);
    lemma_single_line_concat(p + h.name@, seq![']', ':', ' ']);
    let lead = p + h.name@ + seq![']', ':', ' '];
    match h.locus {
        Some(l) => {
            lemma_one_line_is_single_line(l@);
            let lo = one_line_spec(l@);
            lemma_single_line_concat(lead, lo);
            lemma_single_line_concat(lead + lo, seq![' ', '(']);
            lemma_single_line_concat(lead + lo + seq![' ', '('], m);
            lemma_single_line_concat(lead + lo + seq![' ', '('] + m, seq![')']);
        },
        None => {
            lemma_single_line_concat(lead, m);
        },
    }
}

/// The coloured head line of a hint never breaks a line when its name does not.
proof fn lemma_hint_color_head_single_line(h: Hint)
    requires
        single_line(h.name@),
    ensures
        single_line(hint_color_head_spec(h)),
{
    lemma_one_line_is_single_line(h.message@);
    let m = one_line_spec(h.message@);
    let cl0 = ansi_blue() + seq!['h', 'i', 'n', 't'];
    lemma_single_line_concat(ansi_blue(), seq!['h', 'i', 'n', 't']);
    lemma_single_line_concat(cl0, ansi_reset());
    lemma_single_line_concat(cl0 + ansi_reset(), seq!['[']);
    lemma_single_line_concat(cl0 + ansi_reset() + seq!['['], ansi_bold());
    let cl1 = cl0 + ansi_reset() + seq!['['] + ansi_bold();
    lemma_single_line_concat(cl1, h.name@);
    lemma_single_line_concat(cl1 + h.name@, ansi_reset());
    lemma_single_line_concat(cl1 + h.name@ + ansi_reset(), seq![']', ':', ' ']);
    let clead = cl1 + h.name@ + ansi_reset() + seq![']', ':', ' '];
    match h.locus {
        Some(l) => {
            lemma_one_line_is_single_line(l@);
            let lo = one_line_spec(l@);
            lemma_single_line_concat(clead, ansi_cyan());
            lemma_single_line_concat(clead + ansi_cyan(), lo);
            lemma_single_line_concat(clead + ansi_cyan() + lo, ansi_reset());
            lemma_single_line_concat(clead + ansi_cyan() + lo + ansi_reset(), seq![' ', '(']);
            lemma_single_line_concat(clead + ansi_cyan() + lo + ansi_reset() + seq![' ', '('], m);
            lemma_single_line_concat(
                clead + ansi_cyan() + lo + ansi_reset() + seq![' ', '('] + m,
                seq![')'],
            );
        },
        None => {
            lemma_single_line_concat(clead, m);
        },
    }
}

/// The coloured `next` line tail stays on one line.
proof fn lemma_color_next_tail(no: Seq<char>)
    requires
        single_line(no),
    ensures
        single_line(
            seq![' ', ' '] + ansi_bold() + seq!['n', 'e', 'x', 't'] + ansi_reset() + seq![':', ' ']
                + no,
        ),
{
    let a = seq![' ', ' '] + ansi_bold();
    lemma_single_line_concat(seq![' ', ' '], ansi_bold());
    lemma_single_line_concat(a, seq!['n', 'e', 'x', 't']);
    lemma_single_line_concat(a + seq!['n', 'e', 'x', 't'], ansi_reset());
    lemma_single_line_concat(a + seq!['n', 'e', 'x', 't'] + ansi_reset(), seq![':', ' ']);
    lemma_single_line_concat(a + seq!['n', 'e', 'x', 't'] + ansi_reset() + seq![':', ' '], no);
}

/// One hint is one line, plus one for its next move: with a name that holds no
/// line break, the locus, message and next move are escaped so that neither
/// rendering breaks anywhere else.
pub proof fn lemma_hint_is_one_line(h: Hint)
    requires
        single_line(h.name@),
    ensures
        count_breaks(hint_text_spec(h)) == if h.next is Some { 1nat } else { 0nat },
        count_breaks(hint_color_spec(h)) == if h.next is Some { 1nat } else { 0nat },
{
    lemma_hint_head_single_line(h);
    lemma_hint_color_head_single_line(h);
    let head = hint_head_spec(h);
    let chead = hint_color_head_spec(h);
    match h.next {
        Some(n) => {
            lemma_one_line_is_single_line(n@);
            let no = one_line_spec(n@);
            let t = seq![' ', ' ', 'n', 'e', 'x', 't', ':', ' '];
            lemma_single_line_concat(t, no);
            lemma_head_newline_tail(head, t + no);
            assert(hint_text_spec(h) =~= head + seq!['\n'] + (t + no));
            let ct = seq![' ', ' '] + ansi_bold() + seq!['n', 'e', 'x', 't'] + ansi_reset() + seq![
                ':',
                ' ',
            ] + no;
            lemma_color_next_tail(no);
            lemma_head_newline_tail(chead, ct);
            assert(hint_color_spec(h) =~= chead + seq!['\n'] + ct);
        },
        None => {
            lemma_single_line_count(head);
            lemma_single_line_count(chead);
        },
    }
}

/// Whether no field of a hint holds an escape character.
pub open spec fn hint_fields_plain(h: Hint) -> bool {
    &&& no_escape(h.name@)
    &&& no_escape(h.message@)
    &&& (h.locus matches Some(l) ==> no_escape(l@))
    &&& (h.next matches Some(n) ==> no_escape(n@))
}

/// The colour codes of a hint are complete escape sequences.
proof fn lemma_hint_escapes()
    ensures
        is_sgr(ansi_blue()),
        is_sgr(ansi_reset()),
        is_sgr(ansi_bold()),
        is_sgr(ansi_cyan()),
{
    assert(is_sgr(ansi_blue()));
    assert(is_sgr(ansi_reset()));
    assert(is_sgr(ansi_bold()));
    assert(is_sgr(ansi_cyan()));
}

/// The coloured rendering of a hint carries the same content as the plain
/// one: deleting its escape sequences gives the plain text back, which holds
/// none, while the coloured text opens with one. Stated for hints whose
/// fields hold no escape character of their own.
#[verifier::rlimit(60)]
#[verifier::spinoff_prover]
pub proof fn lemma_hint_color_strips_to_text(h: Hint)
    requires
        hint_fields_plain(h),
    ensures
        strip_sgr(hint_color_spec(h)) == hint_text_spec(h),
        no_escape(hint_text_spec(h)),
        hint_color_spec(h).len() >= 2,
        hint_color_spec(h)[0] == esc(),
        hint_color_spec(h)[1] == '[',
{
    lemma_hint_escapes();
    let none = Seq::<char>::empty();
    let w_hint = seq!['h', 'i', 'n', 't'];
    let w_open = seq!['['];
    let w_close = seq![']', ':', ' '];
    assert(no_escape(w_hint));
    assert(no_escape(w_open));
    assert(no_escape(w_close));
    lemma_one_line_no_escape(h.message@);
    let m = one_line_spec(h.message@);
    // The lead, piece by piece.
    let a0 = ansi_blue();
    lemma_sgr_run_escape(a0);
    let a1 = a0 + w_hint;
    lemma_strip_then_plain(a0, w_hint);
    let a2 = a1 + ansi_reset();
    lemma_strip_then_escape(a1, ansi_reset());
    let a3 = a2 + w_open;
    lemma_strip_then_plain(a2, w_open);
    let a4 = a3 + ansi_bold();
    lemma_strip_then_escape(a3, ansi_bold());
    let a5 = a4 + h.name@;
    lemma_strip_then_plain(a4, h.name@);
    let a6 = a5 + ansi_reset();
    lemma_strip_then_escape(a5, ansi_reset());
    let lead = a6 + w_close;
    lemma_strip_then_plain(a6, w_close);
    let plain_lead = none + w_hint + w_open + h.name@ + w_close;
    assert(sgr_run(lead, SgrState::Text).0 == plain_lead);
    assert(plain_lead =~= seq!['h', 'i', 'n', 't', '['] + h.name@ + seq![']', ':', ' ']);
    lemma_no_escape_concat(w_hint, w_open);
    lemma_no_escape_concat(w_hint + w_open, h.name@);
    lemma_no_escape_concat(w_hint + w_open + h.name@, w_close);
    assert(plain_lead =~= w_hint + w_open + h.name@ + w_close);
    let chead = hint_color_head_spec(h);
    let head = hint_head_spec(h);
    match h.locus {
        Some(l) => {
            lemma_one_line_no_escape(l@);
            let lo = one_line_spec(l@);
            let w_paren = seq![' ', '('];
            let w_end = seq![')'];
            assert(no_escape(w_paren));
            assert(no_escape(w_end));
            let b1 = lead + ansi_cyan();
            lemma_strip_then_escape(lead, ansi_cyan());
            let b2 = b1 + lo;
            lemma_strip_then_plain(b1, lo);
            let b3 = b2 + ansi_reset();
            lemma_strip_then_escape(b2, ansi_reset());
            let b4 = b3 + w_paren;
            lemma_strip_then_plain(b3, w_paren);
            let b5 = b4 + m;
            lemma_strip_then_plain(b4, m);
            let b6 = b5 + w_end;
            lemma_strip_then_plain(b5, w_end);
            assert(b6 == chead);
            assert(sgr_run(chead, SgrState::Text).0 =~= head);
            lemma_no_escape_concat(plain_lead, lo);
            lemma_no_escape_concat(plain_lead + lo, w_paren);
            lemma_no_escape_concat(plain_lead + lo + w_paren, m);
            lemma_no_escape_concat(plain_lead + lo + w_paren + m, w_end);
            assert(head =~= plain_lead + lo + w_paren + m + w_end);
        },
        None => {
            lemma_strip_then_plain(lead, m);
            assert(lead + m == chead);
            assert(sgr_run(chead, SgrState::Text).0 =~= head);
            lemma_no_escape_concat(plain_lead, m);
            assert(head =~= plain_lead + m);
        },
    }
    assert(chead[0] == esc()) by {
        assert(chead[0] == a0[0]);
    }
    assert(chead[1] == '[') by {
        assert(chead[1] == a0[1]);
    }
    match h.next {
        Some(n) => {
            lemma_one_line_no_escape(n@);
            let no = one_line_spec(n@);
            let w_nl = seq!['\n', ' ', ' '];
            let w_next = seq!['n', 'e', 'x', 't'];
            let w_colon = seq![':', ' '];
            assert(no_escape(w_nl));
            assert(no_escape(w_next));
            assert(no_escape(w_colon));
            let c1 = chead + w_nl;
            lemma_strip_then_plain(chead, w_nl);
            let c2 = c1 + ansi_bold();
            lemma_strip_then_escape(c1, ansi_bold());
            let c3 = c2 + w_next;
            lemma_strip_then_plain(c2, w_next);
            let c4 = c3 + ansi_reset();
            lemma_strip_then_escape(c3, ansi_reset());
            let c5 = c4 + w_colon;
            lemma_strip_then_plain(c4, w_colon);
            let c6 = c5 + no;
            lemma_strip_then_plain(c5, no);
            assert(c6 == hint_color_spec(h));
            assert(sgr_run(c6, SgrState::Text).0 =~= hint_text_spec(h));
            lemma_strip_settled(c6);
            lemma_no_escape_concat(w_nl, w_next);
            lemma_no_escape_concat(w_nl + w_next, w_colon);
            lemma_no_escape_concat(head, w_nl + w_next + w_colon);
            lemma_no_escape_concat(head + (w_nl + w_next + w_colon), no);
            assert(hint_text_spec(h) =~= head + (w_nl + w_next + w_colon) + no);
            assert(hint_color_spec(h)[0] == chead[0]);
            assert(hint_color_spec(h)[1] == chead[1]);
        },
        None => {
            lemma_strip_settled(chead);
        },
    }
}

impl Hint {
    /// A hint with no locus and no next move.
    pub fn new(name: &str, message: &str) -> (h: Hint)
        ensures
            h.name@ == name@,
            h.locus is None,
            h.message@ == message@,
            h.next is None,
    {
        Hint { name: owned(name), locus: None, message: owned(message), next: None }
    }

    /// Attach what the hint points at.
    pub fn at(self, locus: &str) -> (h: Hint)
        ensures
            opt_view(h.locus) == Some(locus@),
            h.name == self.name,
            h.message == self.message,
            h.next == self.next,
    {
        let mut h = self;
        h.locus = Some(owned(locus));
        h
    }

    /// Attach the resolving move, rendered as an indented line beneath the hint.
    pub fn with_next(self, next: &str) -> (h: Hint)
        ensures
            opt_view(h.next) == Some(next@),
            h.name == self.name,
            h.message == self.message,
            h.locus == self.locus,
    {
        let mut h = self;
        h.next = Some(owned(next));
        h
    }

    /// `hint[name]: locus (message)` with the next move indented beneath it.
    pub fn format_text(&self) -> (out: String)
        ensures
            out@ == hint_text_spec(*self),
    {
        let mut out = String::new();
        push_chars(&mut out, &['h', 'i', 'n', 't', '[']);
        push_all(&mut out, self.name.as_str());
        push_chars(&mut out, &[']', ':', ' ']);
        let ghost lead = out@;
        match &self.locus {
            Some(l) => {
                push_one_line(&mut out, l.as_str());
                push_chars(&mut out, &[' ', '(']);
                push_one_line(&mut out, self.message.as_str());
                out.push(')');
            },
            None => {
                push_one_line(&mut out, self.message.as_str());
            },
        }
        assert(out@ =~= hint_head_spec(*self));
        match &self.next {
            Some(n) => {
                push_chars(&mut out, &['\n', ' ', ' ', 'n', 'e', 'x', 't', ':', ' ']);
                push_one_line(&mut out, n.as_str());
            },
            None => {},
        }
        assert(out@ =~= hint_text_spec(*self));
        out
    }

    /// The coloured rendering.
    pub fn format_text_color(&self) -> (out: String)
        ensures
            out@ == hint_color_spec(*self),
    {
        let mut out = String::new();
        push_chars(&mut out, &['\x1b', '[', '1', ';', '3', '4', 'm', 'h', 'i', 'n', 't', '\x1b', '[', '0', 'm', '[', '\x1b', '[', '1', 'm']);
        push_all(&mut out, self.name.as_str());
        push_chars(&mut out, &['\x1b', '[', '0', 'm', ']', ':', ' ']);
        let ghost lead = out@;
        assert(lead =~= ansi_blue() + seq!['h', 'i', 'n', 't'] + ansi_reset() + seq!['['] + ansi_bold()
            + self.name@ + ansi_reset() + seq![']', ':', ' ']);
        match &self.locus {
            Some(l) => {
                push_chars(&mut out, &['\x1b', '[', '3', '6', 'm']);
                push_one_line(&mut out, l.as_str());
                push_chars(&mut out, &['\x1b', '[', '0', 'm', ' ', '(']);
                let ghost mid = out@;
                assert(mid =~= lead + ansi_cyan() + one_line_spec(l@) + ansi_reset() + seq![' ', '(']);
                push_one_line(&mut out, self.message.as_str());
                out.push(')');
            },
            None => {
                push_one_line(&mut out, self.message.as_str());
            },
        }
        let ghost head = out@;
        assert(head =~= hint_color_head_spec(*self));
        match &self.next {
            Some(n) => {
                push_chars(&mut out, &['\n', ' ', ' ', '\x1b', '[', '1', 'm', 'n', 'e', 'x', 't', '\x1b', '[', '0', 'm', ':', ' ']);
                let ghost mid = out@;
                assert(mid =~= head + seq!['\n', ' ', ' '] + ansi_bold() + seq!['n', 'e', 'x', 't']
                    + ansi_reset() + seq![':', ' ']);
                push_one_line(&mut out, n.as_str());
            },
            None => {},
        }
        assert(out@ =~= hint_color_spec(*self));
        out
    }
}

/// The hints raised over one run, in the order they were raised, and whether
/// they already reached the reader inside a result document.
#[derive(Debug, Clone)]
pub struct Hints {
    items: Vec<Hint>,
    delivered: bool,
}

impl Hints {
    /// The raised hints, in order.
    pub closed spec fn items_spec(&self) -> Seq<Hint> {
        self.items@
    }

    /// Whether the hints were delivered.
    pub closed spec fn delivered_spec(&self) -> bool {
        self.delivered
    }

    /// Raise one more hint.
    pub fn push(&mut self, hint: Hint)
        ensures
            final(self).items_spec() == old(self).items_spec().push(hint),
            final(self).delivered_spec() == old(self).delivered_spec(),
    {
        self.items.push(hint);
    }

    /// Raise several hints, in order.
    pub fn extend(&mut self, hints: Vec<Hint>)
        ensures
            final(self).items_spec() == old(self).items_spec() + hints@,
            final(self).delivered_spec() == old(self).delivered_spec(),
    {
        let mut hints = hints;
        self.items.append(&mut hints);
    }

    /// Whether no hint was raised.
    pub fn is_empty(&self) -> (r: bool)
        ensures
            r == (self.items_spec().len() == 0),
    {
        self.items.len() == 0
    }

    /// The raised hints, in order.
    pub fn as_slice(&self) -> (r: &[Hint])
        ensures
            r@ == self.items_spec(),
    {
        self.items.as_slice()
    }

    /// Whether these hints already reached the reader inside a result document.
    pub fn delivered(&self) -> (r: bool)
        ensures
            r == self.delivered_spec(),
    {
        self.delivered
    }

    /// Record that a result document carried them.
    pub fn mark_delivered(&mut self)
        ensures
            final(self).delivered_spec(),
            final(self).items_spec() == old(self).items_spec(),
    {
        self.delivered = true;
    }
}

impl Default for Hints {
    /// No hints, not delivered.
    fn default() -> (h: Hints)
        ensures
            h.items_spec() == Seq::<Hint>::empty(),
            !h.delivered_spec(),
    {
        Hints { items: Vec::new(), delivered: false }
    }
}

} // verus!
