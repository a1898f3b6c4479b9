//! The command-line vocabulary: commands, output choices, and how far
//! `impact` walks.

use vstd::prelude::*;
use crate::text::{chars_of, owned, push_all};

verus! {

/// Output format of every command.
#[derive(Debug, Clone, Copy, PartialEq, Eq, Structural)]
pub enum OutputFormat {
    Text,
    Json,
}

/// Which way `impact` walks from its seeds.
#[derive(Debug, Clone, Copy, PartialEq, Eq, Structural)]
pub enum Direction {
    Inbound,
    Outbound,
    Both,
}

/// When to colourize output.
#[derive(Debug, Clone, Copy, PartialEq, Eq, Structural)]
pub enum ColorChoice {
    Auto,
    Always,
    Never,
}

/// How far `impact` walks. One hop by default: the files that name the seed
/// directly. The full reachable set has to be requested by name.
#[derive(Debug, Clone, Copy, PartialEq, Eq, Structural)]
pub enum Depth {
    All,
    Hops(usize),
}

/// The subcommands.
#[derive(Debug, Clone)]
pub enum Commands {
    /// Create a config file.
    Init,
    /// Inspect the configuration (`show_ignores`: the ignore sources used
    /// for discovery).
    Config { show_ignores: bool },
    /// Snapshot the current state; with paths, only those nodes and their
    /// outbound edges.
    Lock { paths: Vec<String> },
    /// Render the composed graph (`raw` for the unmerged set).
    Graph { raw: bool },
    /// List what transitively depends on the given files.
    Impact { paths: Vec<String>, depth: Depth, direction: Direction },
    /// Project nodes and their metadata.
    Nodes { selectors: Vec<String>, namespaces: Vec<String>, fields: Vec<String> },
    /// Project edges, matched on source.
    Edges { selectors: Vec<String>, namespaces: Vec<String>, fields: Vec<String> },
    /// Check the composed graph against the lockfile.
    Check,
    /// Describe the installed binary: its commands and their contracts.
    Guide,
}

/// A parsed command line.
#[derive(Debug, Clone)]
pub struct Cli {
    pub command: Commands,
    /// Run as if started in this directory.
    pub directory: Option<String>,
    pub format: OutputFormat,
    pub color: ColorChoice,
}

/// The value of a run of ASCII decimal digits.
pub open spec fn digits_value(s: Seq<char>) -> int
    decreases s.len(),
{
    if s.len() == 0 {
        0
    } else {
        digits_value(s.drop_last()) * 10 + (s.last() as int - 48)
    }
}

/// Whether every character of `s` is an ASCII decimal digit.
pub open spec fn all_digits(s: Seq<char>) -> bool {
    forall|i: int| 0 <= i < s.len() ==> '0' <= #[trigger] s[i] <= '9'
}

/// What `usize::from_str` accepts: an optional `+`, then one or more ASCII
/// digits whose value fits in a `usize`.
pub open spec fn usize_parse_spec(s: Seq<char>) -> Option<usize> {
    let body = if s.len() > 0 && s[0] == '+' {
        s.drop_first()
    } else {
        s
    };
    if body.len() > 0 && all_digits(body) && digits_value(body) <= usize::MAX {
        Some(digits_value(body) as usize)
    } else {
        None
    }
}

/// A run of digits is worth at least any of its prefixes.
proof fn lemma_digits_prefix(s: Seq<char>, k: int)
    requires
        all_digits(s),
        0 <= k <= s.len(),
    ensures
        0 <= digits_value(s.subrange(0, k)) <= digits_value(s),
    decreases s.len(),
{
    if s.len() > 0 {
        let p = s.drop_last();
        assert(all_digits(p)) by {
            assert forall|i: int| 0 <= i < p.len() implies '0' <= #[trigger] p[i] <= '9' by {
                assert(p[i] == s[i]);
            }
        }
        assert('0' <= s[s.len() - 1] <= '9');
        if k == s.len() {
            assert(s.subrange(0, k) =~= s);
            lemma_digits_prefix(p, p.len() as int);
            assert(p.subrange(0, p.len() as int) =~= p);
        } else {
            lemma_digits_prefix(p, k);
            assert(p.subrange(0, k) =~= s.subrange(0, k));
            lemma_digits_prefix(p, p.len() as int);
            assert(p.subrange(0, p.len() as int) =~= p);
        }
    } else {
        assert(s.subrange(0, k) =~= s);
    }
}

/// The value of an optional `+` followed by ASCII digits, as
/// `str::parse::<usize>` reads it: `None` for anything else (an empty string,
/// a sign alone, a `-`, whitespace, any other character) and for a value above
/// `usize::MAX`.
fn parse_usize(s: &str) -> (r: Option<usize>)
    ensures
        r == usize_parse_spec(s@),
{
    let cs = chars_of(s);
    let start: usize = if cs.len() > 0 && cs[0] == '+' { 1 } else { 0 };
    let ghost body = if s@.len() > 0 && s@[0] == '+' { s@.drop_first() } else { s@ };
    assert(body =~= cs@.subrange(start as int, cs@.len() as int));
    if start >= cs.len() {
        return None;
    }
    let mut v: usize = 0;
    let mut i: usize = start;
    while i < cs.len()
        invariant
            start <= i <= cs.len(),
            start < cs.len(),
            cs@ == s@,
            body == cs@.subrange(start as int, cs@.len() as int),
            body == (if s@.len() > 0 && s@[0] == '+' { s@.drop_first() } else { s@ }),
            all_digits(cs@.subrange(start as int, i as int)),
            v == digits_value(cs@.subrange(start as int, i as int)),
        decreases cs.len() - i,
    {
        let ghost pre = cs@.subrange(start as int, i as int);
        let ghost next = cs@.subrange(start as int, i + 1);
        assert(next.drop_last() =~= pre);
        let c = cs[i];
        if c < '0' || c > '9' {
            assert(body[i - start] == c);
            assert(!all_digits(body));
            return None;
        }
        assert(all_digits(next)) by {
            assert forall|q: int| 0 <= q < next.len() implies '0' <= #[trigger] next[q] <= '9' by {
                if q < pre.len() {
                    assert(next[q] == pre[q]);
                }
            }
        }
        let d: usize = ((c as u32) - 48) as usize;
        assert(d == next.last() as int - 48);
        let grown = if v <= (usize::MAX - d) / 10 { Some(v * 10 + d) } else { None };
        match grown {
            Some(w) => {
                v = w;
            },
            None => {
                proof {
                    assert(digits_value(next) > usize::MAX) by (nonlinear_arith)
                        requires
                            digits_value(next) == v * 10 + d,
                            v > (usize::MAX - d) / 10,
                            d <= 9,
                    ;
                    if all_digits(body) {
                        lemma_digits_prefix(body, (i + 1 - start) as int);
                        assert(body.subrange(0, (i + 1 - start) as int) =~= next);
                    }
                }
                return None;
            },
        }
        i = i + 1;
    }
    assert(cs@.subrange(start as int, i as int) =~= body);
    Some(v)
}

/// ASCII lowercase of one character; every other character is unchanged.
pub open spec fn ascii_lower(c: char) -> char {
    if 'A' <= c <= 'Z' {
        ((c as u32) + 32) as char
    } else {
        c
    }
}

/// Whether `s` spells `all` in any ASCII case.
pub open spec fn is_all_spec(s: Seq<char>) -> bool {
    s.len() == 3 && ascii_lower(s[0]) == 'a' && ascii_lower(s[1]) == 'l' && ascii_lower(s[2])
        == 'l'
}

/// The message refusing depth 0.
pub open spec fn zero_depth_message() -> Seq<char> {
    "depth 0 would traverse nothing; use `--depth all` for the full reachable set"@
}

/// The message refusing anything that is neither a number nor `all`.
pub open spec fn invalid_depth_message(s: Seq<char>) -> Seq<char> {
    "invalid depth `"@ + s + "` (expected a positive number or `all`)"@
}

/// What `Depth::parse` yields for `s`.
pub open spec fn depth_parse_spec(s: Seq<char>) -> Result<Depth, Seq<char>> {
    if is_all_spec(s) {
        Ok(Depth::All)
    } else {
        match usize_parse_spec(s) {
            Some(n) => if n == 0 {
                Err(zero_depth_message())
            } else {
                Ok(Depth::Hops(n))
            },
            None => Err(invalid_depth_message(s)),
        }
    }
}

fn lower_ascii(c: char) -> (r: char)
    ensures
        r == ascii_lower(c),
{
    if 'A' <= c && c <= 'Z' {
        let b: u8 = (c as u32) as u8;
        let l: u8 = b + 32;
        l as char
    } else {
        c
    }
}

impl Depth {
    /// The traversal bound: `None` is unbounded.
    pub fn max_hops(self) -> (r: Option<usize>)
        ensures
            r == match self {
                Depth::All => None,
                Depth::Hops(n) => Some(n),
            },
    {
        match self {
            Depth::All => None,
            Depth::Hops(n) => Some(n),
        }
    }

    /// Read a `--depth` value: `all` in any ASCII case, or a positive number.
    /// `0` is refused with a pointer to `all`, since it reads as "no traversal".
    pub fn parse(s: &str) -> (r: Result<Depth, String>)
        ensures
            match (r, depth_parse_spec(s@)) {
                (Ok(d), Ok(e)) => d == e,
                (Err(m), Err(e)) => m@ == e,
                _ => false,
            },
    {
        let cs = crate::text::chars_of(s);
        if cs.len() == 3 && lower_ascii(cs[0]) == 'a' && lower_ascii(cs[1]) == 'l' && lower_ascii(
            cs[2],
        ) == 'l' {
            return Ok(Depth::All);
        }
        match parse_usize(s) {
            Some(n) => {
                if n == 0 {
                    Err(owned(
                        "depth 0 would traverse nothing; use `--depth all` for the full reachable set",
                    ))
                } else {
                    Ok(Depth::Hops(n))
                }
            },
            None => {
                let mut m = owned("invalid depth `");
                push_all(&mut m, s);
                push_all(&mut m, "` (expected a positive number or `all`)");
                Err(m)
            },
        }
    }
}

impl std::str::FromStr for Depth {
    type Err = String;

    fn from_str(s: &str) -> (r: Result<Depth, String>)
        ensures
            match (r, depth_parse_spec(s@)) {
                (Ok(d), Ok(e)) => d == e,
                (Err(m), Err(e)) => m@ == e,
                _ => false,
            },
    {
        Depth::parse(s)
    }
}

} // verus!
