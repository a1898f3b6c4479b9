//! The rules `check` applies: which findings the graph, the lock and what
//! changed since it give rise to, and how the configured `[rules]` report
//! them. Every rule reports at `warn` unless configured otherwise; a rule at
//! `off` reports nothing, and a subject its ignore globs (or
//! `[rules].ignore`) match is not reported.

use vstd::prelude::*;
use crate::analyses::change_propagation::{ChangePropagationResult, DirectChange, TransitiveStale};
use crate::config::{Config, RuleSeverity};
use crate::diagnostic::{opt_view, Finding};
use crate::graph::{has_path, lemma_index_unique, Edge, Graph};
use crate::lockfile::{copy_opt, Lockfile, LockfileNode};
use crate::text::{copy_strings, owned, views};

verus! {

/// A finding as values: name, severity, subject, target, lines, graphs,
/// message, cause.
pub type FindingView = (
    Seq<char>,
    RuleSeverity,
    Seq<char>,
    Option<Seq<char>>,
    Seq<usize>,
    Seq<Seq<char>>,
    Seq<char>,
    Option<Seq<char>>,
);

/// A finding as values.
pub open spec fn finding_view(f: Finding) -> FindingView {
    (f.name@, f.severity, f.subject@, opt_view(f.target), f.lines@, views(f.graphs@), f.message@, opt_view(f.cause))
}

/// A list of findings as values.
pub open spec fn fviews(fs: Seq<Finding>) -> Seq<FindingView> {
    fs.map_values(|f: Finding| finding_view(f))
}

/// A finding of `name` at `warn`, with no cause.
pub open spec fn warn_view(
    name: Seq<char>,
    subject: Seq<char>,
    target: Option<Seq<char>>,
    lines: Seq<usize>,
    graphs: Seq<Seq<char>>,
    message: Seq<char>,
) -> FindingView {
    (name, RuleSeverity::Warn, subject, target, lines, graphs, message, None)
}

// ── What each rule finds ───────────────────────────────────────

/// `no-baseline`: there is no lock to compare with, or it records nothing.
pub open spec fn baseline_findings(lock: Option<Lockfile>) -> Seq<FindingView> {
    match lock {
        None => seq![
            warn_view(
                "no-baseline"@,
                ".drft/lock.toml"@,
                None,
                seq![],
                seq![],
                "no lock file yet, so drift cannot be measured"@,
            ),
        ],
        Some(l) => if l.nodes@.len() == 0 {
            seq![
                warn_view(
                    "no-baseline"@,
                    ".drft/lock.toml"@,
                    None,
                    seq![],
                    seq![],
                    "the lock file records no nodes, so drift cannot be measured"@,
                ),
            ]
        } else {
            seq![]
        },
    }
}

/// `stale-node`: each directly changed node that is still in the graph, with
/// the reason it changed.
pub open spec fn stale_node_findings(g: Graph, dc: Seq<DirectChange>) -> Seq<FindingView>
    decreases dc.len(),
{
    if dc.len() == 0 {
        seq![]
    } else {
        let prev = stale_node_findings(g, dc.drop_last());
        let c = dc.last();
        if g.node_at(c.node@) is Some {
            prev.push(warn_view("stale-node"@, c.node@, None, seq![], seq!["@fs"@], c.reason@))
        } else {
            prev
        }
    }
}

/// The lines of every edge from `s` to `t`, in edge order.
pub open spec fn link_lines(es: Seq<Edge>, s: Seq<char>, t: Seq<char>) -> Seq<usize>
    decreases es.len(),
{
    if es.len() == 0 {
        seq![]
    } else {
        let e = es.last();
        link_lines(es.drop_last(), s, t) + if e.source@ == s && e.target@ == t {
            e.lines@
        } else {
            seq![]
        }
    }
}

/// `stale-edge`: each node made stale through a link to a changed node, at
/// the lines of its links to that node.
pub open spec fn stale_edge_findings(es: Seq<Edge>, ts: Seq<TransitiveStale>) -> Seq<FindingView>
    decreases ts.len(),
{
    if ts.len() == 0 {
        seq![]
    } else {
        let t = ts.last();
        stale_edge_findings(es, ts.drop_last()).push(
            warn_view(
                "stale-edge"@,
                t.node@,
                Some(t.via@),
                link_lines(es, t.node@, t.via@),
                seq![],
                "links a node that changed since it was locked"@,
            ),
        )
    }
}

/// Whether an edge points at an included node that nothing defines.
pub open spec fn unresolved(g: Graph, e: Edge) -> bool {
    g.node_at(e.target@) matches Some(n) && n.included && n.node_type is None
}

/// `unresolved-edge`: each of the first `m` edges whose target is an included
/// node with no type.
pub open spec fn unresolved_findings(g: Graph, m: int) -> Seq<FindingView>
    decreases m,
{
    if m <= 0 {
        seq![]
    } else {
        let prev = unresolved_findings(g, m - 1);
        let e = g.edges@[m - 1];
        if unresolved(g, e) {
            prev.push(warn_view("unresolved-edge"@, e.source@, Some(e.target@), e.lines@, seq![e.parser@], "no defining node"@))
        } else {
            prev
        }
    }
}

/// `removed-node`: each locked path that is no longer a node of the graph.
pub open spec fn removed_findings(g: Graph, es: Seq<(String, LockfileNode)>) -> Seq<FindingView>
    decreases es.len(),
{
    if es.len() == 0 {
        seq![]
    } else {
        let prev = removed_findings(g, es.drop_last());
        let p = es.last().0@;
        if g.node_at(p) is None {
            prev.push(warn_view("removed-node"@, p, None, seq![], seq!["@fs"@], "was locked but is no longer in the graph"@))
        } else {
            prev
        }
    }
}

/// Whether some edge leaves or enters `p`.
pub open spec fn touched(es: Seq<Edge>, p: Seq<char>) -> bool {
    exists|k: int| #![trigger es[k]] 0 <= k < es.len() && (es[k].source@ == p || es[k].target@ == p)
}

/// `detached-node`: each of the first `m` nodes that is included and that no
/// edge leaves or enters.
pub open spec fn detached_findings(g: Graph, m: int) -> Seq<FindingView>
    decreases m,
{
    if m <= 0 {
        seq![]
    } else {
        let prev = detached_findings(g, m - 1);
        let n = g.nodes@[m - 1];
        if n.included && !touched(g.edges@, n.path@) {
            prev.push(warn_view("detached-node"@, n.path@, None, seq![], seq!["@fs"@], "no connections"@))
        } else {
            prev
        }
    }
}

/// Every finding the rules give rise to, in report order, before the
/// configuration is applied: the baseline, stale nodes, stale edges,
/// unresolved edges, removed nodes, detached nodes, then the findings raised
/// while building the graph.
pub open spec fn candidate_findings(
    g: Graph,
    p: ChangePropagationResult,
    lock: Option<Lockfile>,
    build: Seq<Finding>,
) -> Seq<FindingView> {
    baseline_findings(lock) + stale_node_findings(g, p.directly_changed@) + stale_edge_findings(
        g.edges@,
        p.transitively_stale@,
    ) + unresolved_findings(g, g.edges@.len() as int) + removed_findings(
        g,
        match lock {
            Some(l) => l.nodes@,
            None => seq![],
        },
    ) + detached_findings(g, g.nodes@.len() as int) + fviews(build)
}

// ── How the configuration reports them ─────────────────────────

/// One finding reported under the configuration after `acc`: dropped when
/// its rule is `off` or its subject is ignored for the rule, else at the
/// rule's configured severity.
pub open spec fn report_one(config: Config, acc: Seq<FindingView>, c: FindingView) -> Seq<FindingView> {
    let sev = config.severity_spec(c.0);
    if sev == RuleSeverity::Off || config.ignored_spec(c.0, c.2) {
        acc
    } else {
        acc.push((c.0, sev, c.2, c.3, c.4, c.5, c.6, c.7))
    }
}

/// Findings reported under the configuration, in order.
pub open spec fn reported(config: Config, cs: Seq<FindingView>) -> Seq<FindingView>
    decreases cs.len(),
{
    if cs.len() == 0 {
        seq![]
    } else {
        report_one(config, reported(config, cs.drop_last()), cs.last())
    }
}

/// Whether a finding survives the configuration.
pub open spec fn kept(config: Config, c: FindingView) -> bool {
    config.severity_spec(c.0) != RuleSeverity::Off && !config.ignored_spec(c.0, c.2)
}

/// A finding at its rule's configured severity.
pub open spec fn at_configured(config: Config, c: FindingView) -> FindingView {
    (c.0, config.severity_spec(c.0), c.2, c.3, c.4, c.5, c.6, c.7)
}

/// The configuration is a selection: every reported finding is a kept
/// finding at its rule's configured severity (so never `off`), and every
/// kept finding is reported, in order.
pub proof fn lemma_reported_selects(config: Config, cs: Seq<FindingView>)
    ensures
        forall|k: int|
            0 <= k < reported(config, cs).len() ==> exists|j: int|
                0 <= j < cs.len() && kept(config, #[trigger] cs[j]) && #[trigger] reported(config, cs)[k]
                    == at_configured(config, cs[j]),
        forall|j: int|
            0 <= j < cs.len() && kept(config, #[trigger] cs[j]) ==> reported(config, cs).contains(
                at_configured(config, cs[j]),
            ),
        forall|k: int|
            0 <= k < reported(config, cs).len() ==> (#[trigger] reported(config, cs)[k]).1
                == config.severity_spec(reported(config, cs)[k].0) && reported(config, cs)[k].1
                != RuleSeverity::Off,
    decreases cs.len(),
{
    if cs.len() > 0 {
        let p = cs.drop_last();
        lemma_reported_selects(config, p);
        let prev = reported(config, p);
        let r = reported(config, cs);
        let c = cs.last();
        let last = cs.len() - 1;
        assert(cs[last] == c);
        if kept(config, c) {
            assert(r == prev.push(at_configured(config, c)));
        } else {
            assert(r == prev);
        }
        assert forall|k: int| 0 <= k < r.len() implies exists|j: int|
            0 <= j < cs.len() && kept(config, #[trigger] cs[j]) && #[trigger] r[k] == at_configured(config, cs[j]) by {
            if k < prev.len() {
                assert(r[k] == prev[k]);
                let j = choose|j: int|
                    0 <= j < p.len() && kept(config, #[trigger] p[j]) && #[trigger] prev[k] == at_configured(config, p[j]);
                assert(cs[j] == p[j]);
            } else {
                assert(cs[last] == c);
            }
        }
        assert forall|j: int| 0 <= j < cs.len() && kept(config, #[trigger] cs[j]) implies r.contains(
            at_configured(config, cs[j]),
        ) by {
            if j < p.len() {
                assert(cs[j] == p[j]);
                assert(kept(config, p[j]));
                let k = choose|k: int| 0 <= k < prev.len() && prev[k] == at_configured(config, p[j]);
                assert(r[k] == prev[k]);
            } else {
                assert(r[prev.len() as int] == at_configured(config, c));
            }
        }
        assert forall|k: int| 0 <= k < r.len() implies (#[trigger] r[k]).1 == config.severity_spec(r[k].0)
            && r[k].1 != RuleSeverity::Off by {
            if k < prev.len() {
                assert(r[k] == prev[k]);
            }
        }
    }
}

/// Some reported finding is an error exactly when some finding the
/// configuration keeps belongs to a rule configured as `error`: the status
/// `check` exits with over the reported findings is the violations status
/// exactly then.
pub proof fn lemma_error_gate(config: Config, cs: Seq<FindingView>)
    ensures
        (exists|k: int| 0 <= k < reported(config, cs).len() && (#[trigger] reported(config, cs)[k]).1 == RuleSeverity::Error)
            <==> (exists|j: int| 0 <= j < cs.len() && kept(config, #[trigger] cs[j]) && config.severity_spec(cs[j].0)
            == RuleSeverity::Error),
{
    lemma_reported_selects(config, cs);
    let r = reported(config, cs);
    if exists|k: int| 0 <= k < r.len() && (#[trigger] r[k]).1 == RuleSeverity::Error {
        let k = choose|k: int| 0 <= k < r.len() && (#[trigger] r[k]).1 == RuleSeverity::Error;
        let j = choose|j: int| 0 <= j < cs.len() && kept(config, #[trigger] cs[j]) && #[trigger] r[k] == at_configured(config, cs[j]);
        assert(kept(config, cs[j]) && config.severity_spec(cs[j].0) == RuleSeverity::Error);
    }
    if exists|j: int| 0 <= j < cs.len() && kept(config, #[trigger] cs[j]) && config.severity_spec(cs[j].0) == RuleSeverity::Error {
        let j = choose|j: int| 0 <= j < cs.len() && kept(config, #[trigger] cs[j]) && config.severity_spec(cs[j].0)
            == RuleSeverity::Error;
        assert(r.contains(at_configured(config, cs[j])));
        let k = choose|k: int| 0 <= k < r.len() && r[k] == at_configured(config, cs[j]);
        assert(r[k].1 == RuleSeverity::Error);
    }
}

proof fn lemma_reported_push(config: Config, cs: Seq<FindingView>, c: FindingView)
    ensures
        reported(config, cs.push(c)) == report_one(config, reported(config, cs), c),
{
    assert(cs.push(c).drop_last() =~= cs);
}

/// Report a finding under the configuration.
fn report(out: &mut Vec<Finding>, f: Finding, config: &Config)
    ensures
        fviews(final(out)@) == report_one(*config, fviews(old(out)@), finding_view(f)),
{
    let sev = config.severity_of_rule(f.name.as_str());
    let off = match sev {
        RuleSeverity::Off => true,
        _ => false,
    };
    if off || config.is_rule_ignored(f.name.as_str(), f.subject.as_str()) {
        return;
    }
    let ghost before = fviews(out@);
    let mut f = f;
    f.severity = sev;
    out.push(f);
    assert(fviews(out@) =~= before.push(finding_view(f)));
}

/// A copy of the lines of an edge.
fn copy_lines(v: &Vec<usize>) -> (r: Vec<usize>)
    ensures
        r@ == v@,
{
    let mut r: Vec<usize> = Vec::new();
    let mut i: usize = 0;
    while i < v.len()
        invariant
            i <= v@.len(),
            r@ == v@.subrange(0, i as int),
        decreases v@.len() - i,
    {
        r.push(v[i]);
        assert(r@ =~= v@.subrange(0, i + 1));
        i = i + 1;
    }
    assert(v@.subrange(0, v@.len() as int) =~= v@);
    r
}

/// A copy of a finding.
fn copy_finding(f: &Finding) -> (r: Finding)
    ensures
        finding_view(r) == finding_view(*f),
{
    Finding {
        name: f.name.clone(),
        severity: f.severity,
        subject: f.subject.clone(),
        target: copy_opt(&f.target),
        lines: copy_lines(&f.lines),
        graphs: copy_strings(&f.graphs),
        message: f.message.clone(),
        cause: copy_opt(&f.cause),
    }
}

/// The one-element list holding `s`.
fn one_string(s: &str) -> (r: Vec<String>)
    ensures
        views(r@) == seq![s@],
{
    let mut r: Vec<String> = Vec::new();
    r.push(owned(s));
    assert(views(r@) =~= seq![s@]);
    r
}

/// Report the `unresolved-edge` findings after `base`.
fn report_unresolved(out: &mut Vec<Finding>, graph: &Graph, config: &Config, Ghost(base): Ghost<Seq<FindingView>>)
    requires
        graph.wf(),
        fviews(old(out)@) == reported(*config, base),
    ensures
        fviews(final(out)@) == reported(*config, base + unresolved_findings(*graph, graph.edges@.len() as int)),
{
    let ghost g = *graph;
    assert(base + unresolved_findings(g, 0) =~= base);
    let mut i: usize = 0;
    while i < graph.edges.len()
        invariant
            i <= graph.edges@.len(),
            g == *graph,
            graph.wf(),
            fviews(out@) == reported(*config, base + unresolved_findings(g, i as int)),
        decreases graph.edges@.len() - i,
    {
        let ghost prev = base + unresolved_findings(g, i as int);
        let e = &graph.edges[i];
        let mut found = false;
        match graph.index_of(e.target.as_str()) {
            Some(k) => {
                proof {
                    lemma_index_unique(g.nodes@, k as int, e.target@);
                }
                let n = &graph.nodes[k];
                if n.included && n.node_type.is_none() {
                    found = true;
                }
            },
            None => {},
        }
        if found {
            let f = Finding::warn("unresolved-edge", e.source.as_str(), one_string(e.parser.as_str()), "no defining node")
                .with_target(e.target.as_str()).with_lines(copy_lines(&e.lines));
            proof {
                lemma_reported_push(*config, prev, finding_view(f));
                assert(base + unresolved_findings(g, i + 1) =~= prev.push(finding_view(f)));
            }
            report(out, f, config);
        } else {
            assert(base + unresolved_findings(g, i + 1) =~= prev);
        }
        i = i + 1;
    }
}

/// Report the `removed-node` findings after `base`.
fn report_removed(
    out: &mut Vec<Finding>,
    graph: &Graph,
    lock: Option<&Lockfile>,
    config: &Config,
    Ghost(base): Ghost<Seq<FindingView>>,
)
    requires
        graph.wf(),
        fviews(old(out)@) == reported(*config, base),
    ensures
        fviews(final(out)@) == reported(
            *config,
            base + removed_findings(
                *graph,
                match lock {
                    Some(l) => l.nodes@,
                    None => seq![],
                },
            ),
        ),
{
    let ghost g = *graph;
    let ghost les: Seq<(String, LockfileNode)> = match lock {
        Some(l) => l.nodes@,
        None => seq![],
    };
    match lock {
        Some(l) => {
            let mut i: usize = 0;
            while i < l.nodes.len()
                invariant
                    i <= l.nodes@.len(),
                    les == l.nodes@,
                    g == *graph,
                    graph.wf(),
                    fviews(out@) == reported(*config, base + removed_findings(g, les.subrange(0, i as int))),
                decreases l.nodes@.len() - i,
            {
                let ghost prev = base + removed_findings(g, les.subrange(0, i as int));
                assert(les.subrange(0, i + 1).drop_last() =~= les.subrange(0, i as int));
                let p = l.nodes[i].0.as_str();
                match graph.index_of(p) {
                    Some(k) => {
                        proof {
                            lemma_index_unique(g.nodes@, k as int, p@);
                        }
                        assert(base + removed_findings(g, les.subrange(0, i + 1)) =~= prev);
                    },
                    None => {
                        let f = Finding::warn("removed-node", p, one_string("@fs"), "was locked but is no longer in the graph");
                        proof {
                            lemma_reported_push(*config, prev, finding_view(f));
                            assert(base + removed_findings(g, les.subrange(0, i + 1)) =~= prev.push(finding_view(f)));
                        }
                        report(out, f, config);
                    },
                }
                i = i + 1;
            }
            assert(les.subrange(0, les.len() as int) =~= les);
        },
        None => {
            assert(base + removed_findings(g, les) =~= base);
        },
    }
}

/// Report what the build raised after `base`.
fn report_build(out: &mut Vec<Finding>, build: &Vec<Finding>, config: &Config, Ghost(base): Ghost<Seq<FindingView>>)
    requires
        fviews(old(out)@) == reported(*config, base),
    ensures
        fviews(final(out)@) == reported(*config, base + fviews(build@)),
{
    assert(base + fviews(build@.subrange(0, 0)) =~= base);
    let mut i: usize = 0;
    while i < build.len()
        invariant
            i <= build@.len(),
            fviews(out@) == reported(*config, base + fviews(build@.subrange(0, i as int))),
        decreases build@.len() - i,
    {
        let ghost prev = base + fviews(build@.subrange(0, i as int));
        let f = copy_finding(&build[i]);
        proof {
            lemma_reported_push(*config, prev, finding_view(f));
            assert(base + fviews(build@.subrange(0, i + 1)) =~= prev.push(finding_view(f)));
        }
        report(out, f, config);
        i = i + 1;
    }
    assert(build@.subrange(0, build@.len() as int) =~= build@);
}

/// The diagnostics `impact` reports alongside its result: what the build
/// raised, the edges to an included node nothing defines, and the locked
/// paths that left the graph, each under the configured `[rules]`.
pub fn impact_diagnostics(graph: &Graph, lock: Option<&Lockfile>, config: &Config, build: &Vec<Finding>) -> (r: Vec<Finding>)
    requires
        graph.wf(),
    ensures
        fviews(r@) == reported(
            *config,
            fviews(build@) + unresolved_findings(*graph, graph.edges@.len() as int) + removed_findings(
                *graph,
                match lock {
                    Some(l) => l.nodes@,
                    None => seq![],
                },
            ),
        ),
{
    let mut out: Vec<Finding> = Vec::new();
    let ghost none = Seq::<FindingView>::empty();
    assert(fviews(out@) =~= none);
    report_build(&mut out, build, config, Ghost(none));
    assert(none + fviews(build@) =~= fviews(build@));
    report_unresolved(&mut out, graph, config, Ghost(fviews(build@)));
    report_removed(&mut out, graph, lock, config, Ghost(fviews(build@) + unresolved_findings(*graph, graph.edges@.len() as int)));
    out
}

/// The findings `check` reports: every finding the rules give rise to over
/// the graph, what changed since the lock (`propagation`, computed against
/// `lock`) and the lock itself, then the findings raised while building the
/// graph (`build`), each reported at its rule's configured severity (`warn`
/// by default) unless the rule is `off` or the subject is ignored for it.
pub fn check_findings(
    graph: &Graph,
    propagation: &ChangePropagationResult,
    lock: Option<&Lockfile>,
    config: &Config,
    build: &Vec<Finding>,
) -> (r: Vec<Finding>)
    requires
        graph.wf(),
    ensures
        fviews(r@) == reported(
            *config,
            candidate_findings(
                *graph,
                *propagation,
                match lock {
                    Some(l) => Some(*l),
                    None => None,
                },
                build@,
            ),
        ),
{
    let ghost g = *graph;
    let ghost lk: Option<Lockfile> = match lock {
        Some(l) => Some(*l),
        None => None,
    };
    let mut out: Vec<Finding> = Vec::new();
    // The baseline.
    let ghost c0 = baseline_findings(lk);
    let ghost none = Seq::<FindingView>::empty();
    assert(fviews(out@) =~= none);
    match lock {
        None => {
            let f = Finding::warn("no-baseline", ".drft/lock.toml", Vec::new(), "no lock file yet, so drift cannot be measured");
            proof {
                assert(views(f.graphs@) =~= Seq::<Seq<char>>::empty());
                assert(c0 =~= seq![finding_view(f)]);
                lemma_reported_push(*config, none, finding_view(f));
                assert(none.push(finding_view(f)) =~= c0);
            }
            report(&mut out, f, config);
        },
        Some(l) => {
            if l.nodes.len() == 0 {
                let f = Finding::warn(
                    "no-baseline",
                    ".drft/lock.toml",
                    Vec::new(),
                    "the lock file records no nodes, so drift cannot be measured",
                );
                proof {
                    assert(views(f.graphs@) =~= Seq::<Seq<char>>::empty());
                    assert(c0 =~= seq![finding_view(f)]);
                    lemma_reported_push(*config, none, finding_view(f));
                    assert(none.push(finding_view(f)) =~= c0);
                }
                report(&mut out, f, config);
            } else {
                assert(c0 =~= none);
            }
        },
    }
    assert(fviews(out@) == reported(*config, c0));
    // Stale nodes.
    let dc = &propagation.directly_changed;
    let mut i: usize = 0;
    while i < dc.len()
        invariant
            i <= dc@.len(),
            g == *graph,
            graph.wf(),
            fviews(out@) == reported(*config, c0 + stale_node_findings(g, dc@.subrange(0, i as int))),
        decreases dc@.len() - i,
    {
        let ghost prev = c0 + stale_node_findings(g, dc@.subrange(0, i as int));
        assert(dc@.subrange(0, i + 1).drop_last() =~= dc@.subrange(0, i as int));
        let c = &dc[i];
        match graph.index_of(c.node.as_str()) {
            Some(k) => {
                proof {
                    lemma_index_unique(g.nodes@, k as int, c.node@);
                }
                let f = Finding::warn("stale-node", c.node.as_str(), one_string("@fs"), c.reason.as_str());
                proof {
                    lemma_reported_push(*config, prev, finding_view(f));
                    assert(c0 + stale_node_findings(g, dc@.subrange(0, i + 1)) =~= prev.push(finding_view(f)));
                }
                report(&mut out, f, config);
            },
            None => {
                assert(c0 + stale_node_findings(g, dc@.subrange(0, i + 1)) =~= prev);
            },
        }
        i = i + 1;
    }
    assert(dc@.subrange(0, dc@.len() as int) =~= dc@);
    let ghost c1 = c0 + stale_node_findings(g, propagation.directly_changed@);
    // Stale edges.
    let ts = &propagation.transitively_stale;
    let mut i: usize = 0;
    while i < ts.len()
        invariant
            i <= ts@.len(),
            g == *graph,
            fviews(out@) == reported(*config, c1 + stale_edge_findings(g.edges@, ts@.subrange(0, i as int))),
        decreases ts@.len() - i,
    {
        let ghost prev = c1 + stale_edge_findings(g.edges@, ts@.subrange(0, i as int));
        assert(ts@.subrange(0, i + 1).drop_last() =~= ts@.subrange(0, i as int));
        let t = &ts[i];
        let mut lines: Vec<usize> = Vec::new();
        let mut k: usize = 0;
        while k < graph.edges.len()
            invariant
                k <= graph.edges@.len(),
                g == *graph,
                lines@ == link_lines(g.edges@.subrange(0, k as int), t.node@, t.via@),
            decreases graph.edges@.len() - k,
        {
            assert(g.edges@.subrange(0, k + 1).drop_last() =~= g.edges@.subrange(0, k as int));
            let e = &graph.edges[k];
            if crate::paths::str_eq(e.source.as_str(), t.node.as_str()) && crate::paths::str_eq(e.target.as_str(), t.via.as_str()) {
                let mut j: usize = 0;
                let ghost base = lines@;
                while j < e.lines.len()
                    invariant
                        j <= e.lines@.len(),
                        lines@ == base + e.lines@.subrange(0, j as int),
                    decreases e.lines@.len() - j,
                {
                    lines.push(e.lines[j]);
                    assert(lines@ =~= base + e.lines@.subrange(0, j + 1));
                    j = j + 1;
                }
                assert(e.lines@.subrange(0, e.lines@.len() as int) =~= e.lines@);
            } else {
                assert(lines@ =~= lines@ + Seq::<usize>::empty());
            }
            k = k + 1;
        }
        assert(g.edges@.subrange(0, g.edges@.len() as int) =~= g.edges@);
        let f = Finding::warn("stale-edge", t.node.as_str(), Vec::new(), "links a node that changed since it was locked")
            .with_target(t.via.as_str()).with_lines(lines);
        proof {
            assert(views(f.graphs@) =~= seq![]);
            lemma_reported_push(*config, prev, finding_view(f));
            assert(c1 + stale_edge_findings(g.edges@, ts@.subrange(0, i + 1)) =~= prev.push(finding_view(f)));
        }
        report(&mut out, f, config);
        i = i + 1;
    }
    assert(ts@.subrange(0, ts@.len() as int) =~= ts@);
    let ghost c2 = c1 + stale_edge_findings(g.edges@, propagation.transitively_stale@);
    // Unresolved edges.
    report_unresolved(&mut out, graph, config, Ghost(c2));
    let ghost c3 = c2 + unresolved_findings(g, g.edges@.len() as int);
    // Removed nodes.
    report_removed(&mut out, graph, lock, config, Ghost(c3));
    let ghost les: Seq<(String, LockfileNode)> = match lock {
        Some(l) => l.nodes@,
        None => seq![],
    };
    let ghost c4 = c3 + removed_findings(g, les);
    // Detached nodes.
    let mut i: usize = 0;
    while i < graph.nodes.len()
        invariant
            i <= graph.nodes@.len(),
            g == *graph,
            fviews(out@) == reported(*config, c4 + detached_findings(g, i as int)),
        decreases graph.nodes@.len() - i,
    {
        let ghost prev = c4 + detached_findings(g, i as int);
        let n = &graph.nodes[i];
        let mut linked = false;
        if n.included {
            let mut k: usize = 0;
            while k < graph.edges.len()
                invariant
                    k <= graph.edges@.len(),
                    g == *graph,
                    i < graph.nodes@.len(),
                    n == graph.nodes@[i as int],
                    linked <==> exists|q: int|
                        #![trigger g.edges@[q]]
                        0 <= q < k && (g.edges@[q].source@ == n.path@ || g.edges@[q].target@ == n.path@),
                decreases graph.edges@.len() - k,
            {
                let e = &graph.edges[k];
                let hit = crate::paths::str_eq(e.source.as_str(), n.path.as_str()) || crate::paths::str_eq(
                    e.target.as_str(),
                    n.path.as_str(),
                );
                proof {
                    assert(g.edges@[k as int] == *e);
                    if !linked && !hit {
                        assert forall|q: int| 0 <= q < k + 1 implies !(g.edges@[q].source@ == n.path@
                            || g.edges@[q].target@ == n.path@) by {
                            if q < k {
                                assert(!(0 <= q < k && (g.edges@[q].source@ == n.path@ || g.edges@[q].target@ == n.path@)));
                            }
                        }
                    }
                }
                if hit {
                    linked = true;
                }
                k = k + 1;
            }
        }
        if n.included && !linked {
            let f = Finding::warn("detached-node", n.path.as_str(), one_string("@fs"), "no connections");
            proof {
                lemma_reported_push(*config, prev, finding_view(f));
                assert(c4 + detached_findings(g, i + 1) =~= prev.push(finding_view(f)));
            }
            report(&mut out, f, config);
        } else {
            proof {
                if n.included {
                    let q = choose|q: int|
                        #![trigger g.edges@[q]]
                        0 <= q < g.edges@.len() && (g.edges@[q].source@ == n.path@ || g.edges@[q].target@ == n.path@);
                    assert(touched(g.edges@, n.path@));
                }
            }
            assert(c4 + detached_findings(g, i + 1) =~= prev);
        }
        i = i + 1;
    }
    let ghost c5 = c4 + detached_findings(g, g.nodes@.len() as int);
    // What the build raised.
    report_build(&mut out, build, config, Ghost(c5));
    assert(c5 + fviews(build@) =~= candidate_findings(*graph, *propagation, lk, build@));
    out
}

} // verus!
