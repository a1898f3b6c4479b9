//! The operational contract of each command, as the installed binary
//! describes it: what a command reads and writes, which operands and controls
//! it takes and what they mean, the document it answers with, its exit codes,
//! its boundaries, and whether its output is guarded.

use vstd::prelude::*;
use crate::cli::Commands;
use crate::policy::{fields_spec, output_guard, ExitStatus, OutputGuard, ResultShape};
use crate::commands::contains_str;
use crate::text::{owned, views};

verus! {

/// What an operand or control means.
#[derive(Debug, Clone, Copy)]
pub struct Semantics {
    pub argument: &'static str,
    pub kind: &'static str,
    pub meaning: &'static str,
}

/// The document a command answers with on success.
#[derive(Debug, Clone)]
pub struct SuccessDocument {
    pub kind: &'static str,
    pub fields: Vec<&'static str>,
}

/// The operational record of one command.
#[derive(Debug, Clone)]
pub struct Operational {
    pub role: &'static str,
    pub capability: &'static str,
    pub reads: Vec<&'static str>,
    pub writes: Vec<&'static str>,
    pub operands: Vec<Semantics>,
    pub controls: Vec<Semantics>,
    pub success_document: Option<SuccessDocument>,
    pub exit_codes: Vec<i32>,
    pub boundary: Vec<&'static str>,
    pub output_guard: Option<OutputGuard>,
    pub example: &'static str,
}

/// The texts of a list of static strings.
pub open spec fn strs(v: Seq<&'static str>) -> Seq<Seq<char>> {
    v.map_values(|s: &'static str| s@)
}

/// What an operand or control means, as text.
pub open spec fn sem_view(s: Semantics) -> (Seq<char>, Seq<char>, Seq<char>) {
    (s.argument@, s.kind@, s.meaning@)
}

/// A list of meanings, as text.
pub open spec fn sems(v: Seq<Semantics>) -> Seq<(Seq<char>, Seq<char>, Seq<char>)> {
    v.map_values(|s: Semantics| sem_view(s))
}

/// A success document, as text.
pub open spec fn doc_view(d: Option<SuccessDocument>) -> Option<(Seq<char>, Seq<Seq<char>>)> {
    match d {
        Some(d) => Some((d.kind@, strs(d.fields@))),
        None => None,
    }
}

/// Whether a command's output passes the byte guard.
pub open spec fn guarded(c: Commands) -> bool {
    c is Graph || c is Impact || c is Nodes || c is Edges
}

/// The role of a command.
pub open spec fn role_spec(c: Commands) -> Seq<char> {
    match c {
        Commands::Init => "configure"@,
        Commands::Config { .. } => "inspect-configuration"@,
        Commands::Lock { .. } => "record-reviewed-state"@,
        Commands::Graph { .. } => "read-complete-graph"@,
        Commands::Impact { .. } => "traverse"@,
        Commands::Nodes { .. } => "project-nodes"@,
        Commands::Edges { .. } => "project-outbound-edges"@,
        Commands::Check => "gate"@,
        Commands::Guide => "describe-installed-binary"@,
    }
}

/// The capability a command needs.
pub open spec fn capability_spec(c: Commands) -> Seq<char> {
    match c {
        Commands::Init => "write-configuration"@,
        Commands::Lock { .. } => "write-baseline"@,
        _ => "read"@,
    }
}

/// What a command reads.
pub open spec fn reads_spec(c: Commands) -> Seq<Seq<char>> {
    match c {
        Commands::Init => seq![],
        Commands::Config { .. } => seq!["drft.toml"@, "repository-.gitignore"@],
        Commands::Lock { .. } => seq!["composed-graph"@, "drft.lock"@],
        Commands::Impact { .. } => seq!["composed-graph"@, "drft.lock"@],
        Commands::Check => seq!["composed-graph"@, "configuration"@, "drft.lock"@],
        Commands::Guide => seq!["compiled-command-metadata"@, "compiled-operational-contract"@],
        _ => seq!["composed-graph"@],
    }
}

/// What a command writes.
pub open spec fn writes_spec(c: Commands) -> Seq<Seq<char>> {
    match c {
        Commands::Init => seq!["drft.toml"@],
        Commands::Lock { .. } => seq!["drft.lock"@],
        _ => seq![],
    }
}

/// The exact-path operand.
pub open spec fn exact_paths_view() -> (Seq<char>, Seq<char>, Seq<char>) {
    ("paths"@, "exact-node-path"@,
        "Exact cwd-relative, graph-root-contained node paths; no fallback or expansion."@)
}

/// The selector operand of a projection.
pub open spec fn selectors_view(edges: bool) -> (Seq<char>, Seq<char>, Seq<char>) {
    ("selectors"@, "read-selector"@, if edges {
        "Match edge sources, not targets: exact path, recursive bare directory, or globset pattern."@
    } else {
        "Match nodes: exact path, recursive bare directory, or globset pattern."@
    })
}

/// The operands of a command.
pub open spec fn operands_spec(c: Commands) -> Seq<(Seq<char>, Seq<char>, Seq<char>)> {
    match c {
        Commands::Lock { .. } => seq![exact_paths_view()],
        Commands::Impact { .. } => seq![exact_paths_view()],
        Commands::Nodes { .. } => seq![selectors_view(false)],
        Commands::Edges { .. } => seq![selectors_view(true)],
        _ => seq![],
    }
}

/// The byte-budget control of a guarded command.
pub open spec fn max_bytes_view() -> (Seq<char>, Seq<char>, Seq<char>) {
    ("max_bytes"@, "output-guard"@, "Refuse the complete stdout document when it exceeds the byte limit."@)
}

/// The controls of a projection.
pub open spec fn projection_controls() -> Seq<(Seq<char>, Seq<char>, Seq<char>)> {
    seq![
        ("all"@, "whole-graph-acknowledgement"@, "Select the whole graph."@),
        ("namespaces"@, "metadata-filter"@,
            "Restrict to declared graph namespaces; accept bare or prefixed namespace names."@),
        ("fields"@, "metadata-filter"@, "Restrict returned metadata to named fields."@),
    ]
}

/// A command's own controls, before the byte guard adds its own.
pub open spec fn own_controls(c: Commands) -> Seq<(Seq<char>, Seq<char>, Seq<char>)> {
    match c {
        Commands::Config { .. } => seq![("show_ignores"@, "inspection-mode"@,
            "Report the ignore sources used for filesystem discovery."@)],
        Commands::Lock { .. } => seq![("all"@, "whole-graph-acknowledgement"@,
            "Affirm every lockable node after whole-graph review, or deliberately establish or rebuild the whole baseline."@)],
        Commands::Graph { .. } => seq![("raw"@, "raw-graph-set"@,
            "Emit the raw JSON graph set; ignores the output format control."@)],
        Commands::Impact { .. } => seq![
            ("depth"@, "traversal-bound"@,
                "A positive integer bounds hops; the unbounded form traverses the full reachable set."@),
            ("direction"@, "traversal-direction"@,
                "Inbound follows dependents; outbound follows dependencies; both follows either direction."@),
        ],
        Commands::Nodes { .. } => projection_controls(),
        Commands::Edges { .. } => projection_controls(),
        _ => seq![],
    }
}

/// The controls of a command: its own, then the byte budget when guarded.
pub open spec fn controls_spec(c: Commands) -> Seq<(Seq<char>, Seq<char>, Seq<char>)> {
    if guarded(c) {
        own_controls(c).push(max_bytes_view())
    } else {
        own_controls(c)
    }
}

/// The success document of a command.
pub open spec fn doc_spec(c: Commands) -> Option<(Seq<char>, Seq<Seq<char>>)> {
    match c {
        Commands::Init => None,
        Commands::Config { .. } => Some(("ignore-source-report"@, seq![])),
        Commands::Lock { .. } => Some(("lock-result"@, fields_spec(ResultShape::Lock))),
        Commands::Graph { .. } => Some(("text-graph-or-bare-jgf-or-raw-graph-set-json"@, seq![])),
        Commands::Impact { .. } => Some(("impact-result"@, fields_spec(ResultShape::Impact))),
        Commands::Nodes { .. } => Some(("nodes-result"@, fields_spec(ResultShape::Nodes))),
        Commands::Edges { .. } => Some(("edges-result"@, fields_spec(ResultShape::Edges))),
        Commands::Check => Some(("check-result"@, fields_spec(ResultShape::Check))),
        Commands::Guide => Some(("this-contract"@, seq![])),
    }
}

/// The exit codes of a command: success and failure, and for `check` the
/// violations status between them.
pub open spec fn exit_codes_spec(c: Commands) -> Seq<i32> {
    if c is Check {
        seq![0i32, 1i32, 2i32]
    } else {
        seq![0i32, 2i32]
    }
}

/// The boundary lines a projection states.
pub open spec fn projection_boundary(edges: bool) -> Seq<Seq<char>> {
    let base = seq![
        "An exact miss fails; a glob or field miss may return an empty result."@,
        "Unknown namespaces fail."@,
        "Never widen an empty scope."@,
    ];
    if edges {
        base.push("Selectors match edge sources, not targets."@)
    } else {
        base
    }
}

/// A command's own boundary lines, before the byte guard adds its own.
pub open spec fn own_boundary(c: Commands) -> Seq<Seq<char>> {
    match c {
        Commands::Init => seq![
            "Refuses when drft.toml exists; never overwrites it."@,
            "Accepts the global format control but emits no success document."@,
        ],
        Commands::Config { .. } => seq!["Does not build the graph or update drft.lock."@],
        Commands::Lock { .. } => seq![
            "Never widen an empty scoped lock."@,
            "Resolves the complete batch before writing."@,
            "Refuses a scoped merge into an unreadable baseline."@,
            "A missing or file-now-directory operand may drop its stale entry."@,
            "Whole-graph locking rebuilds the complete baseline and reports dropped entries."@,
            "Lock every path whose current content or outbound promises were reviewed, including unchanged reviewed dependents."@,
            "Do not lock unrelated pre-existing staleness."@,
            "No .md fallback, directory expansion, subtree expansion, or glob expansion."@,
        ],
        Commands::Graph { .. } => seq![
            "Has no narrowing controls."@,
            "Bare JGF and raw-graph hints use stderr; the selected format controls their encoding."@,
        ],
        Commands::Impact { .. } => seq![
            "No .md fallback, directory expansion, subtree expansion, or glob expansion. Seeds must exist in the current graph."@,
            "Diagnostics include construction findings from all configured graphs, including disconnected files and metadata-only graphs. They identify read failures, not inferred dependencies on seeds."@,
            "Traversal diagnostics cover every edge inspected within the requested direction and depth, including cycles and edges between seeds."@,
            "Historical pairs in the optional lock qualify losses beside the current expansion frontier; they never extend traversal, ranking, or total. Missing and empty baselines are quiet."@,
            "Configured severity and subject ignores apply. Only construction, unresolved-edge, unresolved-fragment, removed-edge, and applicable removed-node findings are included. A completed read exits 0 even with error diagnostics; check remains the rule gate."@,
            "Construction diagnostic scope is global: narrowing seeds, depth, or direction only shrinks traversal output. Increase --max-bytes or repair read failures when those diagnostics exceed the budget."@,
        ],
        Commands::Nodes { .. } => projection_boundary(false),
        Commands::Edges { .. } => projection_boundary(true),
        Commands::Check => seq![
            "Read every finding; warnings do not cause the violations exit status and must not be ignored or suppressed."@,
            "A missing, empty, or unusable baseline is a promotable finding/configuration state requiring review, not authority to lock."@,
        ],
        Commands::Guide => seq![
            "Requires no repository or config."@,
            "Does not walk the repository, load drft.toml, read drft.lock, or build the graph."@,
        ],
    }
}

/// The boundary lines of a command: its own, then the byte guard's.
pub open spec fn boundary_spec(c: Commands) -> Seq<Seq<char>> {
    if guarded(c) {
        own_boundary(c) + seq![
            "Never truncates output."@,
            "The output byte guard refuses atomically before stdout."@,
        ]
    } else {
        own_boundary(c)
    }
}

/// Whether `r` is the operational record of `c`, with `example` as its
/// example invocation.
pub open spec fn operational_spec(c: Commands, example: Seq<char>, r: Operational) -> bool {
    &&& r.role@ == role_spec(c)
    &&& r.capability@ == capability_spec(c)
    &&& strs(r.reads@) == reads_spec(c)
    &&& strs(r.writes@) == writes_spec(c)
    &&& sems(r.operands@) == operands_spec(c)
    &&& sems(r.controls@) == controls_spec(c)
    &&& doc_view(r.success_document) == doc_spec(c)
    &&& r.exit_codes@ == exit_codes_spec(c)
    &&& strs(r.boundary@) == boundary_spec(c)
    &&& (r.output_guard is Some <==> guarded(c))
    &&& (r.output_guard matches Some(g) ==> g.kind@ == "output-guard"@ && !g.truncates
        && g.atomic_refusal_before_stdout && g.failure_exit == 2)
    &&& r.example@ == example
}

/// An operand's or control's meaning.
pub fn semantics(argument: &'static str, kind: &'static str, meaning: &'static str) -> (r: Semantics)
    ensures
        r.argument == argument,
        r.kind == kind,
        r.meaning == meaning,
{
    Semantics { argument, kind, meaning }
}

/// A result document of the given kind and shape.
pub fn result(kind: &'static str, shape: ResultShape) -> (r: Option<SuccessDocument>)
    ensures
        doc_view(r) == Some((kind@, fields_spec(shape))),
{
    let fields = shape.fields();
    assert(strs(fields@) =~= fields_spec(shape));
    Some(SuccessDocument { kind, fields })
}

/// The exact-path operand.
pub fn exact_paths() -> (r: Semantics)
    ensures
        sem_view(r) == exact_paths_view(),
{
    semantics(
        "paths",
        "exact-node-path",
        "Exact cwd-relative, graph-root-contained node paths; no fallback or expansion.",
    )
}

/// Put a record's output under the byte guard: the guard itself, its control,
/// and its two boundary lines.
pub fn guard(record: &mut Operational)
    ensures
        final(record).output_guard matches Some(g) && g.kind@ == "output-guard"@ && !g.truncates
            && g.atomic_refusal_before_stdout && g.failure_exit == 2,
        sems(final(record).controls@) == sems(old(record).controls@).push(max_bytes_view()),
        strs(final(record).boundary@) == strs(old(record).boundary@) + seq![
            "Never truncates output."@,
            "The output byte guard refuses atomically before stdout."@,
        ],
        final(record).role == old(record).role,
        final(record).capability == old(record).capability,
        final(record).reads == old(record).reads,
        final(record).writes == old(record).writes,
        final(record).operands == old(record).operands,
        final(record).success_document == old(record).success_document,
        final(record).exit_codes == old(record).exit_codes,
        final(record).example == old(record).example,
{
    record.output_guard = Some(output_guard());
    let ghost c0 = record.controls@;
    record.controls.push(semantics(
        "max_bytes",
        "output-guard",
        "Refuse the complete stdout document when it exceeds the byte limit.",
    ));
    assert(sems(record.controls@) =~= sems(c0).push(max_bytes_view()));
    let ghost b0 = record.boundary@;
    record.boundary.push("Never truncates output.");
    record.boundary.push("The output byte guard refuses atomically before stdout.");
    assert(strs(record.boundary@) =~= strs(b0) + seq![
        "Never truncates output."@,
        "The output byte guard refuses atomically before stdout."@,
    ]);
}

/// Fill a record in as a projection of nodes or (`edges`) of edges.
pub fn projection(record: &mut Operational, edges: bool)
    ensures
        final(record).role@ == if edges { "project-outbound-edges"@ } else { "project-nodes"@ },
        sems(final(record).operands@) == sems(old(record).operands@).push(selectors_view(edges)),
        sems(final(record).controls@) == (sems(old(record).controls@) + projection_controls()).push(
            max_bytes_view(),
        ),
        doc_view(final(record).success_document) == if edges {
            Some(("edges-result"@, fields_spec(ResultShape::Edges)))
        } else {
            Some(("nodes-result"@, fields_spec(ResultShape::Nodes)))
        },
        strs(final(record).boundary@) == projection_boundary(edges) + seq![
            "Never truncates output."@,
            "The output byte guard refuses atomically before stdout."@,
        ],
        final(record).output_guard matches Some(g) && g.kind@ == "output-guard"@ && !g.truncates
            && g.atomic_refusal_before_stdout && g.failure_exit == 2,
        final(record).capability == old(record).capability,
        final(record).reads == old(record).reads,
        final(record).writes == old(record).writes,
        final(record).exit_codes == old(record).exit_codes,
        final(record).example == old(record).example,
{
    record.role = if edges { "project-outbound-edges" } else { "project-nodes" };
    let ghost o0 = record.operands@;
    record.operands.push(semantics(
        "selectors",
        "read-selector",
        if edges {
            "Match edge sources, not targets: exact path, recursive bare directory, or globset pattern."
        } else {
            "Match nodes: exact path, recursive bare directory, or globset pattern."
        },
    ));
    assert(sems(record.operands@) =~= sems(o0).push(selectors_view(edges)));
    let ghost k0 = record.controls@;
    record.controls.push(semantics("all", "whole-graph-acknowledgement", "Select the whole graph."));
    record.controls.push(semantics(
        "namespaces",
        "metadata-filter",
        "Restrict to declared graph namespaces; accept bare or prefixed namespace names.",
    ));
    record.controls.push(semantics("fields", "metadata-filter", "Restrict returned metadata to named fields."));
    assert(sems(record.controls@) =~= sems(k0) + projection_controls());
    record.success_document = if edges {
        result("edges-result", ResultShape::Edges)
    } else {
        result("nodes-result", ResultShape::Nodes)
    };
    let mut boundary: Vec<&'static str> = vec![
        "An exact miss fails; a glob or field miss may return an empty result.",
        "Unknown namespaces fail.",
        "Never widen an empty scope.",
    ];
    if edges {
        boundary.push("Selectors match edge sources, not targets.");
    }
    assert(strs(boundary@) =~= projection_boundary(edges));
    record.boundary = boundary;
    guard(record);
}

/// The operational record of `command`, with `example` as its example
/// invocation.
pub fn operational(command: &Commands, example: &'static str) -> (r: Operational)
    ensures
        operational_spec(*command, example@, r),
{
    let mut record = Operational {
        role: "",
        capability: "read",
        reads: vec!["composed-graph"],
        writes: vec![],
        operands: vec![],
        controls: vec![],
        success_document: None,
        exit_codes: vec![ExitStatus::Success.code(), ExitStatus::Failure.code()],
        boundary: vec![],
        output_guard: None,
        example,
    };
    assert(sems(record.operands@) =~= Seq::empty());
    assert(sems(record.controls@) =~= Seq::empty());
    assert(strs(record.boundary@) =~= Seq::empty());
    assert(strs(record.writes@) =~= Seq::empty());
    assert(strs(record.reads@) =~= seq!["composed-graph"@]);
    match command {
        Commands::Init => {
            record.role = "configure";
            record.capability = "write-configuration";
            record.reads = vec![];
            record.writes = vec!["drft.toml"];
            record.boundary = vec![
                "Refuses when drft.toml exists; never overwrites it.",
                "Accepts the global format control but emits no success document.",
            ];
        },
        Commands::Config { .. } => {
            record.role = "inspect-configuration";
            record.reads = vec!["drft.toml", "repository-.gitignore"];
            record.controls.push(semantics(
                "show_ignores",
                "inspection-mode",
                "Report the ignore sources used for filesystem discovery.",
            ));
            record.success_document = Some(SuccessDocument { kind: "ignore-source-report", fields: vec![] });
            record.boundary = vec!["Does not build the graph or update drft.lock."];
        },
        Commands::Lock { .. } => {
            record.role = "record-reviewed-state";
            record.capability = "write-baseline";
            record.reads.push("drft.lock");
            record.writes = vec!["drft.lock"];
            record.operands.push(exact_paths());
            record.controls.push(semantics(
                "all",
                "whole-graph-acknowledgement",
                "Affirm every lockable node after whole-graph review, or deliberately establish or rebuild the whole baseline.",
            ));
            record.success_document = result("lock-result", ResultShape::Lock);
            record.boundary = vec![
                "Never widen an empty scoped lock.",
                "Resolves the complete batch before writing.",
                "Refuses a scoped merge into an unreadable baseline.",
                "A missing or file-now-directory operand may drop its stale entry.",
                "Whole-graph locking rebuilds the complete baseline and reports dropped entries.",
                "Lock every path whose current content or outbound promises were reviewed, including unchanged reviewed dependents.",
                "Do not lock unrelated pre-existing staleness.",
                "No .md fallback, directory expansion, subtree expansion, or glob expansion.",
            ];
        },
        Commands::Graph { .. } => {
            record.role = "read-complete-graph";
            record.controls.push(semantics(
                "raw",
                "raw-graph-set",
                "Emit the raw JSON graph set; ignores the output format control.",
            ));
            record.success_document = Some(SuccessDocument {
                kind: "text-graph-or-bare-jgf-or-raw-graph-set-json",
                fields: vec![],
            });
            record.boundary = vec![
                "Has no narrowing controls.",
                "Bare JGF and raw-graph hints use stderr; the selected format controls their encoding.",
            ];
            guard(&mut record);
        },
        Commands::Impact { .. } => {
            record.role = "traverse";
            record.operands.push(exact_paths());
            record.controls.push(semantics(
                "depth",
                "traversal-bound",
                "A positive integer bounds hops; the unbounded form traverses the full reachable set.",
            ));
            record.controls.push(semantics(
                "direction",
                "traversal-direction",
                "Inbound follows dependents; outbound follows dependencies; both follows either direction.",
            ));
            record.success_document = result("impact-result", ResultShape::Impact);
            record.reads.push("drft.lock");
            record.boundary = vec![
                "No .md fallback, directory expansion, subtree expansion, or glob expansion. Seeds must exist in the current graph.",
                "Diagnostics include construction findings from all configured graphs, including disconnected files and metadata-only graphs. They identify read failures, not inferred dependencies on seeds.",
                "Traversal diagnostics cover every edge inspected within the requested direction and depth, including cycles and edges between seeds.",
                "Historical pairs in the optional lock qualify losses beside the current expansion frontier; they never extend traversal, ranking, or total. Missing and empty baselines are quiet.",
                "Configured severity and subject ignores apply. Only construction, unresolved-edge, unresolved-fragment, removed-edge, and applicable removed-node findings are included. A completed read exits 0 even with error diagnostics; check remains the rule gate.",
                "Construction diagnostic scope is global: narrowing seeds, depth, or direction only shrinks traversal output. Increase --max-bytes or repair read failures when those diagnostics exceed the budget.",
            ];
            guard(&mut record);
        },
        Commands::Nodes { .. } => {
            projection(&mut record, false);
        },
        Commands::Edges { .. } => {
            projection(&mut record, true);
        },
        Commands::Check => {
            record.role = "gate";
            record.reads.push("configuration");
            record.reads.push("drft.lock");
            record.success_document = result("check-result", ResultShape::Check);
            record.exit_codes.insert(1, ExitStatus::Violations.code());
            record.boundary = vec![
                "Read every finding; warnings do not cause the violations exit status and must not be ignored or suppressed.",
                "A missing, empty, or unusable baseline is a promotable finding/configuration state requiring review, not authority to lock.",
            ];
        },
        Commands::Guide => {
            record.role = "describe-installed-binary";
            record.reads = vec!["compiled-command-metadata", "compiled-operational-contract"];
            record.success_document = Some(SuccessDocument { kind: "this-contract", fields: vec![] });
            record.boundary = vec![
                "Requires no repository or config.",
                "Does not walk the repository, load drft.toml, read drft.lock, or build the graph.",
            ];
        },
    }
    assert(strs(record.reads@) =~= reads_spec(*command));
    assert(strs(record.writes@) =~= writes_spec(*command));
    assert(sems(record.operands@) =~= operands_spec(*command));
    assert(sems(record.controls@) =~= controls_spec(*command));
    assert(strs(record.boundary@) =~= boundary_spec(*command));
    assert(record.exit_codes@ =~= exit_codes_spec(*command));
    assert(doc_view(record.success_document) =~= doc_spec(*command));
    record
}

/// Whether no name repeats.
pub open spec fn no_repeats(s: Seq<Seq<char>>) -> bool {
    forall|i: int, j: int| 0 <= i < j < s.len() ==> #[trigger] s[i] != #[trigger] s[j]
}

/// Whether the commands the guide's examples run cover the visible commands
/// exactly once: no command twice, none missing, none extra.
pub open spec fn covers_exactly_once(examples: Seq<Seq<char>>, visible: Seq<Seq<char>>) -> bool {
    &&& no_repeats(examples)
    &&& forall|i: int| 0 <= i < examples.len() ==> visible.contains(#[trigger] examples[i])
    &&& forall|j: int| 0 <= j < visible.len() ==> examples.contains(#[trigger] visible[j])
}

/// The refusal of a guide whose examples do not cover the commands.
pub open spec fn coverage_message() -> Seq<char> {
    "guide operational records must cover every visible command exactly once"@
}

/// Check that the guide's examples (by the command each runs) cover every
/// visible command exactly once.
pub fn check_guide_coverage(example_commands: &Vec<String>, visible: &Vec<String>) -> (r: Result<(), String>)
    ensures
        r is Ok <==> covers_exactly_once(views(example_commands@), views(visible@)),
        r matches Err(m) ==> m@ == coverage_message(),
{
    let ghost ex = views(example_commands@);
    let ghost vis = views(visible@);
    let mut ok = true;
    let mut i: usize = 0;
    while i < example_commands.len()
        invariant
            i <= example_commands@.len(),
            ex == views(example_commands@),
            vis == views(visible@),
            ok ==> forall|a: int, b: int| 0 <= a < b < i ==> #[trigger] ex[a] != #[trigger] ex[b],
            ok ==> forall|a: int| 0 <= a < i ==> vis.contains(#[trigger] ex[a]),
            !ok ==> !covers_exactly_once(ex, vis),
        decreases example_commands@.len() - i,
    {
        if ok {
            assert(ex[i as int] == example_commands@[i as int]@);
            if !contains_str(visible, &example_commands[i]) {
                ok = false;
                assert(!vis.contains(ex[i as int]));
            } else {
                let mut dup = false;
                let mut j: usize = 0;
                while j < i
                    invariant
                        j <= i < example_commands@.len(),
                        ex == views(example_commands@),
                        dup ==> exists|a: int| 0 <= a < i && #[trigger] ex[a] == ex[i as int],
                        !dup ==> forall|a: int| 0 <= a < j ==> #[trigger] ex[a] != ex[i as int],
                    decreases i - j,
                {
                    assert(ex[j as int] == example_commands@[j as int]@);
                    assert(ex[i as int] == example_commands@[i as int]@);
                    if crate::paths::str_eq(example_commands[j].as_str(), example_commands[i].as_str()) {
                        dup = true;
                    }
                    j = j + 1;
                }
                if dup {
                    ok = false;
                    proof {
                        let a = choose|a: int| 0 <= a < i && #[trigger] ex[a] == ex[i as int];
                        assert(ex[a] == ex[i as int]);
                        assert(!no_repeats(ex));
                    }
                } else {
                    assert forall|a: int, b: int| 0 <= a < b < i + 1 implies #[trigger] ex[a] != #[trigger] ex[b] by {
                        if b == i {
                            assert(ex[a] != ex[i as int]);
                        }
                    }
                }
            }
        }
        i = i + 1;
    }
    if ok {
        let mut j: usize = 0;
        while j < visible.len()
            invariant
                j <= visible@.len(),
                ex == views(example_commands@),
                vis == views(visible@),
                ok,
                forall|a: int| 0 <= a < j ==> ex.contains(#[trigger] vis[a]),
            decreases visible@.len() - j,
        {
            if !contains_str(example_commands, &visible[j]) {
                assert(vis[j as int] == visible@[j as int]@);
                return Err(owned("guide operational records must cover every visible command exactly once"));
            }
            assert(vis[j as int] == visible@[j as int]@);
            j = j + 1;
        }
        Ok(())
    } else {
        Err(owned("guide operational records must cover every visible command exactly once"))
    }
}

} // verus!
