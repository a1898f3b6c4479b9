# drft

A drift checker for linked files: it builds a graph of the links between the
files of a repository, snapshots a reviewed baseline with `drft lock`, and
reports with `drft check` what a change has left stale or otherwise drifted.

The library under `src/` is written in Verus: every decision the commands make
is an executable function with a `requires`/`ensures` contract that Verus
proves. `app/` is the command-line program around it: argument parsing, reading
and writing files, and output.

## Layout

- `src/graph.rs`, `src/assemble.rs`, `src/graphs.rs`: the graph model, how the
  files read by each configured graph are assembled into one graph.
- `src/parsers/`: the markdown and frontmatter parsers, and heading anchors.
- `src/analyses/`, `src/reach.rs`, `src/impact.rs`: structural analyses,
  reachability, what changed since the lock, and what an edit affects.
- `src/rules.rs`: the findings `check` reports and how the configured
  `[rules]` report them (severity, `off`, ignore globs).
- `src/config.rs`, `src/layout.rs`, `src/lockfile.rs`: the configuration, the
  project layout, and the lock.
- `src/diagnostic.rs`, `src/hints.rs`, `src/ansi.rs`, `src/text.rs`: how
  findings and hints render, plain and coloured.
- `src/projection.rs`, `src/nodes.rs`, `src/edges.rs`, `src/compose.rs`: the
  read verbs and the composed graph.
- `src/guide.rs`: each command's operational contract.

Calls into outside crates (globset, saphyr, pulldown-cmark, url, blake3) sit
behind small trusted wrappers whose contracts state what the crate's source
shows; everything built on them is verified.

## Checking

Verus verifies `src/`; `tests/` exercises the library on concrete values.
