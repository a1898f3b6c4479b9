//! The `edges` reader verb's pure part: the compact text an edge projection
//! renders to.

use vstd::prelude::*;
use crate::projection::{blocks_spec, join_blocks, metadata_lines, push_metadata_lines, MetaBlock};
use crate::text::{join, join_spec, push_all, views};

verus! {

/// A projected edge: its endpoints and the namespaced metadata that survived
/// the namespace/field filters, with values rendered.
#[derive(Debug, Clone)]
pub struct EdgeProjection {
    pub source: String,
    pub target: String,
    pub metadata: Vec<(String, MetaBlock)>,
}

/// An edge's block: `source → target`, then its metadata lines.
pub open spec fn edge_block(e: EdgeProjection) -> Seq<char> {
    join_spec(seq![e.source@ + seq![' ', '→', ' '] + e.target@] + metadata_lines(e.metadata@), seq!['\n'])
}

/// Render projected edges as one block per edge — `source → target` on the
/// header line, each namespace indented under it, each field under that —
/// blocks separated by a blank line and ending in a newline; an empty
/// projection renders to the empty string.
pub fn format_text(edges: &[EdgeProjection]) -> (out: String)
    ensures
        out@ == blocks_spec(edges@.map_values(|e: EdgeProjection| edge_block(e))),
{
    let mut blocks: Vec<String> = Vec::new();
    let mut i: usize = 0;
    while i < edges.len()
        invariant
            i <= edges@.len(),
            views(blocks@) == edges@.subrange(0, i as int).map_values(|e: EdgeProjection| edge_block(e)),
        decreases edges@.len() - i,
    {
        let edge = &edges[i];
        let mut head = String::new();
        push_all(&mut head, edge.source.as_str());
        head.push(' ');
        head.push('→');
        head.push(' ');
        push_all(&mut head, edge.target.as_str());
        let ghost hv = head@;
        let mut lines: Vec<String> = Vec::new();
        lines.push(head);
        assert(views(lines@) =~= seq![hv]);
        push_metadata_lines(&mut lines, &edge.metadata);
        let block = join(&lines, "\n");
        proof {
            reveal_strlit("\n");
            assert("\n"@ =~= seq!['\n']);
            assert(hv =~= edge.source@ + seq![' ', '→', ' '] + edge.target@);
            assert(block@ == edge_block(*edge));
        }
        let ghost before = blocks@;
        blocks.push(block);
        proof {
            assert(views(blocks@) =~= views(before).push(edge_block(*edge)));
            assert(edges@.subrange(0, i + 1).map_values(|e: EdgeProjection| edge_block(e)) =~= edges@.subrange(
                0,
                i as int,
            ).map_values(|e: EdgeProjection| edge_block(e)).push(edge_block(*edge)));
        }
        i = i + 1;
    }
    assert(edges@.subrange(0, edges@.len() as int) =~= edges@);
    join_blocks(blocks)
}

} // verus!
