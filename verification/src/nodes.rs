//! The `nodes` reader verb's pure parts: namespace arguments, and the compact
//! text a node projection renders to.

use vstd::prelude::*;
use crate::model::namespace;
use crate::projection::{blocks_spec, join_blocks, metadata_lines, push_metadata_lines, MetaBlock};
use crate::text::{chars_of, join, join_spec, string_from_chars, views};

verus! {

/// A namespace argument as given: `@`-prefixed names are kept, bare names
/// gain the prefix.
pub open spec fn normalize_namespace_spec(name: Seq<char>) -> Seq<char> {
    if name.len() > 0 && name[0] == '@' {
        name
    } else {
        seq!['@'] + name
    }
}

/// Normalize a namespace argument to its `@`-prefixed form, accepting both
/// bare (`frontmatter`) and prefixed (`@frontmatter`) spellings.
pub fn normalize_namespace(name: &str) -> (r: String)
    ensures
        r@ == normalize_namespace_spec(name@),
{
    let cs = chars_of(name);
    if cs.len() > 0 && cs[0] == '@' {
        let mut rest: Vec<char> = Vec::new();
        let mut k: usize = 1;
        while k < cs.len()
            invariant
                1 <= k <= cs@.len(),
                rest@ == cs@.subrange(1, k as int),
            decreases cs@.len() - k,
        {
            rest.push(cs[k]);
            k = k + 1;
        }
        let bare = string_from_chars(&rest);
        let r = namespace(bare.as_str());
        assert(r@ =~= name@);
        r
    } else {
        namespace(name)
    }
}

/// A projected node: its id and the namespaced metadata that survived the
/// namespace/field filters, with values rendered.
#[derive(Debug, Clone)]
pub struct NodeProjection {
    pub id: String,
    pub metadata: Vec<(String, MetaBlock)>,
}

/// A node's block: its id, then its metadata lines, one per line.
pub open spec fn node_block(n: NodeProjection) -> Seq<char> {
    join_spec(seq![n.id@] + metadata_lines(n.metadata@), seq!['\n'])
}

/// Render projected nodes as one block per node, blocks separated by a blank
/// line and ending in a newline; an empty projection renders to the empty
/// string.
pub fn format_text(nodes: &[NodeProjection]) -> (out: String)
    ensures
        out@ == blocks_spec(nodes@.map_values(|n: NodeProjection| node_block(n))),
{
    let mut blocks: Vec<String> = Vec::new();
    let mut i: usize = 0;
    while i < nodes.len()
        invariant
            i <= nodes@.len(),
            views(blocks@) == nodes@.subrange(0, i as int).map_values(|n: NodeProjection| node_block(n)),
        decreases nodes@.len() - i,
    {
        let node = &nodes[i];
        let mut lines: Vec<String> = Vec::new();
        lines.push(node.id.clone());
        assert(views(lines@) =~= seq![node.id@]);
        push_metadata_lines(&mut lines, &node.metadata);
        let block = join(&lines, "\n");
        proof {
            reveal_strlit("\n");
            assert("\n"@ =~= seq!['\n']);
            assert(block@ == node_block(*node));
        }
        let ghost before = blocks@;
        blocks.push(block);
        proof {
            assert(views(blocks@) =~= views(before).push(node_block(*node)));
            assert(nodes@.subrange(0, i + 1).map_values(|n: NodeProjection| node_block(n)) =~= nodes@.subrange(
                0,
                i as int,
            ).map_values(|n: NodeProjection| node_block(n)).push(node_block(*node)));
        }
        i = i + 1;
    }
    assert(nodes@.subrange(0, nodes@.len() as int) =~= nodes@);
    join_blocks(blocks)
}

} // verus!
