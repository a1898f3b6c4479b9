//! The compact text shape the reader verbs share: blocks separated by blank
//! lines, and labelled sections.

use vstd::prelude::*;
use crate::text::{join, join_spec, push_all, views};
use crate::paths::str_eq;

verus! {

/// The blocks joined by one blank line, with a trailing newline; nothing when
/// there are no blocks.
pub open spec fn blocks_spec(blocks: Seq<Seq<char>>) -> Seq<char> {
    if blocks.len() == 0 {
        Seq::empty()
    } else {
        join_spec(blocks, seq!['\n', '\n']) + seq!['\n']
    }
}

/// Join per-entry blocks into the final text: one blank line between blocks
/// and a trailing newline, or the empty string when there is nothing to show.
pub fn join_blocks(blocks: Vec<String>) -> (out: String)
    ensures
        out@ == blocks_spec(views(blocks@)),
{
    if blocks.len() == 0 {
        return String::new();
    }
    let mut out = join(&blocks, "\n\n");
    proof {
        reveal_strlit("\n\n");
        assert("\n\n"@ =~= seq!['\n', '\n']);
    }
    out.push('\n');
    assert(out@ =~= blocks_spec(views(blocks@)));
    out
}

/// One labelled section: the `# label` header line, then a blank line and the
/// body when the body is not empty.
pub open spec fn section_spec(label: Seq<char>, body: Seq<char>) -> Seq<char> {
    seq!['#', ' '] + label + seq!['\n'] + if body.len() == 0 {
        Seq::empty()
    } else {
        seq!['\n'] + body
    }
}

/// The sections, one blank line between consecutive ones.
pub open spec fn sections_spec(sections: Seq<(Seq<char>, Seq<char>)>) -> Seq<char>
    decreases sections.len(),
{
    if sections.len() == 0 {
        Seq::empty()
    } else if sections.len() == 1 {
        section_spec(sections[0].0, sections[0].1)
    } else {
        sections_spec(sections.drop_last()) + seq!['\n'] + section_spec(
            sections.last().0,
            sections.last().1,
        )
    }
}

/// The views of labelled sections.
pub open spec fn section_views(sections: Seq<(&str, &str)>) -> Seq<(Seq<char>, Seq<char>)> {
    sections.map_values(|s: (&str, &str)| (s.0@, s.1@))
}

/// Join labelled sections: each a `# <label>` header followed by its body
/// (separated by a blank line when the body is not empty), one blank line
/// between sections. An empty body renders as its header alone.
pub fn join_sections(sections: &[(&str, &str)]) -> (out: String)
    ensures
        out@ == sections_spec(section_views(sections@)),
{
    let mut out = String::new();
    let mut i: usize = 0;
    while i < sections.len()
        invariant
            i <= sections@.len(),
            out@ == sections_spec(section_views(sections@.subrange(0, i as int))),
        decreases sections@.len() - i,
    {
        let (label, body) = sections[i];
        let ghost before = out@;
        if i > 0 {
            out.push('\n');
        }
        out.push('#');
        out.push(' ');
        push_all(&mut out, label);
        out.push('\n');
        if !body.is_empty() {
            out.push('\n');
            push_all(&mut out, body);
        }
        proof {
            let pre = section_views(sections@.subrange(0, i as int));
            let post = section_views(sections@.subrange(0, i + 1));
            assert(post.drop_last() =~= pre);
            assert(post.last() == (label@, body@));
            assert(post.len() == i + 1);
            if body@.len() == 0 {
                assert(body@ =~= Seq::<char>::empty());
            }
            if i == 0 {
                assert(post.len() == 1);
                assert(post[0] == (label@, body@));
                assert(out@ =~= section_spec(label@, body@));
            } else {
                assert(out@ =~= before + seq!['\n'] + section_spec(label@, body@));
            }
            assert(out@ =~= sections_spec(post));
        }
        i = i + 1;
    }
    assert(sections@.subrange(0, sections@.len() as int) =~= sections@);
    out
}

/// A projected metadata block as text shows it: a namespace's fields with
/// their rendered values, or one rendered value when the block is not an
/// object.
#[derive(Debug, Clone)]
pub enum MetaBlock {
    Fields(Vec<(String, String)>),
    Value(String),
}

/// `    key: value` for each field.
pub open spec fn field_lines(fs: Seq<(String, String)>) -> Seq<Seq<char>>
    decreases fs.len(),
{
    if fs.len() == 0 {
        Seq::empty()
    } else {
        field_lines(fs.drop_last()).push(seq![' ', ' ', ' ', ' '] + fs.last().0@ + seq![':', ' '] + fs.last().1@)
    }
}

/// The lines of one namespace: `  @namespace`, then its fields (or its value)
/// indented under it.
pub open spec fn block_lines(ns: Seq<char>, b: MetaBlock) -> Seq<Seq<char>> {
    seq![seq![' ', ' '] + ns] + match b {
        MetaBlock::Fields(fs) => field_lines(fs@),
        MetaBlock::Value(v) => seq![seq![' ', ' ', ' ', ' '] + v@],
    }
}

/// The lines of a projected metadata object, namespace by namespace.
pub open spec fn metadata_lines(md: Seq<(String, MetaBlock)>) -> Seq<Seq<char>>
    decreases md.len(),
{
    if md.len() == 0 {
        Seq::empty()
    } else {
        metadata_lines(md.drop_last()) + block_lines(md.last().0@, md.last().1)
    }
}

/// Append one line.
fn push_line(lines: &mut Vec<String>, line: String)
    ensures
        views(final(lines)@) == views(old(lines)@).push(line@),
{
    lines.push(line);
    assert(views(lines@) =~= views(old(lines)@).push(line@));
}

/// Append a projected metadata object to `lines` as indented text:
/// `  @namespace`, then `    key: value` per field (or `    value`).
pub fn push_metadata_lines(lines: &mut Vec<String>, metadata: &Vec<(String, MetaBlock)>)
    ensures
        views(final(lines)@) == views(old(lines)@) + metadata_lines(metadata@),
{
    let mut i: usize = 0;
    while i < metadata.len()
        invariant
            i <= metadata@.len(),
            views(lines@) == views(old(lines)@) + metadata_lines(metadata@.subrange(0, i as int)),
        decreases metadata@.len() - i,
    {
        let ghost base = views(lines@);
        let (ns, block) = &metadata[i];
        let mut head = String::new();
        head.push(' ');
        head.push(' ');
        push_all(&mut head, ns.as_str());
        let ghost hv = head@;
        assert(hv =~= seq![' ', ' '] + ns@);
        push_line(lines, head);
        assert(views(lines@) =~= base + seq![hv] + field_lines(Seq::<(String, String)>::empty()));
        match block {
            MetaBlock::Fields(fs) => {
                let mut j: usize = 0;
                while j < fs.len()
                    invariant
                        j <= fs@.len(),
                        views(lines@) == base + seq![hv] + field_lines(fs@.subrange(0, j as int)),
                        hv == seq![' ', ' '] + ns@,
                    decreases fs@.len() - j,
                {
                    let (k, v) = &fs[j];
                    let mut line = String::new();
                    line.push(' ');
                    line.push(' ');
                    line.push(' ');
                    line.push(' ');
                    push_all(&mut line, k.as_str());
                    line.push(':');
                    line.push(' ');
                    push_all(&mut line, v.as_str());
                    proof {
                        assert(fs@.subrange(0, j + 1).drop_last() =~= fs@.subrange(0, j as int));
                        assert(line@ =~= seq![' ', ' ', ' ', ' '] + k@ + seq![':', ' '] + v@);
                    }
                    push_line(lines, line);
                    j = j + 1;
                }
                assert(fs@.subrange(0, j as int) =~= fs@);
                assert(views(lines@) =~= base + block_lines(ns@, *block));
            },
            MetaBlock::Value(v) => {
                let mut line = String::new();
                line.push(' ');
                line.push(' ');
                line.push(' ');
                line.push(' ');
                push_all(&mut line, v.as_str());
                let ghost lv = line@;
                assert(lv =~= seq![' ', ' ', ' ', ' '] + v@);
                push_line(lines, line);
                assert(views(lines@) =~= base + block_lines(ns@, *block));
            },
        }
        proof {
            let pre = metadata@.subrange(0, i as int);
            let post = metadata@.subrange(0, i + 1);
            assert(post.drop_last() =~= pre);
            assert(post.last() == metadata@[i as int]);
            assert(views(lines@) =~= views(old(lines)@) + metadata_lines(post));
        }
        i = i + 1;
    }
    assert(metadata@.subrange(0, metadata@.len() as int) =~= metadata@);
}

/// The view of a field list: each key with its rendered value.
pub open spec fn fields_view(fs: Seq<(String, String)>) -> Seq<(Seq<char>, Seq<char>)> {
    fs.map_values(|f: (String, String)| (f.0@, f.1@))
}

/// The view of a block: whether it holds fields, the fields, and the value.
pub open spec fn block_view(b: MetaBlock) -> (bool, Seq<(Seq<char>, Seq<char>)>, Seq<char>) {
    match b {
        MetaBlock::Fields(fs) => (true, fields_view(fs@), Seq::empty()),
        MetaBlock::Value(v) => (false, Seq::empty(), v@),
    }
}

/// The view of a projected metadata object, namespace by namespace.
pub open spec fn meta_view(md: Seq<(String, MetaBlock)>) -> Seq<(Seq<char>, (bool, Seq<(Seq<char>, Seq<char>)>, Seq<char>))> {
    md.map_values(|e: (String, MetaBlock)| (e.0@, block_view(e.1)))
}

/// The fields whose key is among `keep`, in order.
pub open spec fn kept_fields(fs: Seq<(Seq<char>, Seq<char>)>, keep: Seq<Seq<char>>) -> Seq<(Seq<char>, Seq<char>)>
    decreases fs.len(),
{
    if fs.len() == 0 {
        Seq::empty()
    } else if keep.contains(fs.last().0) {
        kept_fields(fs.drop_last(), keep).push(fs.last())
    } else {
        kept_fields(fs.drop_last(), keep)
    }
}

/// A metadata object narrowed to `namespaces` (none: every `@` block) and
/// `fields` (none: every key of a block). Only `@<graph>` blocks are kept, so
/// provenance drops out; under a field filter a block that is not an object,
/// or that keeps no field, drops out too.
pub open spec fn filter_spec(
    md: Seq<(Seq<char>, (bool, Seq<(Seq<char>, Seq<char>)>, Seq<char>))>,
    namespaces: Seq<Seq<char>>,
    fields: Seq<Seq<char>>,
) -> Seq<(Seq<char>, (bool, Seq<(Seq<char>, Seq<char>)>, Seq<char>))>
    decreases md.len(),
{
    if md.len() == 0 {
        Seq::empty()
    } else {
        let prev = filter_spec(md.drop_last(), namespaces, fields);
        let ns = md.last().0;
        let b = md.last().1;
        if !(ns.len() > 0 && ns[0] == '@') || (namespaces.len() > 0 && !namespaces.contains(ns)) {
            prev
        } else if fields.len() == 0 {
            prev.push((ns, b))
        } else if !b.0 || kept_fields(b.1, fields).len() == 0 {
            prev
        } else {
            prev.push((ns, (true, kept_fields(b.1, fields), Seq::empty())))
        }
    }
}

/// Whether `s` is among `list`.
fn listed_in(list: &Vec<String>, s: &String) -> (r: bool)
    ensures
        r == views(list@).contains(s@),
{
    let mut i: usize = 0;
    while i < list.len()
        invariant
            i <= list@.len(),
            forall|q: int| 0 <= q < i ==> list@[q]@ != s@,
        decreases list@.len() - i,
    {
        if str_eq(list[i].as_str(), s.as_str()) {
            assert(views(list@)[i as int] == s@);
            return true;
        }
        i = i + 1;
    }
    proof {
        if views(list@).contains(s@) {
            let q = choose|q: int| 0 <= q < views(list@).len() && views(list@)[q] == s@;
            assert(list@[q]@ == s@);
        }
    }
    false
}

/// The fields of `fs` whose key is among `keep`.
fn keep_fields(fs: &Vec<(String, String)>, keep: &Vec<String>) -> (r: Vec<(String, String)>)
    ensures
        fields_view(r@) == kept_fields(fields_view(fs@), views(keep@)),
{
    let mut r: Vec<(String, String)> = Vec::new();
    let mut i: usize = 0;
    while i < fs.len()
        invariant
            i <= fs@.len(),
            fields_view(r@) == kept_fields(fields_view(fs@.subrange(0, i as int)), views(keep@)),
        decreases fs@.len() - i,
    {
        let ghost before = fields_view(r@);
        let ghost sub = fields_view(fs@.subrange(0, i + 1));
        assert(sub.drop_last() =~= fields_view(fs@.subrange(0, i as int)));
        assert(sub.last() == (fs@[i as int].0@, fs@[i as int].1@));
        if listed_in(keep, &fs[i].0) {
            r.push((fs[i].0.clone(), fs[i].1.clone()));
            assert(fields_view(r@) =~= before.push(sub.last()));
        }
        i = i + 1;
    }
    assert(fs@.subrange(0, fs@.len() as int) =~= fs@);
    r
}

/// Narrow a projected metadata object to `namespaces` (empty: every `@`
/// block) and `fields` (empty: every key within a block). Keeps only
/// `@<graph>` blocks, so the `_graphs` provenance drops out. An empty result
/// means the object carries none of what was asked for.
pub fn filter_metadata(
    metadata: &Vec<(String, MetaBlock)>,
    namespaces: &Vec<String>,
    fields: &Vec<String>,
) -> (r: Vec<(String, MetaBlock)>)
    ensures
        meta_view(r@) == filter_spec(meta_view(metadata@), views(namespaces@), views(fields@)),
{
    let mut r: Vec<(String, MetaBlock)> = Vec::new();
    let mut i: usize = 0;
    while i < metadata.len()
        invariant
            i <= metadata@.len(),
            meta_view(r@) == filter_spec(meta_view(metadata@.subrange(0, i as int)), views(namespaces@), views(fields@)),
        decreases metadata@.len() - i,
    {
        let ghost before = meta_view(r@);
        let ghost sub = meta_view(metadata@.subrange(0, i + 1));
        assert(sub.drop_last() =~= meta_view(metadata@.subrange(0, i as int)));
        let (ns, block) = &metadata[i];
        assert(sub.last() == (ns@, block_view(*block)));
        let cs = crate::text::chars_of(ns.as_str());
        let lens = cs.len() > 0 && cs[0] == '@';
        if lens && (namespaces.len() == 0 || listed_in(namespaces, ns)) {
            if fields.len() == 0 {
                let copy = match block {
                    MetaBlock::Fields(fs) => {
                        let mut c: Vec<(String, String)> = Vec::new();
                        let mut j: usize = 0;
                        while j < fs.len()
                            invariant
                                j <= fs@.len(),
                                fields_view(c@) == fields_view(fs@.subrange(0, j as int)),
                            decreases fs@.len() - j,
                        {
                            c.push((fs[j].0.clone(), fs[j].1.clone()));
                            assert(fields_view(fs@.subrange(0, j + 1)) =~= fields_view(fs@.subrange(0, j as int)).push(
                                (fs@[j as int].0@, fs@[j as int].1@),
                            ));
                            assert(fields_view(c@) =~= fields_view(fs@.subrange(0, j + 1)));
                            j = j + 1;
                        }
                        assert(fs@.subrange(0, fs@.len() as int) =~= fs@);
                        MetaBlock::Fields(c)
                    },
                    MetaBlock::Value(v) => MetaBlock::Value(v.clone()),
                };
                r.push((ns.clone(), copy));
                assert(meta_view(r@) =~= before.push((ns@, block_view(*block))));
            } else {
                match block {
                    MetaBlock::Fields(fs) => {
                        let kept = keep_fields(fs, fields);
                        if kept.len() > 0 {
                            let ghost kv = fields_view(kept@);
                            r.push((ns.clone(), MetaBlock::Fields(kept)));
                            assert(meta_view(r@) =~= before.push((ns@, (true, kv, Seq::empty()))));
                        }
                    },
                    MetaBlock::Value(_) => {},
                }
            }
        }
        i = i + 1;
    }
    assert(metadata@.subrange(0, metadata@.len() as int) =~= metadata@);
    r
}

/// Whether a projected entry drops out: its narrowed metadata is empty while
/// a namespace or field filter asked for something. Without a filter an
/// empty object is kept.
pub fn filtered_out(metadata: &Vec<(String, MetaBlock)>, namespaces: &Vec<String>, fields: &Vec<String>) -> (r: bool)
    ensures
        r == (metadata@.len() == 0 && (namespaces@.len() > 0 || fields@.len() > 0)),
{
    metadata.len() == 0 && (namespaces.len() > 0 || fields.len() > 0)
}

/// Narrowing keeps only `@<graph>` blocks, and under a namespace filter only
/// the requested ones: provenance never survives a projection.
pub proof fn lemma_filter_keeps_only_lenses(
    md: Seq<(Seq<char>, (bool, Seq<(Seq<char>, Seq<char>)>, Seq<char>))>,
    namespaces: Seq<Seq<char>>,
    fields: Seq<Seq<char>>,
)
    ensures
        forall|k: int| 0 <= k < filter_spec(md, namespaces, fields).len() ==> {
            let ns = (#[trigger] filter_spec(md, namespaces, fields)[k]).0;
            &&& ns.len() > 0 && ns[0] == '@'
            &&& namespaces.len() > 0 ==> namespaces.contains(ns)
        },
    decreases md.len(),
{
    if md.len() > 0 {
        lemma_filter_keeps_only_lenses(md.drop_last(), namespaces, fields);
        let prev = filter_spec(md.drop_last(), namespaces, fields);
        let r = filter_spec(md, namespaces, fields);
        assert forall|k: int| 0 <= k < r.len() implies {
            let ns = (#[trigger] r[k]).0;
            &&& ns.len() > 0 && ns[0] == '@'
            &&& namespaces.len() > 0 ==> namespaces.contains(ns)
        } by {
            if k < prev.len() {
                assert(r[k] == prev[k]);
            } else {
                assert(r[k].0 == md.last().0);
            }
        }
    }
}

/// Whether an entry of a metadata object survives narrowing: an `@<graph>`
/// block, requested when namespaces are named, and, under a field filter, an
/// object that keeps at least one of the fields.
pub open spec fn entry_selected(
    e: (Seq<char>, (bool, Seq<(Seq<char>, Seq<char>)>, Seq<char>)),
    namespaces: Seq<Seq<char>>,
    fields: Seq<Seq<char>>,
) -> bool {
    &&& e.0.len() > 0 && e.0[0] == '@'
    &&& namespaces.len() == 0 || namespaces.contains(e.0)
    &&& fields.len() == 0 || (e.1.0 && kept_fields(e.1.1, fields).len() > 0)
}

/// A surviving entry as narrowing leaves it: whole without a field filter,
/// else its object restricted to the requested fields.
pub open spec fn entry_narrowed(
    e: (Seq<char>, (bool, Seq<(Seq<char>, Seq<char>)>, Seq<char>)),
    fields: Seq<Seq<char>>,
) -> (Seq<char>, (bool, Seq<(Seq<char>, Seq<char>)>, Seq<char>)) {
    if fields.len() == 0 {
        e
    } else {
        (e.0, (true, kept_fields(e.1.1, fields), Seq::empty()))
    }
}

/// Narrowing is a selection: every entry of the result is a selected entry of
/// the object, narrowed, and every selected entry of the object is in the
/// result, narrowed, in the object's order; nothing else is.
pub proof fn lemma_filter_selects(
    md: Seq<(Seq<char>, (bool, Seq<(Seq<char>, Seq<char>)>, Seq<char>))>,
    namespaces: Seq<Seq<char>>,
    fields: Seq<Seq<char>>,
)
    ensures
        forall|k: int|
            0 <= k < filter_spec(md, namespaces, fields).len() ==> exists|j: int|
                0 <= j < md.len() && entry_selected(#[trigger] md[j], namespaces, fields)
                    && #[trigger] filter_spec(md, namespaces, fields)[k] == entry_narrowed(md[j], fields),
        forall|j: int|
            0 <= j < md.len() && entry_selected(#[trigger] md[j], namespaces, fields) ==> filter_spec(
                md,
                namespaces,
                fields,
            ).contains(entry_narrowed(md[j], fields)),
    decreases md.len(),
{
    if md.len() > 0 {
        let p = md.drop_last();
        lemma_filter_selects(p, namespaces, fields);
        let prev = filter_spec(p, namespaces, fields);
        let r = filter_spec(md, namespaces, fields);
        let e = md.last();
        let last = md.len() - 1;
        assert(md[last] == e);
        let sel = entry_selected(e, namespaces, fields);
        if sel {
            assert(r == prev.push(entry_narrowed(e, fields)));
        } else {
            assert(r == prev);
        }
        assert forall|k: int| 0 <= k < r.len() implies exists|j: int|
            0 <= j < md.len() && entry_selected(#[trigger] md[j], namespaces, fields) && #[trigger] r[k]
                == entry_narrowed(md[j], fields) by {
            if k < prev.len() {
                assert(r[k] == prev[k]);
                let j = choose|j: int|
                    0 <= j < p.len() && entry_selected(#[trigger] p[j], namespaces, fields) && prev[k]
                        == entry_narrowed(p[j], fields);
                assert(md[j] == p[j]);
            } else {
                assert(md[last] == e);
            }
        }
        assert forall|j: int| 0 <= j < md.len() && entry_selected(#[trigger] md[j], namespaces, fields)
            implies r.contains(entry_narrowed(md[j], fields)) by {
            if j < p.len() {
                assert(md[j] == p[j]);
                assert(entry_selected(p[j], namespaces, fields));
                let k = choose|k: int| 0 <= k < prev.len() && prev[k] == entry_narrowed(p[j], fields);
                assert(r[k] == prev[k]);
            } else {
                assert(r[prev.len() as int] == entry_narrowed(e, fields));
            }
        }
    }
}

} // verus!
