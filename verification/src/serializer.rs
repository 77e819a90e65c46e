//! Document to canonical FTAI text.
//!
//! The output is a function of the document alone: the same document gives
//! the same text, every time.

use vstd::prelude::*;
use crate::ast::{self, Block, BlockModel, Document, DocumentModel, FtaiVersion, Section, SectionModel, Value, ValueModel};
use crate::error::Error;
use crate::text::{self, chars_of, push_char};

verus! {

/// A character of a quoted value as written between the quotes.
pub open spec fn escape_char(c: char) -> Seq<char> {
    if c == '"' {
        seq!['\\', '"']
    } else if c == '\\' {
        seq!['\\', '\\']
    } else if c == '\n' {
        seq!['\\', 'n']
    } else if c == '\r' {
        seq!['\\', 'r']
    } else if c == '\t' {
        seq!['\\', 't']
    } else {
        seq![c]
    }
}

/// The contents of a quoted value with `"`, `\`, newline, carriage return
/// and tab escaped.
pub open spec fn escape(s: Seq<char>) -> Seq<char>
    decreases s.len(),
{
    if s.len() == 0 {
        Seq::empty()
    } else {
        escape(s.drop_last()) + escape_char(s.last())
    }
}

/// A value as written after `key: `.
pub open spec fn value_text(v: ValueModel) -> Seq<char>
    decreases v,
{
    match v {
        ValueModel::Quoted(s) => seq!['"'] + escape(s) + seq!['"'],
        ValueModel::Unquoted(s) => s,
        ValueModel::List(items) => seq!['['] + values_joined(items) + seq![']'],
    }
}

/// List items written and separated by `, `.
pub open spec fn values_joined(items: Seq<ValueModel>) -> Seq<char>
    decreases items,
{
    if items.len() == 0 {
        Seq::empty()
    } else if items.len() == 1 {
        value_text(items[0])
    } else {
        values_joined(items.drop_last()) + seq![',', ' '] + value_text(items.last())
    }
}

/// Attribute lines, each indented by `pad`.
pub open spec fn attrs_text(attrs: Seq<(Seq<char>, ValueModel)>, pad: Seq<char>) -> Seq<char>
    decreases attrs.len(),
{
    if attrs.len() == 0 {
        Seq::empty()
    } else {
        attrs_text(attrs.drop_last(), pad) + pad + attrs.last().0 + seq![':', ' '] + value_text(
            attrs.last().1,
        ) + seq!['\n']
    }
}

/// A block written at indentation `pad`.
pub open spec fn block_text(b: BlockModel, pad: Seq<char>) -> Seq<char>
    decreases b, 1nat,
{
    match b {
        BlockModel::Section(s) => section_text(s, pad),
        BlockModel::Narrative { text, .. } => "---\n"@ + text + (if text.len() > 0 && text.last()
            == '\n' {
            Seq::empty()
        } else {
            seq!['\n']
        }) + "---\n"@,
    }
}

/// A section: `@tag`, its attributes, its children one level deeper, `@end`.
pub open spec fn section_text(s: SectionModel, pad: Seq<char>) -> Seq<char>
    decreases s, 0nat,
{
    pad + seq!['@'] + s.tag + seq!['\n'] + attrs_text(s.attributes, pad) + blocks_text(
        s.children,
        pad + seq![' ', ' '],
    ) + pad + "@end\n"@
}

/// Blocks written one after another.
pub open spec fn blocks_text(bs: Seq<BlockModel>, pad: Seq<char>) -> Seq<char>
    decreases bs, 0nat,
{
    if bs.len() == 0 {
        Seq::empty()
    } else {
        blocks_text(bs.drop_last(), pad) + block_text(bs.last(), pad)
    }
}

/// The canonical text of a document.
pub open spec fn document_text(d: DocumentModel) -> Seq<char> {
    "@ftai v2.0"@ + (match d.schema {
        Some(s) => seq![' '] + s,
        None => Seq::empty(),
    }) + seq!['\n'] + blocks_text(d.blocks, Seq::empty())
}

/// A section with its span, and those of everything in it, set to the
/// synthetic span, and the inline tags of its narratives dropped: what the
/// written text is made from.
pub open spec fn strip_section(s: SectionModel) -> SectionModel
    decreases s, 0nat,
{
    SectionModel {
        tag: s.tag,
        attributes: s.attributes,
        children: strip_blocks(s.children),
        span: crate::grammar::synthetic_span(),
    }
}

pub open spec fn strip_block(b: BlockModel) -> BlockModel
    decreases b, 1nat,
{
    match b {
        BlockModel::Section(s) => BlockModel::Section(strip_section(s)),
        BlockModel::Narrative { text, .. } => BlockModel::Narrative {
            text,
            inline_tags: Seq::empty(),
            span: crate::grammar::synthetic_span(),
        },
    }
}

pub open spec fn strip_blocks(bs: Seq<BlockModel>) -> Seq<BlockModel>
    decreases bs, 0nat,
{
    if bs.len() == 0 {
        Seq::empty()
    } else {
        strip_blocks(bs.drop_last()).push(strip_block(bs.last()))
    }
}

pub open spec fn strip_document(d: DocumentModel) -> DocumentModel {
    DocumentModel { version: d.version, schema: d.schema, blocks: strip_blocks(d.blocks) }
}

proof fn lemma_strip_section(s: SectionModel, pad: Seq<char>)
    ensures
        section_text(strip_section(s), pad) == section_text(s, pad),
    decreases s, 0nat,
{
    lemma_strip_blocks(s.children, pad + seq![' ', ' ']);
}

proof fn lemma_strip_block(b: BlockModel, pad: Seq<char>)
    ensures
        block_text(strip_block(b), pad) == block_text(b, pad),
    decreases b, 1nat,
{
    match b {
        BlockModel::Section(s) => lemma_strip_section(s, pad),
        BlockModel::Narrative { .. } => {},
    }
}

proof fn lemma_strip_blocks(bs: Seq<BlockModel>, pad: Seq<char>)
    ensures
        blocks_text(strip_blocks(bs), pad) == blocks_text(bs, pad),
    decreases bs, 0nat,
{
    if bs.len() > 0 {
        let dl = bs.drop_last();
        lemma_strip_blocks(dl, pad);
        lemma_strip_block(bs.last(), pad);
        let sb = strip_blocks(bs);
        assert(sb.drop_last() =~= strip_blocks(dl));
        assert(sb.last() == strip_block(bs.last()));
    }
}

/// The text of a document is that of its stripped form.
pub proof fn lemma_strip_document(d: DocumentModel)
    ensures
        document_text(strip_document(d)) == document_text(d),
{
    lemma_strip_blocks(d.blocks, Seq::empty());
}

/// The texts of the narratives in a block, at any depth, in document order.
pub open spec fn block_narrative_texts(b: BlockModel) -> Seq<Seq<char>>
    decreases b, 1nat,
{
    match b {
        BlockModel::Section(s) => section_narrative_texts(s),
        BlockModel::Narrative { text, .. } => seq![text],
    }
}

pub open spec fn section_narrative_texts(s: SectionModel) -> Seq<Seq<char>>
    decreases s, 0nat,
{
    narrative_texts(s.children)
}

pub open spec fn narrative_texts(bs: Seq<BlockModel>) -> Seq<Seq<char>>
    decreases bs, 0nat,
{
    if bs.len() == 0 {
        Seq::empty()
    } else {
        narrative_texts(bs.drop_last()) + block_narrative_texts(bs.last())
    }
}

/// `w` occurs somewhere in `s`.
pub open spec fn contains(s: Seq<char>, w: Seq<char>) -> bool {
    exists|i: int| 0 <= i && i + w.len() <= s.len() && #[trigger] s.subrange(i, i + w.len()) == w
}

proof fn lemma_contains_right(a: Seq<char>, b: Seq<char>, w: Seq<char>)
    requires
        contains(a, w),
    ensures
        contains(a + b, w),
{
    let i = choose|i: int| 0 <= i && i + w.len() <= a.len() && #[trigger] a.subrange(i, i + w.len()) == w;
    assert((a + b).subrange(i, i + w.len()) =~= a.subrange(i, i + w.len()));
}

proof fn lemma_contains_left(a: Seq<char>, b: Seq<char>, w: Seq<char>)
    requires
        contains(b, w),
    ensures
        contains(a + b, w),
{
    let i = choose|i: int| 0 <= i && i + w.len() <= b.len() && #[trigger] b.subrange(i, i + w.len()) == w;
    assert((a + b).subrange(a.len() + i, a.len() + i + w.len()) =~= b.subrange(i, i + w.len()));
}

proof fn lemma_contains_prefix(a: Seq<char>, b: Seq<char>)
    ensures
        contains(a + b, a),
{
    let i: int = 0;
    assert((a + b).subrange(i, i + a.len()) =~= a);
}

/// Every narrative of a block is written, fenced by `---`, in its text.
proof fn lemma_block_keeps_narratives(b: BlockModel, pad: Seq<char>)
    ensures
        forall|k: int| 0 <= k < block_narrative_texts(b).len() ==> contains(
            block_text(b, pad),
            "---\n"@ + #[trigger] block_narrative_texts(b)[k],
        ),
    decreases b, 1nat,
{
    match b {
        BlockModel::Section(s) => {
            lemma_section_keeps_narratives(s, pad);
            assert(block_narrative_texts(b) == section_narrative_texts(s));
            assert(block_text(b, pad) == section_text(s, pad));
        },
        BlockModel::Narrative { text, .. } => {
            let rest = (if text.len() > 0 && text.last() == '\n' {
                Seq::empty()
            } else {
                seq!['\n']
            }) + "---\n"@;
            assert(block_text(b, pad) =~= ("---\n"@ + text) + rest);
            lemma_contains_prefix("---\n"@ + text, rest);
        },
    }
}

proof fn lemma_section_keeps_narratives(s: SectionModel, pad: Seq<char>)
    ensures
        forall|k: int| 0 <= k < section_narrative_texts(s).len() ==> contains(
            section_text(s, pad),
            "---\n"@ + #[trigger] section_narrative_texts(s)[k],
        ),
    decreases s, 0nat,
{
    let pad2 = pad + seq![' ', ' '];
    lemma_blocks_keep_narratives(s.children, pad2);
    let head = pad + seq!['@'] + s.tag + seq!['\n'] + attrs_text(s.attributes, pad);
    let mid = blocks_text(s.children, pad2);
    let tail = pad + "@end\n"@;
    assert(section_text(s, pad) =~= head + mid + tail);
    assert forall|k: int| 0 <= k < section_narrative_texts(s).len() implies contains(
        section_text(s, pad),
        "---\n"@ + #[trigger] section_narrative_texts(s)[k],
    ) by {
        let w = "---\n"@ + narrative_texts(s.children)[k];
        lemma_contains_left(head, mid, w);
        lemma_contains_right(head + mid, tail, w);
    }
}

proof fn lemma_blocks_keep_narratives(bs: Seq<BlockModel>, pad: Seq<char>)
    ensures
        forall|k: int| 0 <= k < narrative_texts(bs).len() ==> contains(
            blocks_text(bs, pad),
            "---\n"@ + #[trigger] narrative_texts(bs)[k],
        ),
    decreases bs, 0nat,
{
    if bs.len() > 0 {
        let dl = bs.drop_last();
        let b = bs.last();
        lemma_blocks_keep_narratives(dl, pad);
        lemma_block_keeps_narratives(b, pad);
        let a = narrative_texts(dl);
        let e = block_narrative_texts(b);
        assert(narrative_texts(bs) == a + e);
        assert forall|k: int| 0 <= k < narrative_texts(bs).len() implies contains(
            blocks_text(bs, pad),
            "---\n"@ + #[trigger] narrative_texts(bs)[k],
        ) by {
            if k < a.len() {
                assert(narrative_texts(bs)[k] == a[k]);
                lemma_contains_right(blocks_text(dl, pad), block_text(b, pad), "---\n"@ + a[k]);
            } else {
                assert(narrative_texts(bs)[k] == e[k - a.len()]);
                lemma_contains_left(blocks_text(dl, pad), block_text(b, pad), "---\n"@ + e[k - a.len()]);
            }
        }
    }
}

/// Every narrative of a document, at any depth, is written in its text.
pub proof fn lemma_document_keeps_narratives(d: DocumentModel)
    ensures
        forall|k: int| 0 <= k < narrative_texts(d.blocks).len() ==> contains(
            document_text(d),
            "---\n"@ + #[trigger] narrative_texts(d.blocks)[k],
        ),
{
    lemma_blocks_keep_narratives(d.blocks, Seq::empty());
    let head = "@ftai v2.0"@ + (match d.schema {
        Some(s) => seq![' '] + s,
        None => Seq::empty(),
    }) + seq!['\n'];
    assert(document_text(d) == head + blocks_text(d.blocks, Seq::empty()));
    assert forall|k: int| 0 <= k < narrative_texts(d.blocks).len() implies contains(
        document_text(d),
        "---\n"@ + #[trigger] narrative_texts(d.blocks)[k],
    ) by {
        lemma_contains_left(head, blocks_text(d.blocks, Seq::empty()), "---\n"@ + narrative_texts(d.blocks)[k]);
    }
}

fn push_str(out: &mut String, s: &str)
    ensures
        final(out)@ == old(out)@ + s@,
{
    out.append(s);
}

proof fn lemma_literals()
    ensures
        "\""@ == seq!['"'],
        "\\\""@ == seq!['\\', '"'],
        "\\\\"@ == seq!['\\', '\\'],
        "\\n"@ == seq!['\\', 'n'],
        "\\r"@ == seq!['\\', 'r'],
        "\\t"@ == seq!['\\', 't'],
        "["@ == seq!['['],
        "]"@ == seq![']'],
        ", "@ == seq![',', ' '],
{
    reveal_strlit("\"");
    reveal_strlit("\\\"");
    reveal_strlit("\\\\");
    reveal_strlit("\\n");
    reveal_strlit("\\r");
    reveal_strlit("\\t");
    reveal_strlit("[");
    reveal_strlit("]");
    reveal_strlit(", ");
    assert("\""@ =~= seq!['"']);
    assert("\\\""@ =~= seq!['\\', '"']);
    assert("\\\\"@ =~= seq!['\\', '\\']);
    assert("\\n"@ =~= seq!['\\', 'n']);
    assert("\\r"@ =~= seq!['\\', 'r']);
    assert("\\t"@ =~= seq!['\\', 't']);
    assert("["@ =~= seq!['[']);
    assert("]"@ =~= seq![']']);
    assert(", "@ =~= seq![',', ' ']);
}

fn serialize_value_inline(v: &Value, out: &mut String)
    ensures
        final(out)@ == old(out)@ + value_text(v@),
    decreases v,
{
    proof {
        lemma_literals();
    }
    match v {
        Value::Quoted(s) => {
            let ghost start = out@;
            push_str(out, "\"");
            let cs = chars_of(s.as_str());
            let mut i: usize = 0;
            while i < cs.len()
                invariant
                    cs@ == s@,
                    i <= cs@.len(),
                    out@ == start + seq!['"'] + escape(cs@.take(i as int)),
                decreases cs.len() - i,
            {
                let c = cs[i];
                proof {
                    lemma_literals();
                    let t = cs@.take(i + 1);
                    assert(t.drop_last() =~= cs@.take(i as int));
                    assert(t.last() == c);
                    assert(escape(t) == escape(cs@.take(i as int)) + escape_char(c));
                }
                if c == '"' {
                    push_str(out, "\\\"");
                } else if c == '\\' {
                    push_str(out, "\\\\");
                } else if c == '\n' {
                    push_str(out, "\\n");
                } else if c == '\r' {
                    push_str(out, "\\r");
                } else if c == '\t' {
                    push_str(out, "\\t");
                } else {
                    push_char(out, c);
                }
                assert(out@ =~= start + seq!['"'] + escape(cs@.take(i + 1)));
                i = i + 1;
            }
            assert(cs@.take(cs.len() as int) =~= s@);
            push_str(out, "\"");
        },
        Value::Unquoted(s) => {
            push_str(out, s.as_str());
        },
        Value::List(items) => {
            let ghost start = out@;
            let ghost m = ast::values_model(items@);
            proof {
                ast::lemma_values_model_len(items@);
            }
            push_str(out, "[");
            let mut i: usize = 0;
            while i < items.len()
                invariant
                    *v == Value::List(*items),
                    m == ast::values_model(items@),
                    m.len() == items@.len(),
                    i <= items.len(),
                    out@ == start + seq!['['] + values_joined(m.take(i as int)),
                decreases items.len() - i,
            {
                proof {
                    lemma_literals();
                    assert(decreases_to!(*v => (*v)->List_0));
                    assert(decreases_to!(*items => items[i as int]));
                    ast::lemma_values_model_index(items@, i as int);
                    assert(m.take(i + 1).drop_last() =~= m.take(i as int));
                }
                if i > 0 {
                    push_str(out, ", ");
                }
                serialize_value_inline(&items[i], out);
                proof {
                    if i == 0 {
                        assert(out@ =~= start + seq!['['] + values_joined(m.take(1)));
                    } else {
                        let t = m.take(i + 1);
                        assert(t.len() == i + 1);
                        assert(t.last() == m[i as int]);
                        assert(values_joined(t) == values_joined(t.drop_last()) + seq![',', ' '] + value_text(t.last()));
                        assert(out@ =~= start + seq!['['] + values_joined(m.take(i + 1)));
                    }
                }
                i = i + 1;
            }
            assert(m.take(items.len() as int) =~= m);
            push_str(out, "]");
        },
    }
}

proof fn lemma_more_literals()
    ensures
        "---\n"@ == seq!['-', '-', '-', '\n'],
        "\n"@ == seq!['\n'],
        "@"@ == seq!['@'],
        ": "@ == seq![':', ' '],
        "  "@ == seq![' ', ' '],
        " "@ == seq![' '],
{
    reveal_strlit("---\n");
    reveal_strlit("\n");
    reveal_strlit("@");
    reveal_strlit(": ");
    reveal_strlit("  ");
    reveal_strlit(" ");
    assert("---\n"@ =~= seq!['-', '-', '-', '\n']);
    assert("\n"@ =~= seq!['\n']);
    assert("@"@ =~= seq!['@']);
    assert(": "@ =~= seq![':', ' ']);
    assert("  "@ =~= seq![' ', ' ']);
    assert(" "@ =~= seq![' ']);
}

fn ends_with_newline(s: &str) -> (b: bool)
    ensures
        b == (s@.len() > 0 && s@.last() == '\n'),
{
    let cs = chars_of(s);
    cs.len() > 0 && cs[cs.len() - 1] == '\n'
}

fn serialize_block(block: &Block, pad: &str, out: &mut String)
    ensures
        final(out)@ == old(out)@ + block_text(block@, pad@),
    decreases block, 1nat,
{
    match block {
        Block::Section(s) => {
            proof {
                assert(decreases_to!(*block => (*block)->Section_0));
            }
            serialize_section(s, pad, out);
        },
        Block::Narrative { text, .. } => {
            proof {
                lemma_more_literals();
            }
            push_str(out, "---\n");
            push_str(out, text.as_str());
            if !ends_with_newline(text.as_str()) {
                push_char(out, '\n');
            }
            push_str(out, "---\n");
        },
    }
}

fn serialize_section(s: &Section, pad: &str, out: &mut String)
    ensures
        final(out)@ == old(out)@ + section_text(s@, pad@),
    decreases s, 0nat,
{
    proof {
        lemma_more_literals();
    }
    let ghost start = out@;
    push_str(out, pad);
    push_char(out, '@');
    push_str(out, s.tag.as_str());
    push_char(out, '\n');
    let ghost head = out@;
    let ghost am = ast::attributes_model(s.attributes@);
    let mut i: usize = 0;
    while i < s.attributes.len()
        invariant
            i <= s.attributes@.len(),
            am == ast::attributes_model(s.attributes@),
            out@ == head + attrs_text(am.take(i as int), pad@),
        decreases s.attributes.len() - i,
    {
        proof {
            lemma_more_literals();
            assert(am.take(i + 1).drop_last() =~= am.take(i as int));
        }
        let (k, v) = &s.attributes[i];
        push_str(out, pad);
        push_str(out, k.as_str());
        push_str(out, ": ");
        serialize_value_inline(v, out);
        push_char(out, '\n');
        assert(out@ =~= head + attrs_text(am.take(i + 1), pad@));
        i = i + 1;
    }
    assert(am.take(s.attributes.len() as int) =~= am);
    let mut child_pad = String::from_str(pad);
    push_str(&mut child_pad, "  ");
    let ghost mid = out@;
    let ghost cm = ast::blocks_model(s.children@);
    proof {
        ast::lemma_blocks_model_len(s.children@);
    }
    let mut j: usize = 0;
    while j < s.children.len()
        invariant
            j <= s.children@.len(),
            cm == ast::blocks_model(s.children@),
            cm.len() == s.children@.len(),
            child_pad@ == pad@ + seq![' ', ' '],
            out@ == mid + blocks_text(cm.take(j as int), child_pad@),
        decreases s.children.len() - j,
    {
        proof {
            assert(decreases_to!(*s => s.children));
            assert(decreases_to!(s.children => s.children[j as int]));
            ast::lemma_blocks_model_index(s.children@, j as int);
            assert(cm.take(j + 1).drop_last() =~= cm.take(j as int));
        }
        serialize_block(&s.children[j], child_pad.as_str(), out);
        assert(out@ =~= mid + blocks_text(cm.take(j + 1), child_pad@));
        j = j + 1;
    }
    assert(cm.take(s.children.len() as int) =~= cm);
    push_str(out, pad);
    push_str(out, "@end\n");
    assert(out@ =~= start + section_text(s@, pad@));
}

/// Serializes a document to canonical FTAI text.
///
/// Writing into an in-memory string cannot fail, so the result is always `Ok`.
pub fn serialize_document(doc: &Document) -> (r: Result<String, Error>)
    ensures
        r matches Ok(text) && text@ == document_text(doc@),
{
    proof {
        lemma_more_literals();
    }
    let mut out = String::new();
    let v = match doc.version {
        FtaiVersion::V2_0 => "v2.0",
    };
    push_str(&mut out, "@ftai ");
    push_str(&mut out, v);
    match &doc.schema {
        Some(s) => {
            push_char(&mut out, ' ');
            push_str(&mut out, s.as_str());
        },
        None => {},
    }
    push_char(&mut out, '\n');
    proof {
        reveal_strlit("@ftai ");
        reveal_strlit("v2.0");
        reveal_strlit("@ftai v2.0");
        assert("@ftai "@ + "v2.0"@ =~= "@ftai v2.0"@);
    }
    let ghost head = out@;
    let ghost bm = ast::blocks_model(doc.blocks@);
    proof {
        ast::lemma_blocks_model_len(doc.blocks@);
    }
    let mut i: usize = 0;
    while i < doc.blocks.len()
        invariant
            i <= doc.blocks@.len(),
            bm == ast::blocks_model(doc.blocks@),
            bm.len() == doc.blocks@.len(),
            out@ == head + blocks_text(bm.take(i as int), Seq::empty()),
        decreases doc.blocks.len() - i,
    {
        proof {
            ast::lemma_blocks_model_index(doc.blocks@, i as int);
            assert(bm.take(i + 1).drop_last() =~= bm.take(i as int));
            reveal_strlit("");
            assert(""@ =~= Seq::<char>::empty());
        }
        serialize_block(&doc.blocks[i], "", &mut out);
        assert(out@ =~= head + blocks_text(bm.take(i + 1), Seq::empty()));
        i = i + 1;
    }
    assert(bm.take(doc.blocks.len() as int) =~= bm);
    assert(out@ =~= document_text(doc@));
    Ok(out)
}

} // verus!
