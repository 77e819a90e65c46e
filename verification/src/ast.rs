//! AST types for FTAI documents and their mathematical models.

use vstd::prelude::*;
use crate::text::{self, push_char, push_decimal};

verus! {

/// FTAI format version. v1.0 is unsupported (rejected at parse time).
#[derive(Debug, Clone, Copy, PartialEq, Eq, Structural)]
pub enum FtaiVersion {
    /// FTAI v2.0 (the only supported version).
    V2_0,
}

/// Source span for diagnostics. Lines and columns are 1-based.
#[derive(Debug, Clone, Copy, PartialEq, Eq, Structural)]
pub struct Span {
    /// 1-based line of the start of the span.
    pub start_line: usize,
    /// 1-based column of the start.
    pub start_col: usize,
    /// 1-based line of the end (inclusive).
    pub end_line: usize,
    /// 1-based column of the end (exclusive).
    pub end_col: usize,
}

impl Span {
    /// Synthetic span used when source location is irrelevant.
    pub fn synthetic() -> (s: Self)
        ensures
            s == (Span { start_line: 0, start_col: 0, end_line: 0, end_col: 0 }),
    {
        Span { start_line: 0, start_col: 0, end_line: 0, end_col: 0 }
    }

    /// `start_line:start_col-end_line:end_col`.
    pub fn display(&self) -> (s: String)
        ensures
            s@ == span_text(*self),
    {
        let mut s = String::new();
        push_decimal(&mut s, self.start_line);
        push_char(&mut s, ':');
        push_decimal(&mut s, self.start_col);
        push_char(&mut s, '-');
        push_decimal(&mut s, self.end_line);
        push_char(&mut s, ':');
        push_decimal(&mut s, self.end_col);
        s
    }
}

/// How a span is displayed: `start_line:start_col-end_line:end_col`.
pub open spec fn span_text(s: Span) -> Seq<char> {
    text::decimal(s.start_line as nat) + seq![':'] + text::decimal(s.start_col as nat) + seq!['-']
        + text::decimal(s.end_line as nat) + seq![':'] + text::decimal(s.end_col as nat)
}

/// Attribute value: quoted string, unquoted token, or list.
#[derive(Debug, PartialEq)]
pub enum Value {
    /// Quoted string (literal contents, escapes resolved).
    Quoted(String),
    /// Unquoted token.
    Unquoted(String),
    /// Bracketed list: `[a, b, c]`.
    List(Vec<Value>),
}

/// Model of a [`Value`].
pub enum ValueModel {
    Quoted(Seq<char>),
    Unquoted(Seq<char>),
    List(Seq<ValueModel>),
}

pub open spec fn value_model(v: Value) -> ValueModel
    decreases v,
{
    match v {
        Value::Quoted(s) => ValueModel::Quoted(s@),
        Value::Unquoted(s) => ValueModel::Unquoted(s@),
        Value::List(items) => ValueModel::List(values_model(items@)),
    }
}

pub open spec fn values_model(s: Seq<Value>) -> Seq<ValueModel>
    decreases s,
{
    if s.len() == 0 {
        Seq::empty()
    } else {
        values_model(s.drop_last()).push(value_model(s.last()))
    }
}

impl View for Value {
    type V = ValueModel;

    open spec fn view(&self) -> ValueModel {
        value_model(*self)
    }
}


/// `[name:value]` inline tag within narrative text.
#[derive(Debug, PartialEq)]
pub struct InlineTag {
    /// Tag name (left of colon).
    pub name: String,
    /// Tag value (right of colon, surrounding whitespace trimmed).
    pub value: String,
}

/// Model of an [`InlineTag`].
pub struct InlineTagModel {
    pub name: Seq<char>,
    pub value: Seq<char>,
}

impl View for InlineTag {
    type V = InlineTagModel;

    open spec fn view(&self) -> InlineTagModel {
        InlineTagModel { name: self.name@, value: self.value@ }
    }
}

pub open spec fn inline_tags_model(s: Seq<InlineTag>) -> Seq<InlineTagModel> {
    Seq::new(s.len(), |i: int| s[i]@)
}

/// One block in a document: either a tagged section or freeform narrative.
#[derive(Debug, PartialEq)]
pub enum Block {
    /// `@tag` ... `@end` section with attributes and nested children.
    Section(Section),
    /// Freeform narrative text (separated by `---` from other blocks).
    Narrative {
        /// Verbatim narrative text.
        text: String,
        /// Inline `[name:value]` tags found in `text`.
        inline_tags: Vec<InlineTag>,
        /// Source span.
        span: Span,
    },
}

/// `@tag ... @end` section with attributes and child blocks.
#[derive(Debug, PartialEq)]
pub struct Section {
    /// Tag name without leading `@`.
    pub tag: String,
    /// Key-value attributes in source order (duplicates allowed).
    pub attributes: Vec<(String, Value)>,
    /// Nested child blocks.
    pub children: Vec<Block>,
    /// Source span.
    pub span: Span,
}

/// Model of a [`Block`].
pub enum BlockModel {
    Section(SectionModel),
    Narrative { text: Seq<char>, inline_tags: Seq<InlineTagModel>, span: Span },
}

/// Model of a [`Section`].
pub struct SectionModel {
    pub tag: Seq<char>,
    pub attributes: Seq<(Seq<char>, ValueModel)>,
    pub children: Seq<BlockModel>,
    pub span: Span,
}

pub open spec fn attributes_model(s: Seq<(String, Value)>) -> Seq<(Seq<char>, ValueModel)> {
    Seq::new(s.len(), |i: int| (s[i].0@, s[i].1@))
}

pub open spec fn block_model(b: Block) -> BlockModel
    decreases b,
{
    match b {
        Block::Section(s) => BlockModel::Section(section_model(s)),
        Block::Narrative { text, inline_tags, span } => BlockModel::Narrative {
            text: text@,
            inline_tags: inline_tags_model(inline_tags@),
            span,
        },
    }
}

pub open spec fn section_model(s: Section) -> SectionModel
    decreases s,
{
    SectionModel {
        tag: s.tag@,
        attributes: attributes_model(s.attributes@),
        children: blocks_model(s.children@),
        span: s.span,
    }
}

pub open spec fn blocks_model(s: Seq<Block>) -> Seq<BlockModel>
    decreases s,
{
    if s.len() == 0 {
        Seq::empty()
    } else {
        blocks_model(s.drop_last()).push(block_model(s.last()))
    }
}

impl View for Block {
    type V = BlockModel;

    open spec fn view(&self) -> BlockModel {
        block_model(*self)
    }
}

impl View for Section {
    type V = SectionModel;

    open spec fn view(&self) -> SectionModel {
        section_model(*self)
    }
}

/// Top-level FTAI document.
#[derive(Debug, PartialEq)]
pub struct Document {
    /// Format version declared by the `@ftai` header.
    pub version: FtaiVersion,
    /// Optional schema name from the `@ftai` header line.
    pub schema: Option<String>,
    /// All blocks in source order.
    pub blocks: Vec<Block>,
}

impl Default for FtaiVersion {
    fn default() -> (v: Self)
        ensures
            v == FtaiVersion::V2_0,
    {
        FtaiVersion::V2_0
    }
}

impl Default for Document {
    /// An empty v2.0 document with no schema and no blocks.
    fn default() -> (d: Self)
        ensures
            d@.version == FtaiVersion::V2_0,
            d@.schema is None,
            d@.blocks.len() == 0,
    {
        Document { version: FtaiVersion::V2_0, schema: None, blocks: Vec::new() }
    }
}

/// Model of a [`Document`].
pub struct DocumentModel {
    pub version: FtaiVersion,
    pub schema: Option<Seq<char>>,
    pub blocks: Seq<BlockModel>,
}

pub open spec fn opt_string_model(o: Option<String>) -> Option<Seq<char>> {
    match o {
        Some(s) => Some(s@),
        None => None,
    }
}

impl View for Document {
    type V = DocumentModel;

    open spec fn view(&self) -> DocumentModel {
        DocumentModel {
            version: self.version,
            schema: opt_string_model(self.schema),
            blocks: blocks_model(self.blocks@),
        }
    }
}


pub proof fn lemma_values_model_len(s: Seq<Value>)
    ensures
        values_model(s).len() == s.len(),
    decreases s.len(),
{
    if s.len() > 0 {
        lemma_values_model_len(s.drop_last());
    }
}

pub proof fn lemma_values_model_index(s: Seq<Value>, i: int)
    requires
        0 <= i < s.len(),
    ensures
        values_model(s).len() == s.len(),
        values_model(s)[i] == value_model(s[i]),
    decreases s.len(),
{
    lemma_values_model_len(s);
    if i < s.len() - 1 {
        lemma_values_model_index(s.drop_last(), i);
    }
}

pub proof fn lemma_values_model_push(s: Seq<Value>, v: Value)
    ensures
        values_model(s.push(v)) == values_model(s).push(value_model(v)),
{
    assert(s.push(v).drop_last() =~= s);
}

pub proof fn lemma_blocks_model_len(s: Seq<Block>)
    ensures
        blocks_model(s).len() == s.len(),
    decreases s.len(),
{
    if s.len() > 0 {
        lemma_blocks_model_len(s.drop_last());
    }
}

pub proof fn lemma_blocks_model_index(s: Seq<Block>, i: int)
    requires
        0 <= i < s.len(),
    ensures
        blocks_model(s).len() == s.len(),
        blocks_model(s)[i] == block_model(s[i]),
    decreases s.len(),
{
    lemma_blocks_model_len(s);
    if i < s.len() - 1 {
        lemma_blocks_model_index(s.drop_last(), i);
    }
}

pub proof fn lemma_blocks_model_push(s: Seq<Block>, b: Block)
    ensures
        blocks_model(s.push(b)) == blocks_model(s).push(block_model(b)),
{
    assert(s.push(b).drop_last() =~= s);
}

fn clone_string(s: &String) -> (r: String)
    ensures
        r@ == s@,
{
    s.clone()
}

fn clone_value(v: &Value) -> (r: Value)
    ensures
        r@ == v@,
    decreases v,
{
    match v {
        Value::Quoted(s) => Value::Quoted(clone_string(s)),
        Value::Unquoted(s) => Value::Unquoted(clone_string(s)),
        Value::List(items) => {
            let mut out: Vec<Value> = Vec::new();
            let mut i: usize = 0;
            while i < items.len()
                invariant
                    *v == Value::List(*items),
                    i <= items.len(),
                    values_model(out@) == values_model(items@.take(i as int)),
                decreases items.len() - i,
            {
                proof {
                    assert(decreases_to!(*v => (*v)->List_0));
                    assert(decreases_to!(*items => items[i as int]));
                }
                let c = clone_value(&items[i]);
                proof {
                    lemma_values_model_push(out@, c);
                    lemma_values_model_push(items@.take(i as int), items@[i as int]);
                    assert(items@.take(i as int).push(items@[i as int]) =~= items@.take(i + 1));
                }
                out.push(c);
                i = i + 1;
            }
            assert(items@.take(items.len() as int) =~= items@);
            Value::List(out)
        },
    }
}

impl Clone for Value {
    fn clone(&self) -> (r: Value)
        ensures
            r@ == self@,
    {
        clone_value(self)
    }
}


fn clone_inline_tags(tags: &Vec<InlineTag>) -> (r: Vec<InlineTag>)
    ensures
        inline_tags_model(r@) == inline_tags_model(tags@),
{
    let mut out: Vec<InlineTag> = Vec::new();
    let mut i: usize = 0;
    while i < tags.len()
        invariant
            i <= tags.len(),
            out@.len() == i,
            forall|j: int| 0 <= j < i ==> #[trigger] out@[j]@ == tags@[j]@,
        decreases tags.len() - i,
    {
        out.push(tags[i].clone());
        i = i + 1;
    }
    assert(inline_tags_model(out@) =~= inline_tags_model(tags@));
    out
}

impl Clone for InlineTag {
    fn clone(&self) -> (r: InlineTag)
        ensures
            r@ == self@,
    {
        InlineTag { name: clone_string(&self.name), value: clone_string(&self.value) }
    }
}

fn clone_attributes(attrs: &Vec<(String, Value)>) -> (r: Vec<(String, Value)>)
    ensures
        attributes_model(r@) == attributes_model(attrs@),
{
    let mut out: Vec<(String, Value)> = Vec::new();
    let mut i: usize = 0;
    while i < attrs.len()
        invariant
            i <= attrs.len(),
            out@.len() == i,
            forall|j: int|
                0 <= j < i ==> #[trigger] out@[j].0@ == attrs@[j].0@ && out@[j].1@ == attrs@[j].1@,
        decreases attrs.len() - i,
    {
        let k = clone_string(&attrs[i].0);
        let v = clone_value(&attrs[i].1);
        out.push((k, v));
        i = i + 1;
    }
    assert(attributes_model(out@) =~= attributes_model(attrs@));
    out
}

fn clone_block(b: &Block) -> (r: Block)
    ensures
        r@ == b@,
    decreases b, 1nat,
{
    match b {
        Block::Section(s) => {
            proof {
                assert(decreases_to!(*b => (*b)->Section_0));
            }
            Block::Section(clone_section(s))
        },
        Block::Narrative { text, inline_tags, span } => Block::Narrative {
            text: clone_string(text),
            inline_tags: clone_inline_tags(inline_tags),
            span: *span,
        },
    }
}

fn clone_section(s: &Section) -> (r: Section)
    ensures
        r@ == s@,
    decreases s, 0nat,
{
    let mut children: Vec<Block> = Vec::new();
    let mut i: usize = 0;
    while i < s.children.len()
        invariant
            i <= s.children.len(),
            blocks_model(children@) == blocks_model(s.children@.take(i as int)),
        decreases s.children.len() - i,
    {
        proof {
            assert(decreases_to!(*s => s.children));
            assert(decreases_to!(s.children => s.children[i as int]));
        }
        let c = clone_block(&s.children[i]);
        proof {
            lemma_blocks_model_push(children@, c);
            lemma_blocks_model_push(s.children@.take(i as int), s.children@[i as int]);
            assert(s.children@.take(i as int).push(s.children@[i as int]) =~= s.children@.take(
                i + 1,
            ));
        }
        children.push(c);
        i = i + 1;
    }
    assert(s.children@.take(s.children.len() as int) =~= s.children@);
    Section {
        tag: clone_string(&s.tag),
        attributes: clone_attributes(&s.attributes),
        children,
        span: s.span,
    }
}

impl Clone for Block {
    fn clone(&self) -> (r: Block)
        ensures
            r@ == self@,
    {
        clone_block(self)
    }
}

impl Clone for Section {
    fn clone(&self) -> (r: Section)
        ensures
            r@ == self@,
    {
        clone_section(self)
    }
}

fn clone_blocks(blocks: &Vec<Block>) -> (r: Vec<Block>)
    ensures
        blocks_model(r@) == blocks_model(blocks@),
{
    let mut out: Vec<Block> = Vec::new();
    let mut i: usize = 0;
    while i < blocks.len()
        invariant
            i <= blocks.len(),
            blocks_model(out@) == blocks_model(blocks@.take(i as int)),
        decreases blocks.len() - i,
    {
        let c = clone_block(&blocks[i]);
        proof {
            lemma_blocks_model_push(out@, c);
            lemma_blocks_model_push(blocks@.take(i as int), blocks@[i as int]);
            assert(blocks@.take(i as int).push(blocks@[i as int]) =~= blocks@.take(i + 1));
        }
        out.push(c);
        i = i + 1;
    }
    assert(blocks@.take(blocks.len() as int) =~= blocks@);
    out
}

impl Clone for Document {
    fn clone(&self) -> (r: Document)
        ensures
            r@ == self@,
    {
        let schema = match &self.schema {
            Some(s) => Some(clone_string(s)),
            None => None,
        };
        Document { version: self.version, schema, blocks: clone_blocks(&self.blocks) }
    }
}

} // verus!
