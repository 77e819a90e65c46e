//! The document shapes behind the `serde` adapter.
//!
//! Serializing a value builds one top-level section: scalar fields become
//! attributes, nested structures become child sections named after their
//! field. Deserializing reads the first top-level section back as a map of
//! attributes and child sections. The `serde` trait impls that drive these
//! steps live with the program around this library; the shapes are here.

use vstd::prelude::*;
use crate::ast::{self, Block, BlockModel, Document, FtaiVersion, Section, SectionModel, Span, Value, ValueModel};
use crate::error::{Error, ErrorModel};
use crate::roundtrip;
use crate::serializer;
use crate::text::{self, chars_of, debug_string, to_lowercase, trim_str};

verus! {

/// What serializing one field produced.
pub enum Outcome {
    /// Nothing to write (`None`).
    Skipped,
    /// A scalar or list value: becomes an attribute.
    Value(Value),
    /// A nested structure: becomes a child section.
    SubSection(Section),
}

/// Model of an [`Outcome`].
pub enum OutcomeModel {
    Skipped,
    Value(ValueModel),
    SubSection(SectionModel),
}

impl View for Outcome {
    type V = OutcomeModel;

    open spec fn view(&self) -> OutcomeModel {
        match self {
            Outcome::Skipped => OutcomeModel::Skipped,
            Outcome::Value(v) => OutcomeModel::Value(v@),
            Outcome::SubSection(s) => OutcomeModel::SubSection(s@),
        }
    }
}

/// A section with the given tag and nothing in it.
pub open spec fn empty_section(tag: Seq<char>) -> SectionModel {
    SectionModel {
        tag,
        attributes: Seq::empty(),
        children: Seq::empty(),
        span: Span { start_line: 0, start_col: 0, end_line: 0, end_col: 0 },
    }
}

/// A section after one field was added to it.
pub open spec fn with_field(s: SectionModel, key: Seq<char>, o: OutcomeModel) -> SectionModel {
    match o {
        OutcomeModel::Skipped => s,
        OutcomeModel::Value(v) => SectionModel { attributes: s.attributes.push((key, v)), ..s },
        OutcomeModel::SubSection(child) => SectionModel {
            children: s.children.push(
                BlockModel::Section(SectionModel { tag: text::lowercase(key), ..child }),
            ),
            ..s
        },
    }
}

/// A fresh section with the given tag.
pub fn new_section(tag: String) -> (s: Section)
    ensures
        s@ == empty_section(tag@),
{
    let s = Section { tag, attributes: Vec::new(), children: Vec::new(), span: Span::synthetic() };
    assert(s@.attributes =~= Seq::<(Seq<char>, ValueModel)>::empty());
    assert(s@.children =~= Seq::<BlockModel>::empty());
    s
}

/// A fresh section tagged with an enum variant's name, lowercased.
pub fn variant_section(variant: &str) -> (s: Section)
    ensures
        s@ == empty_section(text::lowercase(variant@)),
{
    new_section(to_lowercase(variant))
}

/// Adds a serialized field to a section: a value becomes the attribute
/// `key`, a nested structure becomes a child section tagged `key` lowercased,
/// and a skipped field adds nothing.
pub fn add_field(section: &mut Section, key: String, outcome: Outcome)
    ensures
        final(section)@ == with_field(old(section)@, key@, outcome@),
{
    match outcome {
        Outcome::Skipped => {},
        Outcome::Value(v) => {
            let ghost kv = (key, v);
            proof {
                assert(ast::attributes_model(section.attributes@.push(kv)) =~= ast::attributes_model(
                    section.attributes@,
                ).push((key@, v@)));
            }
            section.attributes.push((key, v));
        },
        Outcome::SubSection(child) => {
            let mut child = child;
            let t = to_lowercase(key.as_str());
            child.tag = t;
            let b = Block::Section(child);
            proof {
                ast::lemma_blocks_model_push(section.children@, b);
            }
            section.children.push(b);
        },
    }
}

/// A section with one attribute `value` (a newtype enum variant).
pub fn newtype_variant_section(variant: &str, value: Value) -> (s: Section)
    ensures
        s@ == with_field(empty_section(text::lowercase(variant@)), "value"@, OutcomeModel::Value(value@)),
{
    let mut s = variant_section(variant);
    add_field(&mut s, String::from_str("value"), Outcome::Value(value));
    s
}

/// The document holding one top-level section.
pub open spec fn document_of(s: SectionModel) -> ast::DocumentModel {
    ast::DocumentModel { version: FtaiVersion::V2_0, schema: None, blocks: seq![BlockModel::Section(s)] }
}

/// The document that a top-level struct, map or variant serializes to.
pub fn document_of_section(section: Section) -> (d: Document)
    ensures
        d@ == document_of(section@),
{
    let mut blocks: Vec<Block> = Vec::new();
    let b = Block::Section(section);
    proof {
        ast::lemma_blocks_model_push(blocks@, b);
        assert(ast::blocks_model(blocks@) =~= Seq::<BlockModel>::empty());
    }
    blocks.push(b);
    assert(ast::blocks_model(blocks@) =~= seq![BlockModel::Section(section@)]);
    Document { version: FtaiVersion::V2_0, schema: None, blocks }
}

/// The serialized document, or the empty document when nothing was written.
pub fn finish(document: Option<Document>) -> (d: Document)
    ensures
        d@ == match document {
            Some(doc) => doc@,
            None => crate::grammar::empty_document(),
        },
{
    match document {
        Some(doc) => doc,
        None => {
            let d = Document::default();
            assert(d@.blocks =~= Seq::<BlockModel>::empty());
            d
        },
    }
}

/// What a field produced, where nothing recorded means skipped.
pub fn into_outcome(outcome: Option<Outcome>) -> (o: Outcome)
    ensures
        o@ == match outcome {
            Some(x) => x@,
            None => OutcomeModel::Skipped,
        },
{
    match outcome {
        Some(o) => o,
        None => Outcome::Skipped,
    }
}

/// The value a field serialized to: a skipped field is the empty unquoted
/// value, a nested structure is an error.
pub open spec fn value_of_spec(o: OutcomeModel) -> Result<ValueModel, ErrorModel> {
    match o {
        OutcomeModel::Value(v) => Ok(v),
        OutcomeModel::Skipped => Ok(ValueModel::Unquoted(Seq::empty())),
        OutcomeModel::SubSection(_) => Err(ErrorModel::Serde("expected scalar value, got struct"@)),
    }
}

pub fn value_of(outcome: Outcome) -> (r: Result<Value, Error>)
    ensures
        match r {
            Ok(v) => value_of_spec(outcome@) == Ok::<ValueModel, ErrorModel>(v@),
            Err(e) => value_of_spec(outcome@) == Err::<ValueModel, ErrorModel>(e@),
        },
{
    match outcome {
        Outcome::Value(v) => Ok(v),
        Outcome::Skipped => Ok(Value::Unquoted(String::new())),
        Outcome::SubSection(_) => Err(Error::Serde(String::from_str("expected scalar value, got struct"))),
    }
}

/// The text of a map key: a scalar's text; a list is an error.
pub open spec fn key_of_spec(v: ValueModel) -> Result<Seq<char>, ErrorModel> {
    match v {
        ValueModel::Quoted(s) => Ok(s),
        ValueModel::Unquoted(s) => Ok(s),
        ValueModel::List(_) => Err(ErrorModel::Serde("map keys must be scalars, got list"@)),
    }
}

pub fn key_of(v: Value) -> (r: Result<String, Error>)
    ensures
        match r {
            Ok(k) => key_of_spec(v@) == Ok::<Seq<char>, ErrorModel>(k@),
            Err(e) => key_of_spec(v@) == Err::<Seq<char>, ErrorModel>(e@),
        },
{
    match v {
        Value::Quoted(s) => Ok(s),
        Value::Unquoted(s) => Ok(s),
        Value::List(_) => Err(Error::Serde(String::from_str("map keys must be scalars, got list"))),
    }
}

/// The error for a top-level value that is not a struct, map or named variant.
pub fn unsupported_top_level(kind: &str) -> (e: Error)
    ensures
        e@ == ErrorModel::Serde(
            "top-level FTAI value must be a struct, map, or named variant; got "@ + kind@,
        ),
{
    let mut m = String::from_str("top-level FTAI value must be a struct, map, or named variant; got ");
    m.append(kind);
    Error::Serde(m)
}

/// An unsigned integer as an unquoted value.
pub fn unsigned_value(n: u64) -> (v: Value)
    ensures
        v@ == ValueModel::Unquoted(text::decimal(n as nat)),
{
    let mut s = String::new();
    push_decimal_u64(&mut s, n);
    Value::Unquoted(s)
}

/// The decimal text of a signed integer, with a leading `-` when negative.
pub open spec fn signed_text(n: int) -> Seq<char> {
    if n < 0 {
        seq!['-'] + text::decimal((-n) as nat)
    } else {
        text::decimal(n as nat)
    }
}

/// A signed integer as an unquoted value.
pub fn signed_value(n: i64) -> (v: Value)
    ensures
        v@ == ValueModel::Unquoted(signed_text(n as int)),
{
    let mut s = String::new();
    if n < 0 {
        text::push_char(&mut s, '-');
        let m: u64 = if n == i64::MIN {
            9223372036854775808u64
        } else {
            (-n) as u64
        };
        push_decimal_u64(&mut s, m);
    } else {
        push_decimal_u64(&mut s, n as u64);
    }
    Value::Unquoted(s)
}

/// Appends the decimal representation of a `u64`.
fn push_decimal_u64(out: &mut String, n: u64)
    ensures
        final(out)@ == old(out)@ + text::decimal(n as nat),
    decreases n,
{
    if n >= 10 {
        push_decimal_u64(out, n / 10);
    }
    let d: u8 = (n % 10) as u8;
    let c: char = (48u8 + d) as char;
    text::push_char(out, c);
    proof {
        assert(c == text::digit_char((n % 10) as nat));
    }
}

/// A boolean as an unquoted value.
pub fn bool_value(b: bool) -> (v: Value)
    ensures
        v@ == ValueModel::Unquoted(if b {
            "true"@
        } else {
            "false"@
        }),
{
    if b {
        Value::Unquoted(String::from_str("true"))
    } else {
        Value::Unquoted(String::from_str("false"))
    }
}

/// Bytes as a list of their decimal values.
pub fn bytes_value(bytes: &[u8]) -> (v: Value)
    ensures
        v@ == ValueModel::List(Seq::new(bytes@.len(), |i: int| ValueModel::Unquoted(text::decimal(bytes@[i] as nat)))),
{
    let mut items: Vec<Value> = Vec::new();
    let mut i: usize = 0;
    while i < bytes.len()
        invariant
            i <= bytes@.len(),
            ast::values_model(items@) == Seq::new(i as nat, |k: int| ValueModel::Unquoted(text::decimal(bytes@[k] as nat))),
        decreases bytes.len() - i,
    {
        let v = unsigned_value(bytes[i] as u64);
        proof {
            ast::lemma_values_model_push(items@, v);
            assert(ast::values_model(items@.push(v)) =~= Seq::new((i + 1) as nat, |k: int| ValueModel::Unquoted(text::decimal(bytes@[k] as nat))));
        }
        items.push(v);
        i = i + 1;
    }
    Value::List(items)
}

/// Where a deserialized map entry comes from.
pub enum FieldSource {
    /// An attribute value.
    Value(Value),
    /// A child section.
    Section(Section),
}

pub enum FieldSourceModel {
    Value(ValueModel),
    Section(SectionModel),
}

impl View for FieldSource {
    type V = FieldSourceModel;

    open spec fn view(&self) -> FieldSourceModel {
        match self {
            FieldSource::Value(v) => FieldSourceModel::Value(v@),
            FieldSource::Section(s) => FieldSourceModel::Section(s@),
        }
    }
}

/// Child sections of a block list as map entries keyed by their tags.
pub open spec fn section_entries(children: Seq<BlockModel>) -> Seq<(Seq<char>, FieldSourceModel)>
    decreases children.len(),
{
    if children.len() == 0 {
        Seq::empty()
    } else {
        let rest = section_entries(children.drop_last());
        match children.last() {
            BlockModel::Section(s) => rest.push((s.tag, FieldSourceModel::Section(s))),
            BlockModel::Narrative { .. } => rest,
        }
    }
}

/// The map entries of a section: its attributes in order, then its child
/// sections keyed by tag (narrative children are not entries).
pub open spec fn entries_of(s: SectionModel) -> Seq<(Seq<char>, FieldSourceModel)> {
    Seq::new(s.attributes.len(), |i: int| (s.attributes[i].0, FieldSourceModel::Value(s.attributes[i].1)))
        + section_entries(s.children)
}

pub open spec fn entries_model(v: Seq<(String, FieldSource)>) -> Seq<(Seq<char>, FieldSourceModel)> {
    Seq::new(v.len(), |i: int| (v[i].0@, v[i].1@))
}

/// The map entries of a section, in the order a deserializer visits them.
pub fn section_entries_of(section: Section) -> (r: Vec<(String, FieldSource)>)
    ensures
        entries_model(r@) == entries_of(section@),
{
    let ghost sm = section@;
    let Section { tag: _, attributes, children, span: _ } = section;
    let mut items: Vec<(String, FieldSource)> = Vec::new();
    let mut attributes = attributes;
    let mut rev_attrs: Vec<(String, Value)> = Vec::new();
    let ghost am = ast::attributes_model(attributes@);
    while attributes.len() > 0
        invariant
            am == sm.attributes,
            attributes@.len() + rev_attrs@.len() == am.len(),
            forall|k: int| 0 <= k < attributes@.len() ==> (#[trigger] attributes@[k]).0@ == am[k].0 && attributes@[k].1@ == am[k].1,
            forall|k: int| 0 <= k < rev_attrs@.len() ==> (#[trigger] rev_attrs@[k]).0@ == am[am.len() - 1 - k].0
                && rev_attrs@[k].1@ == am[am.len() - 1 - k].1,
        decreases attributes.len(),
    {
        let kv = attributes.pop().unwrap();
        rev_attrs.push(kv);
    }
    let ghost prefix = Seq::new(am.len(), |i: int| (am[i].0, FieldSourceModel::Value(am[i].1)));
    while rev_attrs.len() > 0
        invariant
            am == sm.attributes,
            prefix == Seq::new(am.len(), |i: int| (am[i].0, FieldSourceModel::Value(am[i].1))),
            items@.len() + rev_attrs@.len() == am.len(),
            entries_model(items@) == prefix.take(items@.len() as int),
            forall|k: int| 0 <= k < rev_attrs@.len() ==> (#[trigger] rev_attrs@[k]).0@ == am[am.len() - 1 - k].0
                && rev_attrs@[k].1@ == am[am.len() - 1 - k].1,
        decreases rev_attrs.len(),
    {
        let (k, v) = rev_attrs.pop().unwrap();
        let e = (k, FieldSource::Value(v));
        proof {
            assert(entries_model(items@.push(e)) =~= prefix.take(items@.len() as int + 1));
        }
        items.push(e);
    }
    assert(prefix.take(am.len() as int) =~= prefix);
    let ghost cm = ast::blocks_model(children@);
    proof {
        ast::lemma_blocks_model_len(children@);
    }
    let mut j: usize = 0;
    let n_children = children.len();
    assert(cm.len() == n_children);
    let mut children = children;
    let mut rev_children: Vec<Block> = Vec::new();
    proof {
        assert forall|k: int| 0 <= k < children@.len() implies (#[trigger] children@[k])@ == cm[k] by {
            ast::lemma_blocks_model_index(children@, k);
        }
    }
    while children.len() > 0
        invariant
            cm == sm.children,
            cm.len() <= usize::MAX,
            cm.len() == children@.len() + rev_children@.len(),
            forall|k: int| 0 <= k < children@.len() ==> (#[trigger] children@[k])@ == cm[k],
            forall|k: int| 0 <= k < rev_children@.len() ==> (#[trigger] rev_children@[k])@ == cm[cm.len() - 1 - k],
        decreases children.len(),
    {
        let b = children.pop().unwrap();
        rev_children.push(b);
    }
    while rev_children.len() > 0
        invariant
            cm == sm.children,
            cm.len() <= usize::MAX,
            cm.len() == j + rev_children@.len(),
            entries_model(items@) == prefix + section_entries(cm.take(j as int)),
            forall|k: int| 0 <= k < rev_children@.len() ==> (#[trigger] rev_children@[k])@ == cm[cm.len() - 1 - k],
        decreases rev_children.len(),
    {
        let b = rev_children.pop().unwrap();
        proof {
            assert(cm.take(j + 1).drop_last() =~= cm.take(j as int));
            assert(cm.take(j + 1).last() == b@);
        }
        match b {
            Block::Section(s) => {
                let tag = s.tag.clone();
                let e = (tag, FieldSource::Section(s));
                proof {
                    assert(entries_model(items@.push(e)) =~= entries_model(items@).push((s@.tag, FieldSourceModel::Section(s@))));
                }
                items.push(e);
            },
            Block::Narrative { .. } => {},
        }
        j = j + 1;
    }
    assert(cm.take(j as int) =~= cm);
    items
}

/// The text of a scalar value; a list has none.
pub open spec fn text_of(v: ValueModel) -> Seq<char> {
    match v {
        ValueModel::Quoted(s) => s,
        ValueModel::Unquoted(s) => s,
        ValueModel::List(_) => Seq::empty(),
    }
}

pub fn value_text(v: &Value) -> (s: &str)
    ensures
        s@ == text_of(v@),
{
    match v {
        Value::Quoted(s) => s.as_str(),
        Value::Unquoted(s) => s.as_str(),
        Value::List(_) => {
            proof {
                reveal_strlit("");
                assert(""@ =~= Seq::<char>::empty());
            }
            ""
        },
    }
}

/// A value that deserializes as `None`: an empty scalar.
pub fn is_none_value(v: &Value) -> (b: bool)
    ensures
        b == (!(v@ is List) && text_of(v@).len() == 0),
{
    match v {
        Value::Quoted(s) => s.as_str().is_empty(),
        Value::Unquoted(s) => s.as_str().is_empty(),
        Value::List(_) => false,
    }
}

/// Words read as booleans.
pub open spec fn bool_word(s: Seq<char>) -> Option<bool> {
    if s == "true"@ || s == "True"@ || s == "TRUE"@ || s == "yes"@ || s == "1"@ {
        Some(true)
    } else if s == "false"@ || s == "False"@ || s == "FALSE"@ || s == "no"@ || s == "0"@ {
        Some(false)
    } else {
        None
    }
}

fn same_text(t: &String, w: &str) -> (b: bool)
    ensures
        b == (t@ == w@),
{
    *t == String::from_str(w)
}

/// A scalar's text read as a boolean after trimming.
pub fn bool_of_text(s: &str) -> (r: Result<bool, Error>)
    ensures
        match r {
            Ok(b) => bool_word(text::trim(s@)) == Some(b),
            Err(e) => bool_word(text::trim(s@)) is None && e@ == ErrorModel::Serde(
                "not a bool: "@ + text::debug_text(text::trim(s@)),
            ),
        },
{
    let t = trim_str(s);
    if same_text(&t, "true") || same_text(&t, "True") || same_text(&t, "TRUE") || same_text(&t, "yes")
        || same_text(&t, "1") {
        Ok(true)
    } else if same_text(&t, "false") || same_text(&t, "False") || same_text(&t, "FALSE")
        || same_text(&t, "no") || same_text(&t, "0") {
        Ok(false)
    } else {
        let mut m = String::from_str("not a bool: ");
        let d = debug_string(t.as_str());
        m.append(d.as_str());
        Err(Error::Serde(m))
    }
}

/// A scalar's text read as exactly one character.
pub fn char_of_text(s: &str) -> (r: Result<char, Error>)
    ensures
        match r {
            Ok(c) => s@ == seq![c],
            Err(e) => s@.len() != 1 && e@ == ErrorModel::Serde("not a char: "@ + text::debug_text(s@)),
        },
{
    let cs = chars_of(s);
    if cs.len() == 1 {
        let c = cs[0];
        assert(s@ =~= seq![c]);
        Ok(c)
    } else {
        let mut m = String::from_str("not a char: ");
        let d = debug_string(s);
        m.append(d.as_str());
        Err(Error::Serde(m))
    }
}

/// The first attribute named `value` of a section (a newtype enum variant).
pub fn newtype_value(section: Section) -> (r: Result<Value, Error>)
    ensures
        match r {
            Ok(v) => exists|i: int|
                0 <= i < section@.attributes.len() && section@.attributes[i] == ("value"@, v@)
                    && forall|j: int| 0 <= j < i ==> (#[trigger] section@.attributes[j]).0 != "value"@,
            Err(e) => (forall|j: int| 0 <= j < section@.attributes.len() ==> (#[trigger] section@.attributes[j]).0 != "value"@)
                && e@ == ErrorModel::Serde("newtype variant missing 'value' attribute"@),
        },
{
    let ghost am = section@.attributes;
    let mut attributes = section.attributes;
    let key = String::from_str("value");
    let mut i: usize = 0;
    while i < attributes.len()
        invariant
            am == ast::attributes_model(attributes@),
            am == section@.attributes,
            key@ == "value"@,
            i <= attributes@.len(),
            forall|j: int| 0 <= j < i ==> (#[trigger] am[j]).0 != "value"@,
        decreases attributes.len() - i,
    {
        if attributes[i].0 == key {
            let ghost before = attributes@;
            let kv = attributes.remove(i);
            proof {
                assert(kv == before[i as int]);
                assert(am[i as int] == (before[i as int].0@, before[i as int].1@));
                assert(section@.attributes[i as int] == ("value"@, kv.1@));
            }
            return Ok(kv.1);
        }
        i = i + 1;
    }
    Err(Error::Serde(String::from_str("newtype variant missing 'value' attribute")))
}

/// The first top-level section of a document.
pub fn first_section(doc: Document, missing: &str) -> (r: Result<Section, Error>)
    ensures
        match r {
            Ok(s) => exists|i: int|
                0 <= i < doc@.blocks.len() && doc@.blocks[i] == BlockModel::Section(s@) && forall|j: int|
                    0 <= j < i ==> !((#[trigger] doc@.blocks[j]) is Section),
            Err(e) => (forall|j: int| 0 <= j < doc@.blocks.len() ==> !((#[trigger] doc@.blocks[j]) is Section))
                && e@ == ErrorModel::Serde(missing@),
        },
{
    let ghost bm = doc@.blocks;
    proof {
        ast::lemma_blocks_model_len(doc.blocks@);
    }
    let n_blocks = doc.blocks.len();
    assert(bm.len() == n_blocks);
    let mut blocks = doc.blocks;
    let mut rest: Vec<Block> = Vec::new();
    proof {
        assert forall|k: int| 0 <= k < blocks@.len() implies (#[trigger] blocks@[k])@ == bm[k] by {
            ast::lemma_blocks_model_index(blocks@, k);
        }
    }
    while blocks.len() > 0
        invariant
            bm.len() <= usize::MAX,
            bm.len() == blocks@.len() + rest@.len(),
            forall|k: int| 0 <= k < blocks@.len() ==> (#[trigger] blocks@[k])@ == bm[k],
            forall|k: int| 0 <= k < rest@.len() ==> (#[trigger] rest@[k])@ == bm[bm.len() - 1 - k],
        decreases blocks.len(),
    {
        let b = blocks.pop().unwrap();
        rest.push(b);
    }
    let mut i: usize = 0;
    while rest.len() > 0
        invariant
            bm == doc@.blocks,
            bm.len() <= usize::MAX,
            bm.len() == i + rest@.len(),
            forall|k: int| 0 <= k < rest@.len() ==> (#[trigger] rest@[k])@ == bm[bm.len() - 1 - k],
            forall|j: int| 0 <= j < i ==> !((#[trigger] bm[j]) is Section),
        decreases rest.len(),
    {
        let b = rest.pop().unwrap();
        match b {
            Block::Section(s) => {
                assert(bm[i as int] == BlockModel::Section(s@));
                return Ok(s);
            },
            Block::Narrative { .. } => {},
        }
        i = i + 1;
    }
    Err(Error::Serde(String::from_str(missing)))
}

/// The variant named by a section tag: the first of `variants` whose
/// lowercase form equals the tag's, else the tag itself.
pub fn fold_variant_case(tag: &str, variants: &[&str]) -> (r: String)
    ensures
        (exists|i: int|
            0 <= i < variants@.len() && r@ == variants@[i]@ && text::lowercase(variants@[i]@)
                == text::lowercase(tag@) && forall|j: int|
                0 <= j < i ==> text::lowercase((#[trigger] variants@[j])@) != text::lowercase(tag@))
            || (r@ == tag@ && forall|j: int|
            0 <= j < variants@.len() ==> text::lowercase((#[trigger] variants@[j])@) != text::lowercase(tag@)),
{
    let lt = to_lowercase(tag);
    let mut i: usize = 0;
    while i < variants.len()
        invariant
            lt@ == text::lowercase(tag@),
            i <= variants@.len(),
            forall|j: int| 0 <= j < i ==> text::lowercase((#[trigger] variants@[j])@) != text::lowercase(tag@),
        decreases variants.len() - i,
    {
        let v = variants[i];
        let lv = to_lowercase(v);
        if lv == lt {
            return String::from_str(v);
        }
        i = i + 1;
    }
    String::from_str(tag)
}

/// The section that writing `fields` one after another into a fresh
/// section tagged `tag` gives.
pub open spec fn written(tag: Seq<char>, fields: Seq<(Seq<char>, OutcomeModel)>) -> SectionModel
    decreases fields.len(),
{
    if fields.len() == 0 {
        empty_section(tag)
    } else {
        with_field(written(tag, fields.drop_last()), fields.last().0, fields.last().1)
    }
}

/// The value fields among `fields`, in order, as map entries.
pub open spec fn value_fields(fields: Seq<(Seq<char>, OutcomeModel)>) -> Seq<(Seq<char>, FieldSourceModel)>
    decreases fields.len(),
{
    if fields.len() == 0 {
        Seq::empty()
    } else {
        let r = value_fields(fields.drop_last());
        match fields.last().1 {
            OutcomeModel::Value(v) => r.push((fields.last().0, FieldSourceModel::Value(v))),
            _ => r,
        }
    }
}

/// The nested fields among `fields`, in order, as map entries keyed by
/// their lowercased names.
pub open spec fn nested_fields(fields: Seq<(Seq<char>, OutcomeModel)>) -> Seq<(Seq<char>, FieldSourceModel)>
    decreases fields.len(),
{
    if fields.len() == 0 {
        Seq::empty()
    } else {
        let r = nested_fields(fields.drop_last());
        let key = text::lowercase(fields.last().0);
        match fields.last().1 {
            OutcomeModel::SubSection(child) => r.push(
                (key, FieldSourceModel::Section(SectionModel { tag: key, ..child })),
            ),
            _ => r,
        }
    }
}

pub open spec fn attribute_entries(attrs: Seq<(Seq<char>, ValueModel)>) -> Seq<(Seq<char>, FieldSourceModel)> {
    Seq::new(attrs.len(), |i: int| (attrs[i].0, FieldSourceModel::Value(attrs[i].1)))
}

proof fn lemma_written_parts(tag: Seq<char>, fields: Seq<(Seq<char>, OutcomeModel)>)
    ensures
        attribute_entries(written(tag, fields).attributes) == value_fields(fields),
        section_entries(written(tag, fields).children) == nested_fields(fields),
    decreases fields.len(),
{
    if fields.len() == 0 {
        assert(attribute_entries(written(tag, fields).attributes) =~= value_fields(fields));
    } else {
        let dl = fields.drop_last();
        lemma_written_parts(tag, dl);
        let s0 = written(tag, dl);
        let (key, o) = fields.last();
        match o {
            OutcomeModel::Skipped => {},
            OutcomeModel::Value(v) => {
                assert(attribute_entries(s0.attributes.push((key, v))) =~= attribute_entries(s0.attributes).push(
                    (key, FieldSourceModel::Value(v)),
                ));
            },
            OutcomeModel::SubSection(child) => {
                let b = BlockModel::Section(SectionModel { tag: text::lowercase(key), ..child });
                assert(s0.children.push(b).drop_last() =~= s0.children);
            },
        }
    }
}

/// The map entries that a section written from `fields` is read back as:
/// its value fields in order, then its nested fields in order.
pub proof fn lemma_written_entries(tag: Seq<char>, fields: Seq<(Seq<char>, OutcomeModel)>)
    ensures
        entries_of(written(tag, fields)) == value_fields(fields) + nested_fields(fields),
{
    lemma_written_parts(tag, fields);
}

/// A map entry with every span in its section replaced by the synthetic span.
pub open spec fn erase_entry(e: (Seq<char>, FieldSourceModel)) -> (Seq<char>, FieldSourceModel) {
    match e.1 {
        FieldSourceModel::Section(s) => (e.0, FieldSourceModel::Section(roundtrip::erase_section(s))),
        FieldSourceModel::Value(v) => (e.0, FieldSourceModel::Value(v)),
    }
}

pub open spec fn erase_entries(es: Seq<(Seq<char>, FieldSourceModel)>) -> Seq<(Seq<char>, FieldSourceModel)> {
    Seq::new(es.len(), |i: int| erase_entry(es[i]))
}

proof fn lemma_erase_section_entries(bs: Seq<BlockModel>)
    ensures
        erase_entries(section_entries(bs)) == section_entries(roundtrip::erase_blocks(bs)),
    decreases bs.len(),
{
    if bs.len() == 0 {
        assert(erase_entries(section_entries(bs)) =~= Seq::<(Seq<char>, FieldSourceModel)>::empty());
    } else {
        let dl = bs.drop_last();
        lemma_erase_section_entries(dl);
        let eb = roundtrip::erase_blocks(bs);
        assert(eb == roundtrip::erase_blocks(dl).push(roundtrip::erase_block(bs.last())));
        assert(eb.drop_last() =~= roundtrip::erase_blocks(dl));
        assert(eb.last() == roundtrip::erase_block(bs.last()));
        match bs.last() {
            BlockModel::Section(x) => {
                let e = (x.tag, FieldSourceModel::Section(x));
                assert(section_entries(bs) == section_entries(dl).push(e));
                assert(roundtrip::erase_block(bs.last()) == BlockModel::Section(roundtrip::erase_section(x)));
                assert(section_entries(eb) == section_entries(roundtrip::erase_blocks(dl)).push(
                    (x.tag, FieldSourceModel::Section(roundtrip::erase_section(x))),
                ));
                assert(erase_entries(section_entries(dl).push(e)) =~= erase_entries(section_entries(dl)).push(
                    erase_entry(e),
                ));
            },
            BlockModel::Narrative { .. } => {
                assert(section_entries(bs) == section_entries(dl));
                assert(section_entries(eb) == section_entries(roundtrip::erase_blocks(dl)));
            },
        }
    }
}

proof fn lemma_erase_blocks_len(bs: Seq<BlockModel>)
    ensures
        roundtrip::erase_blocks(bs).len() == bs.len(),
    decreases bs.len(),
{
    if bs.len() > 0 {
        lemma_erase_blocks_len(bs.drop_last());
    }
}

/// Writing fields into a section, writing the document that holds it as
/// text, parsing that text, and reading the first section's entries gives
/// the value fields in order, then the nested fields in order, up to spans,
/// whenever the written document is canonical.
pub proof fn lemma_read_back_through_text(tag: Seq<char>, fields: Seq<(Seq<char>, OutcomeModel)>)
    requires
        roundtrip::canonical_document(document_of(written(tag, fields))),
        text::lowercase("2.0"@) == "2.0"@,
    ensures
        crate::parse_text(serializer::document_text(document_of(written(tag, fields)))) matches Ok(d2)
            && (d2.blocks.len() == 1 && (d2.blocks[0] matches BlockModel::Section(s2) && erase_entries(
            entries_of(s2),
        ) == erase_entries(value_fields(fields) + nested_fields(fields)))),
{
    let sec = written(tag, fields);
    let doc = document_of(sec);
    roundtrip::lemma_round_trip(doc);
    let d2 = crate::parse_text(serializer::document_text(doc))->Ok_0;
    lemma_erase_blocks_len(d2.blocks);
    let none = Seq::<BlockModel>::empty();
    assert(roundtrip::erase_blocks(none) =~= none);
    assert(doc.blocks.drop_last() =~= none);
    assert(doc.blocks.last() == BlockModel::Section(sec));
    assert(roundtrip::erase_blocks(doc.blocks) =~= seq![roundtrip::erase_block(BlockModel::Section(sec))]);
    assert(d2.blocks.drop_last() =~= none);
    assert(d2.blocks.last() == d2.blocks[0]);
    assert(roundtrip::erase_blocks(d2.blocks) =~= seq![roundtrip::erase_block(d2.blocks[0])]);
    assert(roundtrip::erase_document(d2).blocks == roundtrip::erase_document(doc).blocks);
    assert(roundtrip::erase_blocks(d2.blocks)[0] == roundtrip::erase_block(d2.blocks[0]));
    assert(roundtrip::erase_blocks(doc.blocks)[0] == roundtrip::erase_block(BlockModel::Section(sec)));
    assert(roundtrip::erase_block(d2.blocks[0]) == BlockModel::Section(roundtrip::erase_section(sec)));
    let s2 = d2.blocks[0]->Section_0;
    assert(roundtrip::erase_section(s2) == roundtrip::erase_section(sec));
    lemma_erase_section_entries(s2.children);
    lemma_erase_section_entries(sec.children);
    lemma_written_entries(tag, fields);
    let a2 = attribute_entries(s2.attributes);
    let c2 = section_entries(s2.children);
    assert(entries_of(s2) =~= a2 + c2);
    assert(entries_of(sec) =~= attribute_entries(sec.attributes) + section_entries(sec.children));
    assert(erase_entries(a2 + c2) =~= a2 + erase_entries(c2));
    assert(erase_entries(attribute_entries(sec.attributes) + section_entries(sec.children)) =~= attribute_entries(
        sec.attributes,
    ) + erase_entries(section_entries(sec.children)));
}

} // verus!
