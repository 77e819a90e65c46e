//! Properties of the library as a whole, stated over the models that the
//! functions' contracts use, and proved.

use vstd::prelude::*;
use crate::ast::DocumentModel;
use crate::error::ErrorModel;
use crate::grammar;
use crate::lexer::{self, LexState, TokenKind, TokenModel, MAX_TAG_LEN};
use crate::adapter;
use crate::roundtrip;
use crate::serializer;
use crate::text;

verus! {

/// A token stream that parses strictly parses leniently to the same
/// document, with no errors recorded.
pub proof fn law_lenient_agrees_with_strict_tokens(toks: Seq<TokenModel>)
    ensures
        grammar::parse_spec(toks) matches Ok(d) ==> grammar::parse_lenient_spec(toks) == (d, Seq::<ErrorModel>::empty()),
{
    grammar::lemma_strict_document(grammar::doc_ctx(toks));
}

/// A text that parses strictly parses leniently to the same document, with
/// no errors recorded.
pub proof fn law_lenient_agrees_with_strict(s: Seq<char>)
    ensures
        crate::parse_text(s) matches Ok(d) ==> crate::parse_lenient_text(s) == (d, Seq::<ErrorModel>::empty()),
{
    match crate::lexer::lex(s) {
        Ok(toks) => law_lenient_agrees_with_strict_tokens(toks),
        Err(_) => {},
    }
}

/// Input validation: text that lexes contains no null byte and no control
/// character other than tab, newline, and a carriage return before a newline.
pub proof fn law_accepted_text_has_no_forbidden_characters(s: Seq<char>)
    ensures
        lexer::lex(s) is Ok ==> forall|k: int| 0 <= k < s.len() ==> lexer::permitted_at(s, k),
        lexer::lex(s) is Ok ==> forall|k: int| 0 <= k < s.len() ==> s[k] != '\0',
{
    lexer::lemma_lex_from_clean(s, LexState { i: 0, line: 1, col: 1, line_start: true }, Seq::empty());
    if lexer::lex(s) is Ok {
        assert forall|k: int| 0 <= k < s.len() implies s[k] != '\0' by {
            assert(lexer::permitted_at(s, k));
        }
    }
}

/// Input validation: in a text that lexes, every tag name (a word right
/// after `@`) is at most `MAX_TAG_LEN` characters long.
pub proof fn law_accepted_tag_names_are_bounded(s: Seq<char>)
    ensures
        lexer::lex(s) matches Ok(t) ==> forall|k: int|
            0 <= k < t.len() - 1 && (#[trigger] t[k]).kind == TokenKind::At && (t[k + 1].kind
                == TokenKind::Identifier || t[k + 1].kind == TokenKind::UnquotedString) ==> t[k
                + 1].lexeme.len() <= MAX_TAG_LEN,
{
    reveal(lexer::tag_names_bounded);
    lexer::lemma_lex_from_tag_names(s, LexState { i: 0, line: 1, col: 1, line_start: true }, Seq::empty());
}

/// A text that lexes gives a token stream ending in exactly one `Eof`: the
/// stream the parser accepts.
pub proof fn law_token_stream_is_well_terminated(s: Seq<char>)
    ensures
        lexer::lex(s) matches Ok(t) ==> grammar::well_terminated(t) && forall|k: int|
            0 <= k < t.len() - 1 ==> (#[trigger] t[k]).kind != TokenKind::Eof,
{
    lexer::lemma_lex_from_eof(s, LexState { i: 0, line: 1, col: 1, line_start: true }, Seq::empty());
}

/// Token shape: in the token stream of a text that lexes, every token begins
/// at line 1 and column 1 or later, every identifier token has the shape of
/// an identifier, and blank lines never give two newline tokens in a row.
/// (Lines and columns are counted in `usize`, hence the bound on the length.)
pub proof fn law_tokens_are_well_formed(s: Seq<char>)
    requires
        s.len() < usize::MAX,
    ensures
        lexer::lex(s) matches Ok(t) ==> lexer::tokens_well_formed(t),
{
    lexer::lemma_empty_well_formed();
    lexer::lemma_lex_from_well_formed(s, LexState { i: 0, line: 1, col: 1, line_start: true }, Seq::empty());
}

/// Tags are stored lowercase: in a document that parses, strictly or
/// leniently, every section at any depth has a non-empty tag with no
/// uppercase letter (identifiers are ASCII, so this is its lowercase form).
pub proof fn law_parsed_tags_are_lowercase(s: Seq<char>)
    requires
        s.len() < usize::MAX,
    ensures
        crate::parse_text(s) matches Ok(d) ==> grammar::blocks_tags_lower(d.blocks),
        grammar::blocks_tags_lower(crate::parse_lenient_text(s).0.blocks),
{
    match lexer::lex(s) {
        Ok(toks) => {
            law_tokens_are_well_formed(s);
            lexer::lemma_well_formed_idents(toks);
            law_token_stream_is_well_terminated(s);
            let c = grammar::doc_ctx(toks);
            grammar::lemma_lower_document(c, false);
            grammar::lemma_lower_document(c, true);
        },
        Err(_) => {},
    }
}

/// Quoting reads back: a quoted value as the serializer writes it, on an
/// attribute line `key: "..."`, lexes to exactly one quoted-string token
/// whose text is the value itself (quote, backslash, newline, carriage
/// return and tab escapes undone), for every value without a null byte or
/// another control character.
pub proof fn law_quoted_value_lexes_back(key: Seq<char>, q: Seq<char>)
    requires
        lexer::is_identifier(key),
        roundtrip::quotable(q),
    ensures
        lexer::lex(key + seq![':', ' '] + serializer::value_text(crate::ast::ValueModel::Quoted(q)) + seq!['\n'])
            matches Ok(t) && roundtrip::kls(t) == seq![
            (TokenKind::Identifier, key),
            (TokenKind::Colon, seq![':']),
            (TokenKind::QuotedString, q),
            (TokenKind::Newline, seq!['\n']),
            (TokenKind::Eof, Seq::<char>::empty()),
        ],
{
    roundtrip::lemma_quoted_line(key, q);
}

/// End markers are found as they are read: an `@end` line, in any mix of
/// cases, that the body parser takes as closing its section is also the
/// `@end` the section lookahead finds at depth 0, and it closes exactly one
/// level at any greater depth.
pub proof fn law_lookahead_agrees_with_end_marker(c: grammar::Ctx, p: int, d: nat)
    requires
        0 <= p,
        grammar::at_line_start(c, p),
        grammar::is_end_marker(c, p),
    ensures
        grammar::has_end_ahead(c, p, 0),
        grammar::has_end_ahead(c, p, d + 1) == grammar::has_end_ahead(c, p + 2, d),
{
    grammar::lemma_end_marker_closes(c, p, d);
}

/// Inline tags are never lost: in a document that parses, strictly or
/// leniently, every narrative block at any depth (top level, section child
/// or tag-single body) carries exactly the inline `[name:value]` tags found
/// in its text.
pub proof fn law_parsed_narratives_carry_their_inline_tags(s: Seq<char>)
    ensures
        crate::parse_text(s) matches Ok(d) ==> grammar::blocks_narratives_tagged(d.blocks),
        grammar::blocks_narratives_tagged(crate::parse_lenient_text(s).0.blocks),
{
    match lexer::lex(s) {
        Ok(toks) => {
            let c = grammar::doc_ctx(toks);
            grammar::lemma_tagged_document(c, false);
            grammar::lemma_tagged_document(c, true);
        },
        Err(_) => {},
    }
}

/// Writing loses no narrative: the text of every narrative block of a
/// document, at the top level or as the child of a section at any depth,
/// appears in the written text right after a `---` fence line.
pub proof fn law_written_text_keeps_every_narrative(d: DocumentModel)
    ensures
        forall|k: int| 0 <= k < serializer::narrative_texts(d.blocks).len() ==> serializer::contains(
            serializer::document_text(d),
            "---\n"@ + #[trigger] serializer::narrative_texts(d.blocks)[k],
        ),
{
    serializer::lemma_document_keeps_narratives(d);
}

/// A section keeps what was read into it, also when recovery ends it early:
/// wherever a section body stops (at its `@end`, or in a lenient parse at the
/// end of input without one), the section it gives starts with the
/// attributes and children read before, in order; an attribute line read
/// next becomes its next attribute, a child block read next becomes its
/// next child (after any narrative lines read before it), and narrative lines
/// read become, joined by newlines, the start of the narrative child that
/// follows the children read before them.
pub proof fn law_section_keeps_what_it_read(
    c: grammar::Ctx,
    lenient: bool,
    p: int,
    o: grammar::Opened,
    b: grammar::Body,
    errs: Seq<ErrorModel>,
)
    ensures
        grammar::section_body(c, lenient, p, o, b, errs).res matches Ok(sec) ==> b.attrs.is_prefix_of(sec.attributes)
            && b.children.is_prefix_of(sec.children),
        ({
            let q = grammar::skip_newlines(c, p);
            p <= q < c.toks.len() && grammar::kind_at(c, q) == TokenKind::Identifier && q + 1 < c.toks.len()
                && grammar::kind_at(c, q + 1) == TokenKind::Colon && grammar::attribute(c, q).0 is Ok
                && grammar::section_body(c, lenient, p, o, b, errs).res is Ok ==> b.attrs.push(
                grammar::attribute(c, q).0->Ok_0,
            ).is_prefix_of(grammar::section_body(c, lenient, p, o, b, errs).res->Ok_0.attributes)
        }),
        ({
            let q = grammar::skip_newlines(c, p);
            p <= q < c.toks.len() && grammar::kind_at(c, q) == TokenKind::At && !grammar::is_end_marker(c, q)
                && grammar::at_block(c, lenient, q, o.depth, errs).res is Ok && grammar::section_body(
                c,
                lenient,
                p,
                o,
                b,
                errs,
            ).res is Ok ==> grammar::flush(b.children, b.buf).push(
                grammar::at_block(c, lenient, q, o.depth, errs).res->Ok_0,
            ).is_prefix_of(grammar::section_body(c, lenient, p, o, b, errs).res->Ok_0.children)
        }),
        grammar::section_body(c, lenient, p, o, b, errs).res matches Ok(sec) ==> (b.buf.len() > 0 ==> {
            &&& b.children.len() < sec.children.len()
            &&& sec.children[b.children.len() as int] matches crate::ast::BlockModel::Narrative { text, .. }
                && text::join(b.buf, seq!['\n']).is_prefix_of(text)
        }),
{
    grammar::lemma_body_keeps_lines(c, lenient, p, o, b, errs);
    grammar::lemma_body_keeps_prefix(c, lenient, p, o, b, errs);
    grammar::lemma_body_keeps_attribute(c, lenient, p, o, b, errs);
    grammar::lemma_body_keeps_child(c, lenient, p, o, b, errs);
}

/// Inline tags are read from their brackets: a narrative text holding one
/// `[name:value]` (with any whitespace around name and value, and no other
/// `[`) carries exactly one inline tag, whose name is the text before the
/// first `:` and whose value is the text after it, both trimmed; a text with
/// no `[` carries none.
pub proof fn law_inline_tag_is_read_from_its_brackets(
    pre: Seq<char>,
    sa: Seq<char>,
    n: Seq<char>,
    sb: Seq<char>,
    sc: Seq<char>,
    v: Seq<char>,
    sd: Seq<char>,
    post: Seq<char>,
)
    requires
        forall|k: int| 0 <= k < pre.len() ==> pre[k] != '[',
        forall|k: int| 0 <= k < post.len() ==> post[k] != '[',
        text::all_whitespace(sa),
        text::all_whitespace(sb),
        text::all_whitespace(sc),
        text::all_whitespace(sd),
        n.len() > 0,
        text::trimmed(n),
        text::trimmed(v),
        forall|k: int| 0 <= k < n.len() ==> n[k] != ':' && n[k] != ']',
        forall|k: int| 0 <= k < v.len() ==> v[k] != ']',
    ensures
        grammar::inline_tags(pre + seq!['['] + sa + n + sb + seq![':'] + sc + v + sd + seq![']'] + post) == seq![
            crate::ast::InlineTagModel { name: n, value: v },
        ],
        grammar::inline_tags(pre + post) == Seq::<crate::ast::InlineTagModel>::empty(),
{
    grammar::lemma_inline_tag_written(pre, sa, n, sb, sc, v, sd, post);
    assert forall|k: int| 0 <= k < (pre + post).len() implies (pre + post)[k] != '[' by {
        if k < pre.len() {
            assert((pre + post)[k] == pre[k]);
        } else {
            assert((pre + post)[k] == post[k - pre.len()]);
        }
    }
    grammar::lemma_no_bracket_no_tags(pre + post);
}

/// Round trip: a document written out as text reads back as the same
/// document, up to source spans, whenever each of its parts is written in a
/// form that reads back as itself (`roundtrip::canonical_document`: word
/// schema, lowercase identifier tags, identifier keys, values and narrative
/// lines of tokens that the lexer gives back unchanged, no narrative inside
/// a section, nesting within the default limit). Lenient parsing of that
/// text gives the same document and records no error. The version check
/// reads `2.0` through std's lowercasing, which leaves it unchanged.
pub proof fn law_serialized_document_parses_back(d: DocumentModel)
    requires
        roundtrip::canonical_document(d),
        text::lowercase("2.0"@) == "2.0"@,
    ensures
        crate::parse_text(serializer::document_text(d)) matches Ok(d2) && roundtrip::erase_document(d2)
            == roundtrip::erase_document(d),
        crate::parse_lenient_text(serializer::document_text(d)).1 == Seq::<ErrorModel>::empty(),
        roundtrip::erase_document(crate::parse_lenient_text(serializer::document_text(d)).0)
            == roundtrip::erase_document(d),
{
    roundtrip::lemma_round_trip(d);
}

/// Writing ignores where things stood in the source and the inline tags
/// found in narrative text: two documents that differ only in their spans
/// and in those inline tags are written as the same text.
pub proof fn law_serialization_ignores_spans_and_inline_tags(d1: DocumentModel, d2: DocumentModel)
    requires
        serializer::strip_document(d1) == serializer::strip_document(d2),
    ensures
        serializer::document_text(d1) == serializer::document_text(d2),
{
    serializer::lemma_strip_document(d1);
    serializer::lemma_strip_document(d2);
}

/// Nesting limit: in a document that parses, strictly or leniently,
/// sections nest at most `DEFAULT_NESTING_LIMIT + 1` levels deep. The limit
/// is checked for every section read up to `@end` (or, leniently, up to the
/// end of input); a section without `@end` (a tag-single, which holds no
/// section) may sit one level below the deepest of them.
pub proof fn law_parsed_nesting_is_bounded(s: Seq<char>)
    ensures
        crate::parse_text(s) matches Ok(d) ==> grammar::blocks_depth(d.blocks) <= grammar::DEFAULT_NESTING_LIMIT + 1,
        grammar::blocks_depth(crate::parse_lenient_text(s).0.blocks) <= grammar::DEFAULT_NESTING_LIMIT + 1,
{
    match crate::lexer::lex(s) {
        Ok(toks) => {
            grammar::lemma_depth_document(grammar::doc_ctx(toks), false);
            grammar::lemma_depth_document(grammar::doc_ctx(toks), true);
        },
        Err(_) => {},
    }
}

/// What the `serde` adapter writes, it reads back: the map entries read
/// from a section written field by field are the value fields in order,
/// then the nested fields in order (keyed by their lowercased names); a
/// skipped field leaves nothing.
pub proof fn law_written_fields_are_read_back(tag: Seq<char>, fields: Seq<(Seq<char>, adapter::OutcomeModel)>)
    ensures
        adapter::entries_of(adapter::written(tag, fields)) == adapter::value_fields(fields)
            + adapter::nested_fields(fields),
{
    adapter::lemma_written_entries(tag, fields);
}

/// The same through text: a section written field by field, put in a
/// document, written out and parsed back, is the document's one section,
/// and its entries are the written fields, up to source spans, whenever the
/// written document is canonical (see `law_serialized_document_parses_back`).
pub proof fn law_written_fields_read_back_through_text(tag: Seq<char>, fields: Seq<(Seq<char>, adapter::OutcomeModel)>)
    requires
        roundtrip::canonical_document(adapter::document_of(adapter::written(tag, fields))),
        text::lowercase("2.0"@) == "2.0"@,
    ensures
        crate::parse_text(serializer::document_text(adapter::document_of(adapter::written(tag, fields))))
            matches Ok(d2) && (d2.blocks.len() == 1 && (d2.blocks[0] matches crate::ast::BlockModel::Section(s2)
            && adapter::erase_entries(adapter::entries_of(s2)) == adapter::erase_entries(
            adapter::value_fields(fields) + adapter::nested_fields(fields),
        ))),
{
    adapter::lemma_read_back_through_text(tag, fields);
}

/// Lenient recovery: every error a lenient parse records along the way is an
/// unterminated section (one that reached the end of input without its
/// `@end`); when the parse cannot go on, the document is empty and the error
/// that stopped it is recorded last, so no failure goes unreported. When the
/// text does not lex, the one lexical error is recorded and the document is
/// empty.
pub proof fn law_lenient_errors_are_unclosed_sections(s: Seq<char>)
    ensures
        lexer::lex(s) matches Ok(toks) ==> {
            let o = grammar::document(grammar::doc_ctx(toks), true);
            &&& grammar::all_unclosed(o.errs)
            &&& match o.res {
                Ok(d) => crate::parse_lenient_text(s) == (d, o.errs),
                Err(e) => crate::parse_lenient_text(s) == (grammar::empty_document(), o.errs.push(e)),
            }
        },
        lexer::lex(s) matches Err(e) ==> crate::parse_lenient_text(s) == (grammar::empty_document(), seq![e]),
{
    match lexer::lex(s) {
        Ok(toks) => grammar::lemma_unclosed_document(grammar::doc_ctx(toks), true),
        Err(_) => {},
    }
}

} // verus!
