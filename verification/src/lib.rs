//! FTAI v2.0 document parser and serializer.
//!
//! Text is read by [`lexer::tokenize`] into a flat token stream, which
//! [`parser::parse_tokens`] turns into a [`Document`] tree; the tree is
//! written back to canonical text by [`serializer::serialize_document`].
//! Every step is specified over a mathematical model of its input and
//! output and proved against it.

pub mod adapter;
pub mod ast;
pub mod error;
pub mod grammar;
pub mod laws;
pub mod lexer;
pub mod parser;
pub mod roundtrip;
pub mod serializer;
pub mod text;
pub mod __testing;

pub use crate::ast::{Block, Document};
pub use crate::error::Error;

use vstd::prelude::*;
use crate::ast::DocumentModel;
use crate::error::ErrorModel;

verus! {

/// The document a source text parses to, or the first lexical or structural error.
pub open spec fn parse_text(s: Seq<char>) -> Result<DocumentModel, ErrorModel> {
    match lexer::lex(s) {
        Ok(toks) => grammar::parse_spec(toks),
        Err(e) => Err(e),
    }
}

/// The lenient parse of a source text: a lexical error gives an empty
/// document and that one error.
pub open spec fn parse_lenient_text(s: Seq<char>) -> (DocumentModel, Seq<ErrorModel>) {
    match lexer::lex(s) {
        Ok(toks) => grammar::parse_lenient_spec(toks),
        Err(e) => (grammar::empty_document(), seq![e]),
    }
}

/// Parses a `.ftai` source string into a [`Document`].
///
/// Returns `Err` on the first lexical or structural failure; for
/// fault-tolerant parsing, use [`parse_lenient`].
pub fn parse(input: &str) -> (r: Result<Document, Error>)
    requires
        input@.len() < usize::MAX,
    ensures
        parser::document_result(r) == parse_text(input@),
{
    let tokens = match lexer::tokenize(input) {
        Ok(t) => t,
        Err(e) => {
            return Err(e);
        },
    };
    parser::parse_tokens(tokens.as_slice())
}

/// Parses leniently: recovers from missing `@end` markers and stray lines,
/// returning the best-effort document and the errors encountered. A failure
/// it cannot recover from gives an empty document, and that failure is the
/// last error in the list.
pub fn parse_lenient(input: &str) -> (r: (Document, Vec<Error>))
    requires
        input@.len() < usize::MAX,
    ensures
        (r.0@, error::errors_model(r.1@)) == parse_lenient_text(input@),
{
    match lexer::tokenize(input) {
        Ok(tokens) => parser::parse_tokens_lenient(tokens.as_slice()),
        Err(e) => {
            let d = Document::default();
            let errs = vec![e];
            assert(d@.blocks =~= Seq::<ast::BlockModel>::empty());
            assert(error::errors_model(errs@) =~= seq![e@]);
            (d, errs)
        },
    }
}

/// Whether lowercasing leaves the version text `2.0` as it is. The version on
/// the header line is compared after std's `str::to_lowercase`, so the laws
/// that read a written document back rest on this; it is decided here by
/// making that call.
pub fn version_text_is_lowercase() -> (b: bool)
    ensures
        b == (text::lowercase("2.0"@) == "2.0"@),
{
    let v = text::to_lowercase("2.0");
    v == String::from_str("2.0")
}

/// Serializes a document when the text it gives can be relied on to read
/// back: a canonical document's text then parses to the same document, up
/// to source spans. `None` when lowercasing would change the version text,
/// on which reading the header back depends.
pub fn to_string_read_back(doc: &Document) -> (r: Option<String>)
    ensures
        match r {
            Some(text) => text@ == serializer::document_text(doc@) && (roundtrip::canonical_document(doc@)
                ==> (parse_text(text@) matches Ok(d2) && roundtrip::erase_document(d2) == roundtrip::erase_document(
                doc@,
            ))),
            None => text::lowercase("2.0"@) != "2.0"@,
        },
{
    if !version_text_is_lowercase() {
        return None;
    }
    match to_string_doc(doc) {
        Ok(text) => {
            proof {
                if roundtrip::canonical_document(doc@) {
                    laws::law_serialized_document_parses_back(doc@);
                }
            }
            Some(text)
        },
        Err(_) => None,
    }
}

/// Serializes a [`Document`] to canonical FTAI text.
pub fn to_string_doc(doc: &Document) -> (r: Result<String, Error>)
    ensures
        r matches Ok(text) && text@ == serializer::document_text(doc@),
{
    serializer::serialize_document(doc)
}

} // verus!
