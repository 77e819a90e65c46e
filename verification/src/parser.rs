//! Parser: token stream to [`Document`].
//!
//! Recursive descent over the FTAI grammar, extended pragmatically for the
//! v2.0 corpus (same-line tag values, narrative content inside sections,
//! bullet and table lines kept as narrative children). Every method computes
//! exactly the corresponding function of `grammar.rs`.

use vstd::prelude::*;
use crate::ast::{
    self, Block, BlockModel, Document, DocumentModel, FtaiVersion, InlineTag, InlineTagModel,
    Section, SectionModel, Span, Value, ValueModel,
};
use crate::error::{self, Error, ErrorModel};
use crate::grammar::{self, Body, Ctx, Opened, Outcome, DEFAULT_NESTING_LIMIT};
use crate::lexer::{self, Token, TokenKind, TokenModel};
use crate::text::{
    self, chars_of, debug_string, eq_ignore_ascii_case_str, join_strings, string_from_chars,
    to_ascii_lowercase, to_lowercase, trim_chars,
};

verus! {

/// The `Debug` name of a token kind.
fn kind_name_str(k: TokenKind) -> (s: &'static str)
    ensures
        s@ == grammar::kind_name(k),
{
    match k {
        TokenKind::At => "At",
        TokenKind::Identifier => "Identifier",
        TokenKind::Colon => "Colon",
        TokenKind::QuotedString => "QuotedString",
        TokenKind::UnquotedString => "UnquotedString",
        TokenKind::LeftBracket => "LeftBracket",
        TokenKind::RightBracket => "RightBracket",
        TokenKind::Comma => "Comma",
        TokenKind::NarrativeSeparator => "NarrativeSeparator",
        TokenKind::Newline => "Newline",
        TokenKind::Eof => "Eof",
    }
}

fn string_of(s: &str) -> (r: String)
    ensures
        r@ == s@,
{
    String::from_str(s)
}

pub open spec fn value_result(r: Result<Value, Error>) -> Result<ValueModel, ErrorModel> {
    match r {
        Ok(v) => Ok(v@),
        Err(e) => Err(e@),
    }
}

pub open spec fn block_result(r: Result<Block, Error>) -> Result<BlockModel, ErrorModel> {
    match r {
        Ok(v) => Ok(v@),
        Err(e) => Err(e@),
    }
}

pub open spec fn attribute_result(r: Result<(String, Value), Error>) -> Result<(Seq<char>, ValueModel), ErrorModel> {
    match r {
        Ok(kv) => Ok((kv.0@, kv.1@)),
        Err(e) => Err(e@),
    }
}

pub open spec fn document_result(r: Result<Document, Error>) -> Result<DocumentModel, ErrorModel> {
    match r {
        Ok(d) => Ok(d@),
        Err(e) => Err(e@),
    }
}

/// Recursive-descent parser state over a token slice.
pub(crate) struct Parser<'a> {
    tokens: &'a [Token],
    pos: usize,
    depth: usize,
    nesting_limit: usize,
    lenient: bool,
    errors: Vec<Error>,
}

impl<'a> Parser<'a> {
    pub(crate) closed spec fn ctx(&self) -> Ctx {
        Ctx { toks: lexer::tokens_model(self.tokens@), limit: self.nesting_limit as int }
    }

    pub(crate) closed spec fn wf(&self) -> bool {
        &&& grammar::well_terminated(self.ctx().toks)
        &&& self.pos < self.tokens@.len()
        &&& self.depth <= self.nesting_limit
        &&& self.nesting_limit == DEFAULT_NESTING_LIMIT
    }

    pub(crate) closed spec fn at(&self) -> int {
        self.pos as int
    }

    pub(crate) closed spec fn errs(&self) -> Seq<ErrorModel> {
        error::errors_model(self.errors@)
    }

    pub(crate) closed spec fn same_run(&self, other: &Parser) -> bool {
        &&& self.tokens@ == other.tokens@
        &&& self.lenient == other.lenient
        &&& self.nesting_limit == other.nesting_limit
    }

    /// Progress facts every method keeps.
    pub(crate) closed spec fn follows(&self, old: &Parser) -> bool {
        &&& self.wf()
        &&& self.same_run(old)
        &&& old.pos <= self.pos
    }

    fn new(tokens: &'a [Token]) -> (p: Parser<'a>)
        requires
            grammar::well_terminated(lexer::tokens_model(tokens@)),
        ensures
            p.wf(),
            p.ctx() == grammar::doc_ctx(lexer::tokens_model(tokens@)),
            p.lenient == false,
            p.at() == 0,
            p.depth == 0,
            p.errs() == Seq::<ErrorModel>::empty(),
    {
        let p = Parser {
            tokens,
            pos: 0,
            depth: 0,
            nesting_limit: DEFAULT_NESTING_LIMIT,
            lenient: false,
            errors: Vec::new(),
        };
        assert(p.errs() =~= Seq::<ErrorModel>::empty());
        p
    }

    /// Under a well-formed state, a non-`Eof` token is not the last one.
    proof fn lemma_not_last(&self)
        requires
            self.wf(),
            grammar::kind_at(self.ctx(), self.at()) != TokenKind::Eof,
        ensures
            self.at() < self.ctx().toks.len() - 1,
    {
    }

    fn peek(&self) -> (t: &'a Token)
        requires
            self.wf(),
        ensures
            t@ == self.ctx().toks[self.at()],
    {
        let i = if self.pos < self.tokens.len() {
            self.pos
        } else {
            self.tokens.len() - 1
        };
        &self.tokens[i]
    }

    fn peek_kind(&self) -> (k: TokenKind)
        requires
            self.wf(),
        ensures
            k == grammar::kind_at(self.ctx(), self.at()),
    {
        self.peek().kind
    }

    fn peek_at(&self, offset: usize) -> (t: Option<&'a Token>)
        requires
            self.wf(),
        ensures
            match t {
                Some(t) => self.at() + offset < self.ctx().toks.len() && t@ == self.ctx().toks[self.at() + offset],
                None => self.at() + offset >= self.ctx().toks.len(),
            },
    {
        if offset < self.tokens.len() - self.pos {
            Some(&self.tokens[self.pos + offset])
        } else {
            None
        }
    }

    fn advance(&mut self) -> (t: &'a Token)
        requires
            old(self).wf(),
        ensures
            final(self).follows(old(self)),
            final(self).depth == old(self).depth,
            final(self).errs() == old(self).errs(),
            final(self).at() == grammar::adv(old(self).ctx(), old(self).at()),
            t@ == old(self).ctx().toks[old(self).at()],
    {
        let i = if self.pos < self.tokens.len() {
            self.pos
        } else {
            self.tokens.len() - 1
        };
        let t = &self.tokens[i];
        if t.kind != TokenKind::Eof {
            self.pos = self.pos + 1;
        }
        t
    }

    fn expect(&mut self, kind: TokenKind, expected_label: &str) -> (r: Result<&'a Token, Error>)
        requires
            old(self).wf(),
        ensures
            final(self).follows(old(self)),
            final(self).depth == old(self).depth,
            final(self).errs() == old(self).errs(),
            match r {
                Ok(t) => grammar::expect(old(self).ctx(), old(self).at(), kind, expected_label@) == Ok::<int, ErrorModel>(final(self).at())
                    && t@ == old(self).ctx().toks[old(self).at()],
                Err(e) => grammar::expect(old(self).ctx(), old(self).at(), kind, expected_label@) == Err::<int, ErrorModel>(e@)
                    && final(self).at() == old(self).at(),
            },
    {
        if self.peek_kind() == kind {
            Ok(self.advance())
        } else {
            let t = self.peek();
            let mut found = string_of(kind_name_str(t.kind));
            found.append(" (");
            let d = debug_string(t.lexeme.as_str());
            found.append(d.as_str());
            found.append(")");
            Err(
                Error::UnexpectedToken {
                    expected: string_of(expected_label),
                    found,
                    line: t.span.start_line,
                    column: t.span.start_col,
                },
            )
        }
    }

    fn current_line(&self) -> (l: usize)
        requires
            self.wf(),
        ensures
            l == grammar::line_at(self.ctx(), self.at()),
    {
        self.peek().span.start_line
    }

    /// Skips any number of consecutive `Newline` tokens.
    fn skip_newlines(&mut self)
        requires
            old(self).wf(),
        ensures
            final(self).follows(old(self)),
            final(self).depth == old(self).depth,
            final(self).errs() == old(self).errs(),
            final(self).at() == grammar::skip_newlines(old(self).ctx(), old(self).at()),
    {
        while self.peek_kind() == TokenKind::Newline
            invariant
                self.follows(old(self)),
                self.depth == old(self).depth,
                self.errs() == old(self).errs(),
                grammar::skip_newlines(self.ctx(), self.at()) == grammar::skip_newlines(old(self).ctx(), old(self).at()),
            decreases self.tokens@.len() - self.pos,
        {
            self.advance();
        }
    }

    /// Consumes a newline token if one is next.
    fn skip_one_newline(&mut self)
        requires
            old(self).wf(),
        ensures
            final(self).follows(old(self)),
            final(self).depth == old(self).depth,
            final(self).errs() == old(self).errs(),
            final(self).at() == grammar::skip_one_newline(old(self).ctx(), old(self).at()),
    {
        if self.peek_kind() == TokenKind::Newline {
            self.advance();
        }
    }

    /// Lexemes of the value tokens up to the end of the line.
    fn collect_value_tokens_until_newline(&mut self) -> (parts: Vec<String>)
        requires
            old(self).wf(),
        ensures
            final(self).follows(old(self)),
            final(self).depth == old(self).depth,
            final(self).errs() == old(self).errs(),
            (text::strings_model(parts@), final(self).at()) == grammar::collect_values(old(self).ctx(), old(self).at()),
    {
        let mut parts: Vec<String> = Vec::new();
        loop
            invariant
                self.follows(old(self)),
                self.depth == old(self).depth,
                self.errs() == old(self).errs(),
                text::strings_model(parts@) + grammar::collect_values(self.ctx(), self.at()).0 == grammar::collect_values(
                    old(self).ctx(),
                    old(self).at(),
                ).0,
                grammar::collect_values(self.ctx(), self.at()).1 == grammar::collect_values(
                    old(self).ctx(),
                    old(self).at(),
                ).1,
            decreases self.tokens@.len() - self.pos,
        {
            let k = self.peek_kind();
            if k == TokenKind::QuotedString || k == TokenKind::Identifier || k
                == TokenKind::UnquotedString || k == TokenKind::Colon || k == TokenKind::Comma {
                proof {
                    self.lemma_not_last();
                }
                let ghost c = self.ctx();
                let ghost p = self.at();
                let t = self.advance();
                let lexeme = t.lexeme.clone();
                proof {
                    text::lemma_strings_model_push(parts@, lexeme);
                    assert(seq![c.toks[p].lexeme] + grammar::collect_values(c, p + 1).0 == grammar::collect_values(
                        c,
                        p,
                    ).0);
                    assert(text::strings_model(parts@).push(lexeme@) + grammar::collect_values(c, p + 1).0
                        =~= text::strings_model(parts@) + grammar::collect_values(c, p).0);
                }
                parts.push(lexeme);
            } else {
                proof {
                    assert(text::strings_model(parts@) + Seq::<Seq<char>>::empty() =~= text::strings_model(
                        parts@,
                    ));
                }
                return parts;
            }
        }
    }
}


impl<'a> Parser<'a> {
    /// Consumes the rest of a line as narrative text.
    fn consume_line_as_text(&mut self) -> (line: String)
        requires
            old(self).wf(),
        ensures
            final(self).follows(old(self)),
            final(self).depth == old(self).depth,
            final(self).errs() == old(self).errs(),
            (line@, final(self).at()) == grammar::line_text(old(self).ctx(), old(self).at()),
            grammar::kind_at(old(self).ctx(), old(self).at()) != TokenKind::Eof ==> old(self).at() < final(self).at(),
    {
        let ghost c = self.ctx();
        let ghost p0 = self.at();
        let mut parts: Vec<String> = Vec::new();
        loop
            invariant
                self.follows(old(self)),
                c == self.ctx(),
                p0 == old(self).at(),
                self.depth == old(self).depth,
                self.errs() == old(self).errs(),
                text::strings_model(parts@) + grammar::line_parts(c, self.at()).0 == grammar::line_parts(c, p0).0,
                grammar::line_parts(c, self.at()).1 == grammar::line_parts(c, p0).1,
            ensures
                grammar::kind_at(c, self.at()) == TokenKind::Newline || grammar::kind_at(c, self.at()) == TokenKind::Eof,
            decreases self.tokens@.len() - self.pos,
        {
            let k = self.peek_kind();
            if k == TokenKind::Newline || k == TokenKind::Eof {
                assert(text::strings_model(parts@) + Seq::<Seq<char>>::empty() =~= text::strings_model(parts@));
                break;
            }
            proof {
                self.lemma_not_last();
            }
            let ghost p = self.at();
            let piece: String;
            if k == TokenKind::At {
                self.advance();
                if self.peek_kind() == TokenKind::Identifier {
                    let id = self.advance();
                    let mut s = string_of("@");
                    s.append(id.lexeme.as_str());
                    piece = s;
                } else {
                    piece = string_of("@");
                }
                proof {
                    reveal_strlit("@");
                    assert(piece@ == grammar::at_text(c, p).0);
                }
            } else if k == TokenKind::QuotedString {
                let t = self.advance();
                let mut s = string_of("\"");
                s.append(t.lexeme.as_str());
                s.append("\"");
                piece = s;
                proof {
                    reveal_strlit("\"");
                }
            } else {
                let t = self.advance();
                piece = t.lexeme.clone();
            }
            proof {
                text::lemma_strings_model_push(parts@, piece);
                let (pc, q) = if kind_at_is(c, p, TokenKind::At) {
                    grammar::at_text(c, p)
                } else if kind_at_is(c, p, TokenKind::QuotedString) {
                    (seq!['"'] + c.toks[p].lexeme + seq!['"'], p + 1)
                } else {
                    (c.toks[p].lexeme, p + 1)
                };
                assert(pc == piece@);
                assert(q == self.at());
                assert(grammar::line_parts(c, p).0 == seq![pc] + grammar::line_parts(c, q).0);
                assert(text::strings_model(parts@).push(piece@) + grammar::line_parts(c, q).0
                    =~= text::strings_model(parts@) + grammar::line_parts(c, p).0);
            }
            parts.push(piece);
        }
        assert(grammar::line_parts(c, self.at()).0 =~= Seq::<Seq<char>>::empty());
        assert(text::strings_model(parts@) == grammar::line_parts(c, p0).0);
        assert(self.at() == grammar::line_parts(c, p0).1);
        self.skip_one_newline();
        proof {
            reveal_strlit(" ");
            assert(" "@ =~= seq![' ']);
        }
        join_strings(&parts, " ")
    }
}

impl<'a> Parser<'a> {
    fn parse_value(&mut self) -> (r: Result<Value, Error>)
        requires
            old(self).wf(),
        ensures
            final(self).follows(old(self)),
            final(self).depth == old(self).depth,
            final(self).errs() == old(self).errs(),
            value_result(r) == grammar::value(old(self).ctx(), old(self).at()).0,
            r is Ok ==> final(self).at() == grammar::value(old(self).ctx(), old(self).at()).1,
    {
        let k = self.peek_kind();
        if k == TokenKind::QuotedString {
            let t = self.advance();
            Ok(Value::Quoted(t.lexeme.clone()))
        } else if k == TokenKind::LeftBracket {
            self.parse_list()
        } else if k == TokenKind::Newline || k == TokenKind::Eof {
            Ok(Value::Unquoted(String::new()))
        } else {
            let parts = self.collect_value_tokens_until_newline();
            proof {
                reveal_strlit(" ");
                assert(" "@ =~= seq![' ']);
            }
            Ok(Value::Unquoted(join_strings(&parts, " ")))
        }
    }

    fn parse_list(&mut self) -> (r: Result<Value, Error>)
        requires
            old(self).wf(),
        ensures
            final(self).follows(old(self)),
            final(self).depth == old(self).depth,
            final(self).errs() == old(self).errs(),
            value_result(r) == grammar::list_value(old(self).ctx(), old(self).at()).0,
            r is Ok ==> final(self).at() == grammar::list_value(old(self).ctx(), old(self).at()).1,
        decreases old(self).tokens@.len() - old(self).pos, 0nat,
    {
        let ghost c = self.ctx();
        let ghost p0 = self.at();
        match self.expect(TokenKind::LeftBracket, "[") {
            Err(e) => {
                proof {
                    reveal_strlit("[");
                    assert("["@ =~= seq!['[']);
                }
                return Err(e);
            },
            Ok(_) => {},
        }
        proof {
            reveal_strlit("[");
            assert("["@ =~= seq!['[']);
        }
        let mut items: Vec<Value> = Vec::new();
        assert(ast::values_model(items@) =~= Seq::<ValueModel>::empty());
        loop
            invariant
                self.follows(old(self)),
                c == self.ctx(),
                p0 == old(self).at(),
                p0 < self.at(),
                self.depth == old(self).depth,
                self.errs() == old(self).errs(),
                grammar::list_items(c, self.at(), ast::values_model(items@)) == grammar::list_value(c, p0),
            decreases self.tokens@.len() - self.pos,
        {
            let ghost p = self.at();
            self.skip_newlines();
            if self.peek_kind() == TokenKind::RightBracket {
                self.advance();
                return Ok(Value::List(items));
            }
            let ghost q = self.at();
            let elem = self.parse_list_element();
            match elem {
                Err(e) => {
                    return Err(e);
                },
                Ok(v) => {
                    self.skip_newlines();
                    let k = self.peek_kind();
                    proof {
                        ast::lemma_values_model_push(items@, v);
                    }
                    if k == TokenKind::Comma {
                        self.advance();
                        items.push(v);
                    } else if k == TokenKind::RightBracket {
                        self.advance();
                        items.push(v);
                        return Ok(Value::List(items));
                    } else if k == TokenKind::Eof {
                        proof {
                            reveal_strlit("]");
                            assert("]"@ =~= seq![']']);
                        }
                        return Err(
                            Error::UnexpectedToken {
                                expected: string_of("]"),
                                found: string_of("EOF"),
                                line: self.current_line(),
                                column: 1,
                            },
                        );
                    } else {
                        let t = self.peek();
                        return Err(
                            Error::UnexpectedToken {
                                expected: string_of(", or ]"),
                                found: string_of(kind_name_str(t.kind)),
                                line: t.span.start_line,
                                column: t.span.start_col,
                            },
                        );
                    }
                },
            }
        }
    }

    fn parse_list_element(&mut self) -> (r: Result<Value, Error>)
        requires
            old(self).wf(),
        ensures
            final(self).follows(old(self)),
            final(self).depth == old(self).depth,
            final(self).errs() == old(self).errs(),
            value_result(r) == grammar::list_element(old(self).ctx(), old(self).at()).0,
            r is Ok ==> final(self).at() == grammar::list_element(old(self).ctx(), old(self).at()).1,
        decreases old(self).tokens@.len() - old(self).pos, 1nat,
    {
        let ghost c = self.ctx();
        let ghost p0 = self.at();
        let k = self.peek_kind();
        if k == TokenKind::QuotedString {
            let t = self.advance();
            Ok(Value::Quoted(t.lexeme.clone()))
        } else if k == TokenKind::LeftBracket {
            proof {
                self.lemma_not_last();
            }
            self.parse_list()
        } else {
            let mut buf: Vec<String> = Vec::new();
            loop
                invariant
                    self.follows(old(self)),
                    c == self.ctx(),
                    p0 == old(self).at(),
                    self.depth == old(self).depth,
                    self.errs() == old(self).errs(),
                    text::strings_model(buf@) + grammar::element_parts(c, self.at()).0 == grammar::element_parts(c, p0).0,
                    grammar::element_parts(c, self.at()).1 == grammar::element_parts(c, p0).1,
                ensures
                    grammar::kind_at(c, self.at()) == TokenKind::Comma || grammar::kind_at(c, self.at()) == TokenKind::RightBracket
                        || grammar::kind_at(c, self.at()) == TokenKind::Eof,
                decreases self.tokens@.len() - self.pos,
            {
                let k = self.peek_kind();
                if k == TokenKind::Comma || k == TokenKind::RightBracket || k == TokenKind::Eof {
                    break;
                }
                proof {
                    self.lemma_not_last();
                }
                let ghost p = self.at();
                if k == TokenKind::Newline {
                    self.advance();
                } else {
                    let piece: String;
                    if k == TokenKind::At {
                        self.advance();
                        if self.peek_kind() == TokenKind::Identifier {
                            let id = self.advance();
                            let mut s = string_of("@");
                            s.append(id.lexeme.as_str());
                            piece = s;
                        } else {
                            piece = string_of("@");
                        }
                        proof {
                            reveal_strlit("@");
                            assert(piece@ == grammar::at_text(c, p).0);
                        }
                    } else {
                        let t = self.advance();
                        piece = t.lexeme.clone();
                    }
                    proof {
                        text::lemma_strings_model_push(buf@, piece);
                        let (pc, q) = if kind_at_is(c, p, TokenKind::At) {
                            grammar::at_text(c, p)
                        } else {
                            (c.toks[p].lexeme, p + 1)
                        };
                        assert(pc == piece@);
                        assert(q == self.at());
                        assert(grammar::element_parts(c, p).0 == seq![pc] + grammar::element_parts(c, q).0);
                        assert(text::strings_model(buf@).push(piece@) + grammar::element_parts(c, q).0
                            =~= text::strings_model(buf@) + grammar::element_parts(c, p).0);
                    }
                    buf.push(piece);
                }
            }
            assert(grammar::element_parts(c, self.at()).0 =~= Seq::<Seq<char>>::empty());
            assert(text::strings_model(buf@) + Seq::<Seq<char>>::empty() =~= text::strings_model(buf@));
            proof {
                reveal_strlit(" ");
                assert(" "@ =~= seq![' ']);
            }
            let joined = join_strings(&buf, " ");
            let trimmed = text::trim_str(joined.as_str());
            Ok(Value::Unquoted(trimmed))
        }
    }
}

impl<'a> Parser<'a> {
    fn parse_attribute(&mut self) -> (r: Result<(String, Value), Error>)
        requires
            old(self).wf(),
        ensures
            final(self).follows(old(self)),
            final(self).depth == old(self).depth,
            final(self).errs() == old(self).errs(),
            attribute_result(r) == grammar::attribute(old(self).ctx(), old(self).at()).0,
            r is Ok ==> final(self).at() == grammar::attribute(old(self).ctx(), old(self).at()).1
                && old(self).at() < final(self).at(),
    {
        let key_tok = match self.expect(TokenKind::Identifier, "attribute key") {
            Ok(t) => t,
            Err(e) => {
                return Err(e);
            },
        };
        match self.expect(TokenKind::Colon, ":") {
            Ok(_) => {},
            Err(e) => {
                proof {
                    reveal_strlit(":");
                    assert(":"@ =~= seq![':']);
                }
                return Err(e);
            },
        }
        proof {
            reveal_strlit(":");
            assert(":"@ =~= seq![':']);
        }
        let value = match self.parse_value() {
            Ok(v) => v,
            Err(e) => {
                return Err(e);
            },
        };
        self.skip_one_newline();
        Ok((key_tok.lexeme.clone(), value))
    }

    fn is_end_marker(&self) -> (b: bool)
        requires
            self.wf(),
        ensures
            b == grammar::is_end_marker(self.ctx(), self.at()),
    {
        if self.peek_kind() != TokenKind::At {
            return false;
        }
        match self.peek_at(1) {
            Some(t) => t.kind == TokenKind::Identifier && eq_ignore_ascii_case_str(t.lexeme.as_str(), "end"),
            None => false,
        }
    }

    /// Consumes `@end` and the rest of its line.
    fn consume_end_marker(&mut self)
        requires
            old(self).wf(),
        ensures
            final(self).follows(old(self)),
            final(self).depth == old(self).depth,
            final(self).errs() == old(self).errs(),
            final(self).at() == grammar::after_end_marker(old(self).ctx(), old(self).at()),
    {
        if self.peek_kind() == TokenKind::At {
            self.advance();
        }
        if self.peek_kind() == TokenKind::Identifier {
            self.advance();
        }
        let _ = self.collect_value_tokens_until_newline();
        self.skip_one_newline();
    }

    /// Whether a matching `@end` lies ahead at the current depth, counting as
    /// openers only the bare `@tag` lines (a `@` inside a line is text, and a
    /// tag with a value on its line is a tag-single).
    fn has_matching_end_ahead(&self) -> (b: bool)
        requires
            self.wf(),
        ensures
            b == grammar::has_end_ahead(self.ctx(), self.at(), 0),
    {
        let ghost c = self.ctx();
        let n = self.tokens.len();
        let mut depth: usize = 0;
        let mut i = self.pos;
        while i < n
            invariant
                self.wf(),
                c == self.ctx(),
                n == c.toks.len(),
                depth <= i <= n,
                grammar::has_end_ahead(c, i as int, depth as nat) == grammar::has_end_ahead(c, self.at(), 0),
            decreases n - i,
        {
            let t = &self.tokens[i];
            if t.kind == TokenKind::Eof {
                return false;
            }
            if t.kind == TokenKind::At && (i == 0 || self.tokens[i - 1].kind == TokenKind::Newline) {
                let mut j = i + 1;
                while j < n && self.tokens[j].kind == TokenKind::At
                    invariant
                        i < j <= n,
                        n == c.toks.len(),
                        c == self.ctx(),
                        grammar::skip_ats(c, j as int) == grammar::skip_ats(c, i + 1),
                    decreases n - j,
                {
                    j = j + 1;
                }
                if j < n {
                    let next = &self.tokens[j];
                    if next.kind == TokenKind::Identifier {
                        if eq_ignore_ascii_case_str(next.lexeme.as_str(), "end") {
                            if depth == 0 {
                                return true;
                            }
                            depth = depth - 1;
                            i = j + 1;
                            continue;
                        }
                        let has_value = j + 1 < n - 1 && {
                            let k = self.tokens[j + 1].kind;
                            k == TokenKind::QuotedString || k == TokenKind::Identifier || k
                                == TokenKind::UnquotedString || k == TokenKind::Colon || k == TokenKind::Comma
                        };
                        if !has_value {
                            depth = depth + 1;
                        }
                        i = j + 1;
                        continue;
                    }
                }
            }
            i = i + 1;
        }
        false
    }

    /// A `---` narrative block.
    fn parse_narrative(&mut self) -> (b: Block)
        requires
            old(self).wf(),
            grammar::kind_at(old(self).ctx(), old(self).at()) == TokenKind::NarrativeSeparator,
        ensures
            final(self).follows(old(self)),
            final(self).depth == old(self).depth,
            final(self).errs() == old(self).errs(),
            (b@, final(self).at()) == grammar::narrative(old(self).ctx(), old(self).at()),
            old(self).at() < final(self).at(),
    {
        let ghost c = self.ctx();
        let ghost p0 = self.at();
        let start_line = self.current_line();
        let _ = self.expect(TokenKind::NarrativeSeparator, "---");
        self.skip_one_newline();
        let ghost q0 = self.at();
        let mut text_lines: Vec<String> = Vec::new();
        assert(text::strings_model(text_lines@) =~= Seq::<Seq<char>>::empty());
        loop
            invariant_except_break
                grammar::narrative_lines(c, self.at(), text::strings_model(text_lines@))
                    == grammar::narrative_lines(c, q0, Seq::empty()),
            invariant
                self.follows(old(self)),
                c == self.ctx(),
                p0 == old(self).at(),
                p0 < self.at(),
                self.depth == old(self).depth,
                self.errs() == old(self).errs(),
            ensures
                (text::strings_model(text_lines@), self.at()) == grammar::narrative_lines(c, q0, Seq::empty()),
            decreases self.tokens@.len() - self.pos,
        {
            let k = self.peek_kind();
            if k == TokenKind::Eof || k == TokenKind::At {
                break;
            } else if k == TokenKind::NarrativeSeparator {
                self.advance();
                self.skip_one_newline();
                break;
            } else {
                let line = self.consume_line_as_text();
                proof {
                    text::lemma_strings_model_push(text_lines@, line);
                }
                text_lines.push(line);
            }
        }
        proof {
            reveal_strlit("\n");
            assert("\n"@ =~= seq!['\n']);
        }
        let text = join_strings(&text_lines, "\n");
        let inline_tags = extract_inline_tags(text.as_str());
        let end_line = self.current_line();
        Block::Narrative {
            text,
            inline_tags,
            span: Span { start_line, start_col: 1, end_line, end_col: 1 },
        }
    }

    /// One stray line kept as a narrative block.
    fn parse_narrative_line_run(&mut self) -> (b: Block)
        requires
            old(self).wf(),
        ensures
            final(self).follows(old(self)),
            final(self).depth == old(self).depth,
            final(self).errs() == old(self).errs(),
            (b@, final(self).at()) == grammar::narrative_line_run(old(self).ctx(), old(self).at()),
            grammar::kind_at(old(self).ctx(), old(self).at()) != TokenKind::Eof ==> old(self).at() < final(self).at(),
    {
        let start_line = self.current_line();
        let line = self.consume_line_as_text();
        let inline_tags = extract_inline_tags(line.as_str());
        let end_line = self.current_line();
        Block::Narrative {
            text: line,
            inline_tags,
            span: Span { start_line, start_col: 1, end_line, end_col: 1 },
        }
    }
}

/// Moves buffered narrative lines into one narrative child block.
fn flush_narrative(children: &mut Vec<Block>, buf: &mut Vec<String>)
    ensures
        ast::blocks_model(final(children)@) == grammar::flush(ast::blocks_model(old(children)@), text::strings_model(old(buf)@)),
        final(buf)@.len() == 0,
{
    if buf.len() > 0 {
        proof {
            reveal_strlit("\n");
            assert("\n"@ =~= seq!['\n']);
        }
        let text = join_strings(buf, "\n");
        let inline_tags = extract_inline_tags(text.as_str());
        let b = Block::Narrative { text, inline_tags, span: Span::synthetic() };
        proof {
            ast::lemma_blocks_model_push(children@, b);
        }
        children.push(b);
        *buf = Vec::new();
    } else {
        assert(text::strings_model(buf@).len() == 0);
    }
}

proof fn lemma_attributes_push(attrs: Seq<(String, Value)>, kv: (String, Value))
    ensures
        ast::attributes_model(attrs.push(kv)) == ast::attributes_model(attrs).push((kv.0@, kv.1@)),
{
    assert(ast::attributes_model(attrs.push(kv)) =~= ast::attributes_model(attrs).push((kv.0@, kv.1@)));
}

pub open spec fn body_of(attrs: Seq<(String, Value)>, children: Seq<Block>, buf: Seq<String>) -> Body {
    Body {
        attrs: ast::attributes_model(attrs),
        children: ast::blocks_model(children),
        buf: text::strings_model(buf),
    }
}

impl<'a> Parser<'a> {
    /// A `@tag ... @end` section or a tag-single line. A tag with a value on
    /// its line is a tag-single; a bare tag line opens a section when its
    /// `@end` lies ahead (or an attribute line follows it).
    fn parse_at_block(&mut self) -> (r: Result<Block, Error>)
        requires
            old(self).wf(),
            grammar::kind_at(old(self).ctx(), old(self).at()) == TokenKind::At,
        ensures
            final(self).follows(old(self)),
            block_result(r) == grammar::at_block(old(self).ctx(), old(self).lenient, old(self).at(), old(self).depth as int, old(self).errs()).res,
            final(self).errs() == grammar::at_block(old(self).ctx(), old(self).lenient, old(self).at(), old(self).depth as int, old(self).errs()).errs,
            r is Ok ==> final(self).at() == grammar::at_block(old(self).ctx(), old(self).lenient, old(self).at(), old(self).depth as int, old(self).errs()).pos
                && final(self).depth == old(self).depth && old(self).at() < final(self).at(),
        decreases old(self).tokens@.len() - old(self).pos, 0nat,
    {
        let ghost c = self.ctx();
        let ghost lenient = self.lenient;
        let ghost p0 = self.at();
        let ghost errs0 = self.errs();
        let ghost depth0 = self.depth as int;
        proof {
            self.lemma_not_last();
        }
        let at_tok = self.advance();
        let ghost q1s = self.at();
        while self.peek_kind() == TokenKind::At
            invariant
                self.follows(old(self)),
                c == self.ctx(),
                p0 < self.at(),
                self.depth == old(self).depth,
                self.errs() == errs0,
                grammar::skip_ats(c, self.at()) == grammar::skip_ats(c, q1s),
            decreases self.tokens@.len() - self.pos,
        {
            self.advance();
        }
        let ghost q1 = self.at();
        let id_tok = match self.expect(TokenKind::Identifier, "tag identifier") {
            Ok(t) => t,
            Err(e) => {
                return Err(e);
            },
        };
        // Identifiers are ASCII letters, digits and `_`, so their ASCII
        // lowercase is their full lowercase form.
        let tag_name = to_ascii_lowercase(id_tok.lexeme.as_str());
        let opening_line = at_tok.span.start_line;
        let at_col = at_tok.span.start_col;
        let header_parts = self.collect_value_tokens_until_newline();
        let ghost q2 = self.at();
        self.skip_one_newline();
        let ghost q3 = self.at();
        let mut narrative_buf: Vec<String> = Vec::new();
        if header_parts.len() > 0 {
            proof {
                reveal_strlit(" ");
                assert(" "@ =~= seq![' ']);
            }
            let h = join_strings(&header_parts, " ");
            narrative_buf.push(h);
        }
        let ghost buf0 = text::strings_model(narrative_buf@);
        proof {
            if header_parts@.len() > 0 {
                assert(buf0 =~= seq![text::join(text::strings_model(header_parts@), seq![' '])]);
            } else {
                assert(buf0 =~= Seq::<Seq<char>>::empty());
            }
        }
        let has_end = header_parts.len() == 0 && self.has_matching_end_ahead();
        let next_is_attribute = self.peek_kind() == TokenKind::Identifier && match self.peek_at(1) {
            Some(t) => t.kind == TokenKind::Colon,
            None => false,
        };
        if !has_end && !next_is_attribute {
            loop
                invariant_except_break
                    grammar::single_lines(c, self.at(), text::strings_model(narrative_buf@)) == grammar::single_lines(c, q3, buf0),
                invariant
                    self.follows(old(self)),
                    c == self.ctx(),
                    p0 < q3 <= self.at(),
                    self.depth == old(self).depth,
                    self.errs() == errs0,
                ensures
                    (text::strings_model(narrative_buf@), self.at()) == grammar::single_lines(c, q3, buf0),
                decreases self.tokens@.len() - self.pos,
            {
                self.skip_newlines();
                let k = self.peek_kind();
                if k == TokenKind::Eof || k == TokenKind::At || k == TokenKind::NarrativeSeparator {
                    break;
                }
                let line = self.consume_line_as_text();
                if !line.as_str().is_empty() {
                    proof {
                        text::lemma_strings_model_push(narrative_buf@, line);
                    }
                    narrative_buf.push(line);
                }
            }
            let mut children: Vec<Block> = Vec::new();
            assert(ast::blocks_model(children@) =~= Seq::<BlockModel>::empty());
            flush_narrative(&mut children, &mut narrative_buf);
            let end_line = self.current_line();
            let attributes: Vec<(String, Value)> = Vec::new();
            assert(ast::attributes_model(attributes@) =~= Seq::<(Seq<char>, ValueModel)>::empty());
            return Ok(
                Block::Section(
                    Section {
                        tag: tag_name,
                        attributes,
                        children,
                        span: Span { start_line: opening_line, start_col: at_col, end_line, end_col: 1 },
                    },
                ),
            );
        }
        self.depth = self.depth + 1;
        if self.depth > self.nesting_limit {
            self.depth = self.depth - 1;
            return Err(Error::NestingTooDeep { limit: self.nesting_limit, line: opening_line });
        }
        let ghost o = Opened { tag: tag_name@, line: opening_line, col: at_col, depth: depth0 + 1 };
        proof {
            let ab = grammar::at_block(c, lenient, p0, depth0, errs0);
            assert(grammar::skip_ats(c, p0 + 1) == q1);
            assert(grammar::expect(c, q1, TokenKind::Identifier, "tag identifier"@) is Ok);
            assert(grammar::collect_values(c, q1 + 1) == (text::strings_model(header_parts@), q2));
            assert((grammar::collect_values(c, q1 + 1).0.len() == 0 && grammar::has_end_ahead(c, q3, 0)) == has_end);
            let s0 = grammar::section_body(c, lenient, q3, o, Body { attrs: Seq::empty(), children: Seq::empty(), buf: buf0 }, errs0);
            assert(ab.res == match s0.res {
                Ok(sec) => Ok::<BlockModel, ErrorModel>(BlockModel::Section(sec)),
                Err(e) => Err(e),
            });
            assert(ab.errs == s0.errs);
            assert(ab.pos == s0.pos);
        }
        let mut attributes: Vec<(String, Value)> = Vec::new();
        let mut children: Vec<Block> = Vec::new();
        let ghost s0 = grammar::section_body(c, lenient, q3, o, Body { attrs: Seq::empty(), children: Seq::empty(), buf: buf0 }, errs0);
        assert(ast::attributes_model(attributes@) =~= Seq::<(Seq<char>, ValueModel)>::empty());
        assert(ast::blocks_model(children@) =~= Seq::<BlockModel>::empty());
        assert(body_of(attributes@, children@, narrative_buf@) == Body { attrs: Seq::empty(), children: Seq::empty(), buf: buf0 });
        loop
            invariant_except_break
                grammar::section_body(c, lenient, self.at(), o, body_of(attributes@, children@, narrative_buf@), self.errs()) == s0,
            invariant
                self.wf(),
                self.same_run(old(self)),
                c == self.ctx(),
                c == old(self).ctx(),
                lenient == self.lenient,
                errs0 == old(self).errs(),
                depth0 == old(self).depth as int,
                grammar::at_block(c, lenient, p0, depth0, errs0).res == match s0.res {
                    Ok(sec) => Ok::<BlockModel, ErrorModel>(BlockModel::Section(sec)),
                    Err(e) => Err(e),
                },
                grammar::at_block(c, lenient, p0, depth0, errs0).errs == s0.errs,
                grammar::at_block(c, lenient, p0, depth0, errs0).pos == s0.pos,
                p0 == old(self).at(),
                p0 < q3 <= self.at(),
                self.depth == old(self).depth + 1,
                o.depth == self.depth,
                o.tag == tag_name@,
                o.line == opening_line,
                o.col == at_col,
            ensures
                s0.res == Ok::<SectionModel, ErrorModel>(grammar::finish_section(c, o, body_of(attributes@, children@, narrative_buf@), self.at())),
                s0.pos == self.at(),
                s0.errs == self.errs(),
            decreases self.tokens@.len() - self.pos,
        {
            let ghost b = body_of(attributes@, children@, narrative_buf@);
            let ghost p = self.at();
            self.skip_newlines();
            let ghost q = self.at();
            let k = self.peek_kind();
            if k == TokenKind::Eof {
                let err = Error::UnterminatedBlock { tag: tag_name.clone(), line: opening_line };
                if self.lenient {
                    proof {
                        assert(self.errs().push(err@) =~= errors_push(self.errors@, err));
                    }
                    self.errors.push(err);
                    break;
                }
                self.depth = self.depth - 1;
                return Err(err);
            } else if k == TokenKind::At {
                if self.is_end_marker() {
                    self.consume_end_marker();
                    break;
                }
                flush_narrative(&mut children, &mut narrative_buf);
                let ghost errs_before = self.errs();
                let ghost depth_before = self.depth as int;
                let child = match self.parse_at_block() {
                    Ok(b) => b,
                    Err(e) => {
                        proof {
                            let ch = grammar::at_block(c, lenient, q, depth_before, errs_before);
                            assert(ch.res == Err::<BlockModel, ErrorModel>(e@));
                            assert(grammar::skip_newlines(c, p) == q);
                            assert(p <= q < c.toks.len());
                            assert(grammar::kind_at(c, q) == TokenKind::At);
                            assert(!grammar::is_end_marker(c, q));
                            assert(o.depth == depth_before);
                            assert(ch.errs == self.errs());
                            grammar::lemma_section_body_child_err(c, lenient, p, o, b, errs_before, q);
                            assert(grammar::section_body(c, lenient, p, o, b, errs_before).res == Err::<SectionModel, ErrorModel>(e@));
                            assert(grammar::section_body(c, lenient, p, o, b, errs_before).errs == self.errs());
                        }
                        return Err(e);
                    },
                };
                proof {
                    ast::lemma_blocks_model_push(children@, child);
                    assert(text::strings_model(narrative_buf@) =~= Seq::<Seq<char>>::empty());
                }
                children.push(child);
            } else if k == TokenKind::Identifier && match self.peek_at(1) {
                Some(t) => t.kind == TokenKind::Colon,
                None => false,
            } {
                let kv = match self.parse_attribute() {
                    Ok(kv) => kv,
                    Err(e) => {
                        return Err(e);
                    },
                };
                proof {
                    lemma_attributes_push(attributes@, kv);
                }
                attributes.push(kv);
            } else if k == TokenKind::Identifier {
                let line_text = self.consume_line_as_text();
                proof {
                    text::lemma_strings_model_push(narrative_buf@, line_text);
                }
                narrative_buf.push(line_text);
            } else if k == TokenKind::NarrativeSeparator {
                self.advance();
                self.skip_one_newline();
                let rule = string_of("---");
                proof {
                    text::lemma_strings_model_push(narrative_buf@, rule);
                }
                narrative_buf.push(rule);
            } else {
                let line_text = self.consume_line_as_text();
                if !line_text.as_str().is_empty() {
                    proof {
                        text::lemma_strings_model_push(narrative_buf@, line_text);
                    }
                    narrative_buf.push(line_text);
                }
            }
        }
        let ghost b_end = body_of(attributes@, children@, narrative_buf@);
        flush_narrative(&mut children, &mut narrative_buf);
        self.depth = self.depth - 1;
        let end_line = self.current_line();
        Ok(
            Block::Section(
                Section {
                    tag: tag_name,
                    attributes,
                    children,
                    span: Span { start_line: opening_line, start_col: at_col, end_line, end_col: 1 },
                },
            ),
        )
    }
}

proof fn lemma_strip_v(s: Seq<char>, k: int)
    requires
        0 <= k <= s.len(),
        forall|m: int| 0 <= m < k ==> s[m] == 'v',
        k == s.len() || s[k] != 'v',
    ensures
        grammar::strip_v(s) == s.subrange(k, s.len() as int),
    decreases k,
{
    if k > 0 {
        assert(s.drop_first().subrange(k - 1, s.drop_first().len() as int) =~= s.subrange(k, s.len() as int));
        lemma_strip_v(s.drop_first(), k - 1);
    } else {
        assert(s.subrange(0, s.len() as int) =~= s);
    }
}

/// `s` without its leading `v`s (std's `trim_start_matches('v')`).
fn strip_leading_v(s: &str) -> (r: String)
    ensures
        r@ == grammar::strip_v(s@),
{
    let v = chars_of(s);
    let mut k: usize = 0;
    while k < v.len() && v[k] == 'v'
        invariant
            v@ == s@,
            k <= v@.len(),
            forall|m: int| 0 <= m < k ==> v@[m] == 'v',
        decreases v.len() - k,
    {
        k = k + 1;
    }
    proof {
        lemma_strip_v(s@, k as int);
    }
    string_from_chars(&v, k, v.len())
}

/// Whether a header word declares a version other than v2.0: `v` first and a `.` in it.
fn looks_like_version(part: &str) -> (b: bool)
    ensures
        b == (part@.len() > 0 && part@[0] == 'v' && part@.contains('.')),
{
    let v = chars_of(part);
    if v.len() == 0 || v[0] != 'v' {
        return false;
    }
    match find_in(&v, '.', 0, v.len()) {
        Some(k) => {
            assert(part@[k as int] == '.');
            true
        },
        None => {
            assert(!part@.contains('.'));
            false
        },
    }
}

/// Reads the `@ftai` header words: whether `2.0` was declared, and the schema.
fn header_fields(parts: &Vec<String>) -> (r: Result<(bool, Option<String>), Error>)
    ensures
        match r {
            Ok((vs, schema)) => grammar::header_fields(text::strings_model(parts@), 0, false, None)
                == Ok::<(bool, Option<Seq<char>>), ErrorModel>((vs, ast::opt_string_model(schema))),
            Err(e) => grammar::header_fields(text::strings_model(parts@), 0, false, None) == Err::<(bool, Option<Seq<char>>), ErrorModel>(e@),
        },
{
    let ghost m = text::strings_model(parts@);
    let mut version_set = false;
    let mut schema: Option<String> = None;
    let mut i: usize = 0;
    while i < parts.len()
        invariant
            i <= parts@.len(),
            m == text::strings_model(parts@),
            grammar::header_fields(m, i as int, version_set, ast::opt_string_model(schema)) == grammar::header_fields(m, 0, false, None),
        decreases parts.len() - i,
    {
        let part = &parts[i];
        let trimmed = text::trim_str(part.as_str());
        let stripped = strip_leading_v(trimmed.as_str());
        let normalized = to_lowercase(stripped.as_str());
        if normalized == string_of("2.0") {
            version_set = true;
        } else if looks_like_version(part.as_str()) {
            return Err(Error::UnsupportedVersion(part.clone()));
        } else if !part.as_str().is_empty() {
            schema = Some(part.clone());
        }
        i = i + 1;
    }
    Ok((version_set, schema))
}

impl<'a> Parser<'a> {
    fn parse_document(&mut self) -> (r: Result<Document, Error>)
        requires
            old(self).wf(),
            old(self).at() == 0,
            old(self).depth == 0,
            old(self).errs() == Seq::<ErrorModel>::empty(),
        ensures
            final(self).wf(),
            final(self).same_run(old(self)),
            document_result(r) == grammar::document(old(self).ctx(), old(self).lenient).res,
            final(self).errs() == grammar::document(old(self).ctx(), old(self).lenient).errs,
    {
        let ghost c = self.ctx();
        let ghost lenient = self.lenient;
        self.skip_newlines();
        let ghost q0 = self.at();
        match self.expect(TokenKind::At, "@") {
            Ok(_) => {},
            Err(e) => {
                proof {
                    reveal_strlit("@");
                    assert("@"@ =~= seq!['@']);
                }
                return Err(e);
            },
        }
        proof {
            reveal_strlit("@");
            assert("@"@ =~= seq!['@']);
        }
        let ghost q1 = self.at();
        let ftai_id = match self.expect(TokenKind::Identifier, "identifier 'ftai'") {
            Ok(t) => t,
            Err(e) => {
                return Err(e);
            },
        };
        if !eq_ignore_ascii_case_str(ftai_id.lexeme.as_str(), "ftai") {
            return Err(
                Error::UnexpectedToken {
                    expected: string_of("identifier 'ftai'"),
                    found: ftai_id.lexeme.clone(),
                    line: ftai_id.span.start_line,
                    column: ftai_id.span.start_col,
                },
            );
        }
        let header_parts = self.collect_value_tokens_until_newline();
        let ghost q2 = self.at();
        let (_version_set, schema) = match header_fields(&header_parts) {
            Ok(h) => h,
            Err(e) => {
                return Err(e);
            },
        };
        if header_parts.len() == 0 {
            return Err(
                Error::UnexpectedToken {
                    expected: string_of("version after @ftai"),
                    found: string_of("newline"),
                    line: self.current_line(),
                    column: 1,
                },
            );
        }
        self.skip_one_newline();
        let ghost q3 = self.at();
        let mut blocks: Vec<Block> = Vec::new();
        let ghost t0 = grammar::top_blocks(c, lenient, q3, Seq::empty(), Seq::empty());
        assert(ast::blocks_model(blocks@) =~= Seq::<BlockModel>::empty());
        proof {
            let d = grammar::document(c, lenient);
            assert(grammar::collect_values(c, q1 + 1) == (text::strings_model(header_parts@), q2));
            assert(d.res == match t0.res {
                Ok(bs) => Ok::<DocumentModel, ErrorModel>(DocumentModel { version: FtaiVersion::V2_0, schema: ast::opt_string_model(schema), blocks: bs }),
                Err(e) => Err(e),
            });
            assert(d.errs == t0.errs);
        }
        loop
            invariant_except_break
                grammar::top_blocks(c, lenient, self.at(), ast::blocks_model(blocks@), self.errs()) == t0,
            invariant
                self.wf(),
                self.same_run(old(self)),
                c == self.ctx(),
                c == old(self).ctx(),
                lenient == self.lenient,
                self.depth == 0,
                grammar::document(c, lenient).res == match t0.res {
                    Ok(bs) => Ok::<DocumentModel, ErrorModel>(DocumentModel { version: FtaiVersion::V2_0, schema: ast::opt_string_model(schema), blocks: bs }),
                    Err(e) => Err(e),
                },
                grammar::document(c, lenient).errs == t0.errs,
            ensures
                t0.res == Ok::<Seq<BlockModel>, ErrorModel>(ast::blocks_model(blocks@)),
                t0.errs == self.errs(),
            decreases self.tokens@.len() - self.pos,
        {
            self.skip_newlines();
            let k = self.peek_kind();
            if k == TokenKind::Eof {
                break;
            } else if k == TokenKind::At {
                let ghost q = self.at();
                let ghost errs_q = self.errs();
                assert(grammar::top_at_block(c, lenient, q, errs_q) == grammar::at_block(c, lenient, q, 0, errs_q)) by {
                    reveal(grammar::top_at_block);
                }
                let block = match self.parse_at_block() {
                    Ok(b) => b,
                    Err(e) => {
                        return Err(e);
                    },
                };
                proof {
                    ast::lemma_blocks_model_push(blocks@, block);
                }
                blocks.push(block);
            } else if k == TokenKind::NarrativeSeparator {
                let block = self.parse_narrative();
                proof {
                    ast::lemma_blocks_model_push(blocks@, block);
                }
                blocks.push(block);
            } else {
                if self.lenient {
                    let block = self.parse_narrative_line_run();
                    proof {
                        ast::lemma_blocks_model_push(blocks@, block);
                    }
                    blocks.push(block);
                } else {
                    let t = self.peek();
                    return Err(
                        Error::UnexpectedToken {
                            expected: string_of("block start ('@' or '---')"),
                            found: string_of(kind_name_str(t.kind)),
                            line: t.span.start_line,
                            column: t.span.start_col,
                        },
                    );
                }
            }
        }
        Ok(Document { version: FtaiVersion::V2_0, schema, blocks })
    }
}

/// Parses a token stream into a document.
///
/// Returns `Err` on the first structural failure (unterminated block,
/// unsupported version, unexpected token, depth-limit breach).
pub fn parse_tokens(tokens: &[Token]) -> (r: Result<Document, Error>)
    requires
        grammar::well_terminated(lexer::tokens_model(tokens@)),
    ensures
        document_result(r) == grammar::parse_spec(lexer::tokens_model(tokens@)),
{
    let mut p = Parser::new(tokens);
    p.parse_document()
}

/// Parses leniently: recoverable problems (missing `@end`, stray lines at the
/// top level) are recorded instead of ending the parse.
pub fn parse_tokens_lenient(tokens: &[Token]) -> (r: (Document, Vec<Error>))
    requires
        grammar::well_terminated(lexer::tokens_model(tokens@)),
    ensures
        (r.0@, error::errors_model(r.1@)) == grammar::parse_lenient_spec(lexer::tokens_model(tokens@)),
{
    let mut p = Parser::new(tokens);
    p.lenient = true;
    match p.parse_document() {
        Ok(d) => (d, p.errors),
        Err(e) => {
            let d = Document::default();
            assert(d@.blocks =~= Seq::<BlockModel>::empty());
            let mut errors = p.errors;
            let ghost before = errors@;
            errors.push(e);
            assert(error::errors_model(errors@) =~= error::errors_model(before).push(e@));
            (d, errors)
        },
    }
}

pub open spec fn errors_push(v: Seq<Error>, e: Error) -> Seq<ErrorModel> {
    error::errors_model(v.push(e))
}

/// The first `ch` in `v[from..to]`.
fn find_in(v: &Vec<char>, ch: char, from: usize, to: usize) -> (r: Option<usize>)
    requires
        from <= to <= v@.len(),
    ensures
        match r {
            Some(k) => from <= k < to && v@[k as int] == ch && forall|m: int| from <= m < k ==> v@[m] != ch,
            None => forall|m: int| from <= m < to ==> v@[m] != ch,
        },
{
    let mut k = from;
    while k < to
        invariant
            from <= k <= to <= v@.len(),
            forall|m: int| from <= m < k ==> v@[m] != ch,
        decreases to - k,
    {
        if v[k] == ch {
            return Some(k);
        }
        k = k + 1;
    }
    None
}

proof fn lemma_find_from_some(s: Seq<char>, ch: char, j: int, k: int)
    requires
        0 <= j <= k < s.len(),
        s[k] == ch,
        forall|m: int| j <= m < k ==> s[m] != ch,
    ensures
        grammar::find_from(s, ch, j) == Some(k),
    decreases k - j,
{
    if j < k {
        lemma_find_from_some(s, ch, j + 1, k);
    }
}

proof fn lemma_find_from_none(s: Seq<char>, ch: char, j: int)
    requires
        0 <= j <= s.len(),
        forall|m: int| j <= m < s.len() ==> s[m] != ch,
    ensures
        grammar::find_from(s, ch, j) is None,
    decreases s.len() - j,
{
    if j < s.len() {
        lemma_find_from_none(s, ch, j + 1);
    }
}

/// Extracts `[name:value]` inline tags from a narrative text. The text itself
/// is kept verbatim by the caller.
fn extract_inline_tags(text: &str) -> (tags: Vec<InlineTag>)
    ensures
        ast::inline_tags_model(tags@) == grammar::inline_tags(text@),
{
    let v = chars_of(text);
    let ghost s = text@;
    let mut tags: Vec<InlineTag> = Vec::new();
    let mut i: usize = 0;
    assert(ast::inline_tags_model(tags@) =~= Seq::<InlineTagModel>::empty());
    while i < v.len()
        invariant
            v@ == s,
            i <= v@.len(),
            grammar::inline_tags_from(s, i as int, ast::inline_tags_model(tags@)) == grammar::inline_tags(s),
        decreases v.len() - i,
    {
        if v[i] == '[' {
            match find_in(&v, ']', i + 1, v.len()) {
                Some(close) => {
                    proof {
                        lemma_find_from_some(s, ']', i + 1, close as int);
                    }
                    let ghost inside = s.subrange(i + 1, close as int);
                    let ghost acc = ast::inline_tags_model(tags@);
                    match find_in(&v, ':', i + 1, close) {
                        Some(k) => {
                            proof {
                                lemma_find_from_some(inside, ':', 0, k - (i + 1));
                                assert(inside.subrange(0, k - (i + 1)) =~= s.subrange(i + 1, k as int));
                                assert(inside.subrange(k - (i + 1) + 1, inside.len() as int) =~= s.subrange(k + 1, close as int));
                            }
                            let name = trim_chars(&v, i + 1, k);
                            let value = trim_chars(&v, k + 1, close);
                            if !name.as_str().is_empty() {
                                proof {
                                    assert(name@.len() > 0);
                                }
                                let t = InlineTag { name, value };
                                proof {
                                    assert(ast::inline_tags_model(tags@.push(t)) =~= acc.push(t@));
                                }
                                tags.push(t);
                            } else {
                                proof {
                                    assert(name@.len() == 0);
                                }
                            }
                        },
                        None => {
                            proof {
                                lemma_find_from_none(inside, ':', 0);
                            }
                        },
                    }
                    i = close + 1;
                },
                None => {
                    proof {
                        lemma_find_from_none(s, ']', i + 1);
                    }
                    i = i + 1;
                },
            }
        } else {
            i = i + 1;
        }
    }
    tags
}

pub open spec fn kind_at_is(c: Ctx, p: int, k: TokenKind) -> bool {
    grammar::kind_at(c, p) == k
}

} // verus!
