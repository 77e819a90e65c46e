//! Lexer for FTAI source text: a flat stream of [`Token`]s for the parser.
//!
//! The lexer is also the input-validation boundary: null bytes, control
//! characters and oversize tag names are rejected here with
//! `Error::InputInjection`.

use vstd::prelude::*;
use crate::ast::Span;
use crate::error::{Error, ErrorModel};
use crate::text::{self, chars_of, is_control_char, position_message, push_char, string_from_chars};

verus! {

/// Maximum length of a tag identifier.
pub const MAX_TAG_LEN: usize = 256;

/// Token kinds: the grammar's terminals plus newlines and end of input.
#[derive(Debug, Clone, Copy, PartialEq, Eq, Structural)]
pub enum TokenKind {
    /// Literal `@` (start of a tag).
    At,
    /// Identifier: an ASCII letter followed by ASCII letters, digits, underscores.
    Identifier,
    /// Colon, the key/value separator.
    Colon,
    /// Quoted string, contents already unescaped.
    QuotedString,
    /// Unquoted string (no whitespace, no special characters).
    UnquotedString,
    /// `[` literal.
    LeftBracket,
    /// `]` literal.
    RightBracket,
    /// `,` literal (inside lists).
    Comma,
    /// `---` narrative separator (exactly three hyphens on their own line).
    NarrativeSeparator,
    /// One or more contiguous newlines.
    Newline,
    /// End of input marker.
    Eof,
}

/// One token from the lexer.
#[derive(Debug, PartialEq)]
pub struct Token {
    /// Discriminant.
    pub kind: TokenKind,
    /// Source text that produced this token (quoted strings: unescaped contents).
    pub lexeme: String,
    /// Source span.
    pub span: Span,
}

/// Model of a [`Token`].
pub struct TokenModel {
    pub kind: TokenKind,
    pub lexeme: Seq<char>,
    pub span: Span,
}

impl View for Token {
    type V = TokenModel;

    open spec fn view(&self) -> TokenModel {
        TokenModel { kind: self.kind, lexeme: self.lexeme@, span: self.span }
    }
}

impl Clone for Token {
    fn clone(&self) -> (r: Token)
        ensures
            r@ == self@,
    {
        Token { kind: self.kind, lexeme: self.lexeme.clone(), span: self.span }
    }
}

pub open spec fn tokens_model(s: Seq<Token>) -> Seq<TokenModel> {
    Seq::new(s.len(), |i: int| s[i]@)
}

// ---------------------------------------------------------------------------
// Specification
// ---------------------------------------------------------------------------

/// Lexer position: index of the next character, 1-based line and column, and
/// whether no token has been produced yet on the current line.
pub struct LexState {
    pub i: int,
    pub line: int,
    pub col: int,
    pub line_start: bool,
}

pub open spec fn span_of(line: int, col: int, end_line: int, end_col: int) -> Span {
    Span {
        start_line: line as usize,
        start_col: col as usize,
        end_line: end_line as usize,
        end_col: end_col as usize,
    }
}

pub open spec fn token_model(kind: TokenKind, lexeme: Seq<char>, line: int, col: int, end_col: int) -> TokenModel {
    TokenModel { kind, lexeme, span: span_of(line, col, line, end_col) }
}

/// Characters that end an unquoted word besides whitespace and controls.
pub open spec fn is_special(c: char) -> bool {
    c == ' ' || c == '@' || c == ':' || c == '"' || c == '[' || c == ']' || c == ','
}

/// A character that may appear in an unquoted word.
pub open spec fn is_word_char(c: char) -> bool {
    !text::is_control(c) && !is_special(c)
}

/// Single-character punctuation tokens.
pub open spec fn punct_kind(c: char) -> Option<TokenKind> {
    if c == '@' {
        Some(TokenKind::At)
    } else if c == ':' {
        Some(TokenKind::Colon)
    } else if c == '[' {
        Some(TokenKind::LeftBracket)
    } else if c == ']' {
        Some(TokenKind::RightBracket)
    } else if c == ',' {
        Some(TokenKind::Comma)
    } else {
        None
    }
}

/// `[A-Za-z][A-Za-z0-9_]*`
pub open spec fn is_identifier(w: Seq<char>) -> bool {
    &&& w.len() > 0
    &&& text::is_ascii_alpha(w[0])
    &&& forall|k: int| 1 <= k < w.len() ==> text::is_ascii_alnum(#[trigger] w[k]) || w[k] == '_'
}

/// A line break at `i`: `\n`, or `\r\n`.
pub open spec fn line_break_at(s: Seq<char>, i: int) -> bool {
    (i < s.len() && s[i] == '\n') || (i + 1 < s.len() && s[i] == '\r' && s[i + 1] == '\n')
}

/// `---` at `i`, followed by a line break or the end of input.
pub open spec fn separator_at(s: Seq<char>, i: int) -> bool {
    &&& i + 3 <= s.len()
    &&& s[i] == '-' && s[i + 1] == '-' && s[i + 2] == '-'
    &&& (i + 3 == s.len() || line_break_at(s, i + 3))
}

/// Whitespace skipped between tokens: space, tab, and a `\r` that starts `\r\n`.
pub open spec fn skippable_at(s: Seq<char>, i: int) -> bool {
    s[i] == ' ' || s[i] == '\t' || (s[i] == '\r' && i + 1 < s.len() && s[i + 1] == '\n')
}

/// End of the unquoted word that starts at `i`.
pub open spec fn word_end(s: Seq<char>, i: int) -> int
    decreases s.len() - i,
{
    if i < s.len() && is_word_char(s[i]) {
        word_end(s, i + 1)
    } else {
        i
    }
}

pub proof fn lemma_word_end_bounds(s: Seq<char>, i: int)
    requires
        0 <= i <= s.len(),
    ensures
        i <= word_end(s, i) <= s.len(),
    decreases s.len() - i,
{
    if i < s.len() && is_word_char(s[i]) {
        lemma_word_end_bounds(s, i + 1);
    }
}

pub open spec fn null_message(line: int, col: int) -> Seq<char> {
    text::at_position("null byte"@, line as nat, col as nat)
}

pub open spec fn control_message(line: int, col: int) -> Seq<char> {
    text::at_position("control character"@, line as nat, col as nat)
}

pub open spec fn oversize_message(line: int, col: int) -> Seq<char> {
    text::at_position("tag name longer than 256 characters"@, line as nat, col as nat)
}

pub open spec fn unterminated_quote(found: Seq<char>, line: int, col: int) -> ErrorModel {
    ErrorModel::UnexpectedToken {
        expected: "closing quote"@,
        found,
        line: line as usize,
        column: col as usize,
    }
}

/// The character an escape `\e` stands for, if `e` is a recognised escape.
pub open spec fn escaped(e: char) -> Option<char> {
    if e == '"' {
        Some('"')
    } else if e == '\\' {
        Some('\\')
    } else if e == 'n' {
        Some('\n')
    } else if e == 't' {
        Some('\t')
    } else if e == 'r' {
        Some('\r')
    } else {
        None
    }
}

/// Body of a quoted string from index `j` (column `col`), with `text` read so
/// far; the string opened at (`line`, `qcol`). On success: the index after the
/// closing quote, the unescaped contents, and the column after the closing quote.
pub open spec fn lex_quoted(s: Seq<char>, j: int, col: int, text: Seq<char>, line: int, qcol: int) -> Result<(int, Seq<char>, int), ErrorModel>
    decreases s.len() - j,
{
    if j < 0 || j >= s.len() {
        Err(unterminated_quote("EOF"@, line, qcol))
    } else {
        let c = s[j];
        if c == '"' {
            Ok((j + 1, text, col + 1))
        } else if c == '\n' {
            Err(unterminated_quote("newline"@, line, qcol))
        } else if c == '\0' {
            Err(ErrorModel::InputInjection(null_message(line, col)))
        } else if c == '\\' {
            if j + 1 >= s.len() {
                Err(unterminated_quote("EOF"@, line, qcol))
            } else {
                match escaped(s[j + 1]) {
                    Some(e) => lex_quoted(s, j + 2, col + 2, text.push(e), line, qcol),
                    None => lex_quoted(s, j + 1, col + 1, text.push('\\'), line, qcol),
                }
            }
        } else if text::is_control(c) && c != '\t' {
            Err(ErrorModel::InputInjection(control_message(line, col)))
        } else {
            lex_quoted(s, j + 1, col + 1, text.push(c), line, qcol)
        }
    }
}

pub open spec fn last_is(acc: Seq<TokenModel>, k: TokenKind) -> bool {
    acc.len() > 0 && acc.last().kind == k
}

/// The lexer as a state machine: tokens `acc` produced so far, from state `st`.
pub open spec fn lex_from(s: Seq<char>, st: LexState, acc: Seq<TokenModel>) -> Result<Seq<TokenModel>, ErrorModel>
    decreases s.len() - st.i,
{
    if st.i < 0 || st.i >= s.len() {
        Ok(acc.push(token_model(TokenKind::Eof, Seq::empty(), st.line, st.col, st.col)))
    } else {
        let i = st.i;
        let c = s[i];
        if c == '\0' {
            Err(ErrorModel::InputInjection(null_message(st.line, st.col)))
        } else if skippable_at(s, i) {
            lex_from(s, LexState { i: i + 1, col: st.col + 1, ..st }, acc)
        } else if c == '\n' {
            let acc2 = if last_is(acc, TokenKind::Newline) {
                acc
            } else {
                acc.push(token_model(TokenKind::Newline, seq!['\n'], st.line, st.col, st.col + 1))
            };
            lex_from(s, LexState { i: i + 1, line: st.line + 1, col: 1, line_start: true }, acc2)
        } else if text::is_control(c) {
            Err(ErrorModel::InputInjection(control_message(st.line, st.col)))
        } else if st.line_start && separator_at(s, i) {
            lex_from(
                s,
                LexState { i: i + 3, line: st.line, col: st.col + 3, line_start: false },
                acc.push(token_model(TokenKind::NarrativeSeparator, seq!['-', '-', '-'], st.line, st.col, st.col + 3)),
            )
        } else if punct_kind(c) is Some {
            lex_from(
                s,
                LexState { i: i + 1, line: st.line, col: st.col + 1, line_start: false },
                acc.push(token_model(punct_kind(c)->0, seq![c], st.line, st.col, st.col + 1)),
            )
        } else if c == '"' {
            match lex_quoted(s, i + 1, st.col + 1, Seq::empty(), st.line, st.col) {
                Err(e) => Err(e),
                Ok((j, text, end_col)) => if j <= i || j > s.len() {
                    Err(unterminated_quote("EOF"@, st.line, st.col))
                } else {
                    lex_from(
                        s,
                        LexState { i: j, line: st.line, col: end_col, line_start: false },
                        acc.push(token_model(TokenKind::QuotedString, text, st.line, st.col, end_col)),
                    )
                },
            }
        } else {
            let j = word_end(s, i);
            let w = s.subrange(i, j);
            let kind = if is_identifier(w) {
                TokenKind::Identifier
            } else {
                TokenKind::UnquotedString
            };
            if last_is(acc, TokenKind::At) && w.len() > MAX_TAG_LEN {
                Err(ErrorModel::InputInjection(oversize_message(st.line, st.col)))
            } else if j <= i || j > s.len() {
                Err(ErrorModel::InputInjection(control_message(st.line, st.col)))
            } else {
                lex_from(
                    s,
                    LexState { i: j, line: st.line, col: st.col + (j - i), line_start: false },
                    acc.push(token_model(kind, w, st.line, st.col, st.col + (j - i))),
                )
            }
        }
    }
}

/// Tokens produced from any state end with exactly one `Eof`, the last token.
pub proof fn lemma_lex_from_eof(s: Seq<char>, st: LexState, acc: Seq<TokenModel>)
    requires
        forall|k: int| 0 <= k < acc.len() ==> (#[trigger] acc[k]).kind != TokenKind::Eof,
    ensures
        lex_from(s, st, acc) matches Ok(t) ==> {
            &&& t.len() > 0
            &&& t.last().kind == TokenKind::Eof
            &&& forall|k: int| 0 <= k < t.len() - 1 ==> (#[trigger] t[k]).kind != TokenKind::Eof
        },
    decreases s.len() - st.i,
{
    if st.i < 0 || st.i >= s.len() {
    } else {
        let i = st.i;
        let c = s[i];
        if c == '\0' {
        } else if skippable_at(s, i) {
            lemma_lex_from_eof(s, LexState { i: i + 1, col: st.col + 1, ..st }, acc);
        } else if c == '\n' {
            let acc2 = if last_is(acc, TokenKind::Newline) {
                acc
            } else {
                acc.push(token_model(TokenKind::Newline, seq!['\n'], st.line, st.col, st.col + 1))
            };
            lemma_lex_from_eof(s, LexState { i: i + 1, line: st.line + 1, col: 1, line_start: true }, acc2);
        } else if text::is_control(c) {
        } else if st.line_start && separator_at(s, i) {
            lemma_lex_from_eof(
                s,
                LexState { i: i + 3, line: st.line, col: st.col + 3, line_start: false },
                acc.push(token_model(TokenKind::NarrativeSeparator, seq!['-', '-', '-'], st.line, st.col, st.col + 3)),
            );
        } else if punct_kind(c) is Some {
            lemma_lex_from_eof(
                s,
                LexState { i: i + 1, line: st.line, col: st.col + 1, line_start: false },
                acc.push(token_model(punct_kind(c)->0, seq![c], st.line, st.col, st.col + 1)),
            );
        } else if c == '"' {
            match lex_quoted(s, i + 1, st.col + 1, Seq::empty(), st.line, st.col) {
                Err(e) => {},
                Ok((j, text, end_col)) => if j <= i || j > s.len() {
                } else {
                    lemma_lex_from_eof(
                        s,
                        LexState { i: j, line: st.line, col: end_col, line_start: false },
                        acc.push(token_model(TokenKind::QuotedString, text, st.line, st.col, end_col)),
                    );
                },
            }
        } else {
            let j = word_end(s, i);
            let w = s.subrange(i, j);
            let kind = if is_identifier(w) {
                TokenKind::Identifier
            } else {
                TokenKind::UnquotedString
            };
            if last_is(acc, TokenKind::At) && w.len() > MAX_TAG_LEN {
            } else if j <= i || j > s.len() {
            } else {
                lemma_lex_from_eof(
                    s,
                    LexState { i: j, line: st.line, col: st.col + (j - i), line_start: false },
                    acc.push(token_model(kind, w, st.line, st.col, st.col + (j - i))),
                );
            }
        }
    }
}

/// A character the lexer lets through at `i`: anything but a control
/// character, except tab, newline, and a carriage return before a newline.
pub open spec fn permitted_at(s: Seq<char>, i: int) -> bool {
    !text::is_control(s[i]) || s[i] == '\t' || s[i] == '\n' || (s[i] == '\r' && i + 1 < s.len()
        && s[i + 1] == '\n')
}

proof fn lemma_quoted_clean(s: Seq<char>, j: int, col: int, txt: Seq<char>, line: int, qcol: int)
    requires
        0 <= j,
    ensures
        lex_quoted(s, j, col, txt, line, qcol) matches Ok((e, _, _)) ==> j < e <= s.len() && forall|k: int|
            j <= k < e ==> permitted_at(s, k),
    decreases s.len() - j,
{
    if j >= s.len() {
    } else {
        let c = s[j];
        if c == '"' {
        } else if c == '\n' {
        } else if c == '\0' {
        } else if c == '\\' {
            if j + 1 >= s.len() {
            } else {
                match escaped(s[j + 1]) {
                    Some(e) => lemma_quoted_clean(s, j + 2, col + 2, txt.push(e), line, qcol),
                    None => lemma_quoted_clean(s, j + 1, col + 1, txt.push('\\'), line, qcol),
                }
            }
        } else if text::is_control(c) && c != '\t' {
        } else {
            lemma_quoted_clean(s, j + 1, col + 1, txt.push(c), line, qcol);
        }
    }
}

proof fn lemma_word_clean(s: Seq<char>, i: int, k: int)
    requires
        0 <= i <= k < word_end(s, i),
    ensures
        is_word_char(s[k]),
    decreases k - i,
{
    if i < k {
        lemma_word_clean(s, i + 1, k);
    }
}

/// Lexing succeeds only on text whose every character from `st.i` on is permitted.
pub proof fn lemma_lex_from_clean(s: Seq<char>, st: LexState, acc: Seq<TokenModel>)
    requires
        0 <= st.i,
    ensures
        lex_from(s, st, acc) is Ok ==> forall|k: int| st.i <= k < s.len() ==> permitted_at(s, k),
    decreases s.len() - st.i,
{
    if st.i >= s.len() {
    } else {
        let i = st.i;
        let c = s[i];
        if c == '\0' {
        } else if skippable_at(s, i) {
            lemma_lex_from_clean(s, LexState { i: i + 1, col: st.col + 1, ..st }, acc);
        } else if c == '\n' {
            let acc2 = if last_is(acc, TokenKind::Newline) {
                acc
            } else {
                acc.push(token_model(TokenKind::Newline, seq!['\n'], st.line, st.col, st.col + 1))
            };
            lemma_lex_from_clean(s, LexState { i: i + 1, line: st.line + 1, col: 1, line_start: true }, acc2);
        } else if text::is_control(c) {
        } else if st.line_start && separator_at(s, i) {
            lemma_lex_from_clean(
                s,
                LexState { i: i + 3, line: st.line, col: st.col + 3, line_start: false },
                acc.push(token_model(TokenKind::NarrativeSeparator, seq!['-', '-', '-'], st.line, st.col, st.col + 3)),
            );
        } else if punct_kind(c) is Some {
            lemma_lex_from_clean(
                s,
                LexState { i: i + 1, line: st.line, col: st.col + 1, line_start: false },
                acc.push(token_model(punct_kind(c)->0, seq![c], st.line, st.col, st.col + 1)),
            );
        } else if c == '"' {
            lemma_quoted_clean(s, i + 1, st.col + 1, Seq::empty(), st.line, st.col);
            match lex_quoted(s, i + 1, st.col + 1, Seq::empty(), st.line, st.col) {
                Err(e) => {},
                Ok((j, txt, end_col)) => if j <= i || j > s.len() {
                } else {
                    lemma_lex_from_clean(
                        s,
                        LexState { i: j, line: st.line, col: end_col, line_start: false },
                        acc.push(token_model(TokenKind::QuotedString, txt, st.line, st.col, end_col)),
                    );
                },
            }
        } else {
            let j = word_end(s, i);
            let w = s.subrange(i, j);
            let kind = if is_identifier(w) {
                TokenKind::Identifier
            } else {
                TokenKind::UnquotedString
            };
            if last_is(acc, TokenKind::At) && w.len() > MAX_TAG_LEN {
            } else if j <= i || j > s.len() {
            } else {
                lemma_lex_from_clean(
                    s,
                    LexState { i: j, line: st.line, col: st.col + (j - i), line_start: false },
                    acc.push(token_model(kind, w, st.line, st.col, st.col + (j - i))),
                );
                assert forall|k: int| i <= k < j implies permitted_at(s, k) by {
                    lemma_word_clean(s, i, k);
                }
            }
        }
    }
}

/// Every word right after an `@` (a tag name) is at most `MAX_TAG_LEN` long.
#[verifier::opaque]
pub open spec fn tag_names_bounded(t: Seq<TokenModel>) -> bool {
    forall|k: int|
        0 <= k < t.len() - 1 && (#[trigger] t[k]).kind == TokenKind::At && (t[k + 1].kind
            == TokenKind::Identifier || t[k + 1].kind == TokenKind::UnquotedString) ==> t[k
            + 1].lexeme.len() <= MAX_TAG_LEN
}

proof fn lemma_push_bounded(acc: Seq<TokenModel>, x: TokenModel)
    requires
        tag_names_bounded(acc),
        last_is(acc, TokenKind::At) && (x.kind == TokenKind::Identifier || x.kind
            == TokenKind::UnquotedString) ==> x.lexeme.len() <= MAX_TAG_LEN,
    ensures
        tag_names_bounded(acc.push(x)),
{
    reveal(tag_names_bounded);
    let t = acc.push(x);
    assert forall|k: int|
        0 <= k < t.len() - 1 && (#[trigger] t[k]).kind == TokenKind::At && (t[k + 1].kind
            == TokenKind::Identifier || t[k + 1].kind == TokenKind::UnquotedString) implies t[k
        + 1].lexeme.len() <= MAX_TAG_LEN by {
        if k < acc.len() - 1 {
            assert(acc[k] == t[k] && acc[k + 1] == t[k + 1]);
        } else {
            assert(k == acc.len() - 1);
            assert(acc.last() == t[k]);
        }
    }
}

/// Lexing succeeds only when every tag name is at most `MAX_TAG_LEN` long.
pub proof fn lemma_lex_from_tag_names(s: Seq<char>, st: LexState, acc: Seq<TokenModel>)
    requires
        tag_names_bounded(acc),
    ensures
        lex_from(s, st, acc) matches Ok(t) ==> tag_names_bounded(t),
    decreases s.len() - st.i,
{
    if st.i < 0 || st.i >= s.len() {
        lemma_push_bounded(acc, token_model(TokenKind::Eof, Seq::empty(), st.line, st.col, st.col));
    } else {
        let i = st.i;
        let c = s[i];
        if c == '\0' {
        } else if skippable_at(s, i) {
            lemma_lex_from_tag_names(s, LexState { i: i + 1, col: st.col + 1, ..st }, acc);
        } else if c == '\n' {
            let nl = token_model(TokenKind::Newline, seq!['\n'], st.line, st.col, st.col + 1);
            let acc2 = if last_is(acc, TokenKind::Newline) {
                acc
            } else {
                lemma_push_bounded(acc, nl);
                acc.push(nl)
            };
            lemma_lex_from_tag_names(s, LexState { i: i + 1, line: st.line + 1, col: 1, line_start: true }, acc2);
        } else if text::is_control(c) {
        } else if st.line_start && separator_at(s, i) {
            let x = token_model(TokenKind::NarrativeSeparator, seq!['-', '-', '-'], st.line, st.col, st.col + 3);
            lemma_push_bounded(acc, x);
            lemma_lex_from_tag_names(s, LexState { i: i + 3, line: st.line, col: st.col + 3, line_start: false }, acc.push(x));
        } else if punct_kind(c) is Some {
            let x = token_model(punct_kind(c)->0, seq![c], st.line, st.col, st.col + 1);
            lemma_push_bounded(acc, x);
            lemma_lex_from_tag_names(s, LexState { i: i + 1, line: st.line, col: st.col + 1, line_start: false }, acc.push(x));
        } else if c == '"' {
            match lex_quoted(s, i + 1, st.col + 1, Seq::empty(), st.line, st.col) {
                Err(e) => {},
                Ok((j, txt, end_col)) => if j <= i || j > s.len() {
                } else {
                    let x = token_model(TokenKind::QuotedString, txt, st.line, st.col, end_col);
                    lemma_push_bounded(acc, x);
                    lemma_lex_from_tag_names(s, LexState { i: j, line: st.line, col: end_col, line_start: false }, acc.push(x));
                },
            }
        } else {
            let j = word_end(s, i);
            let w = s.subrange(i, j);
            let kind = if is_identifier(w) {
                TokenKind::Identifier
            } else {
                TokenKind::UnquotedString
            };
            if last_is(acc, TokenKind::At) && w.len() > MAX_TAG_LEN {
            } else if j <= i || j > s.len() {
            } else {
                let x = token_model(kind, w, st.line, st.col, st.col + (j - i));
                lemma_push_bounded(acc, x);
                lemma_lex_from_tag_names(s, LexState { i: j, line: st.line, col: st.col + (j - i), line_start: false }, acc.push(x));
            }
        }
    }
}

/// Every token begins at line 1 and column 1 or later.
pub open spec fn tokens_positioned(t: Seq<TokenModel>) -> bool {
    forall|k: int| 0 <= k < t.len() ==> (#[trigger] t[k]).span.start_line >= 1 && t[k].span.start_col >= 1
}

/// Every identifier token is an identifier (a letter, then letters, digits and `_`).
pub open spec fn identifiers_shaped(t: Seq<TokenModel>) -> bool {
    forall|k: int| 0 <= k < t.len() && (#[trigger] t[k]).kind == TokenKind::Identifier ==> is_identifier(t[k].lexeme)
}

/// No two newline tokens follow each other (blank lines collapse into one).
pub open spec fn newlines_collapsed(t: Seq<TokenModel>) -> bool {
    forall|k: int| 0 <= k < t.len() - 1 && (#[trigger] t[k]).kind == TokenKind::Newline ==> t[k + 1].kind != TokenKind::Newline
}

/// Positioned tokens, shaped identifiers and collapsed newlines.
#[verifier::opaque]
pub open spec fn tokens_well_formed(t: Seq<TokenModel>) -> bool {
    &&& tokens_positioned(t)
    &&& identifiers_shaped(t)
    &&& newlines_collapsed(t)
}

proof fn lemma_push_positioned(acc: Seq<TokenModel>, x: TokenModel)
    requires
        tokens_positioned(acc),
        x.span.start_line >= 1,
        x.span.start_col >= 1,
    ensures
        tokens_positioned(acc.push(x)),
{
    let t = acc.push(x);
    assert forall|k: int| 0 <= k < t.len() implies (#[trigger] t[k]).span.start_line >= 1 && t[k].span.start_col >= 1 by {
        if k < acc.len() {
            assert(t[k] == acc[k]);
        }
    }
}

proof fn lemma_push_shaped(acc: Seq<TokenModel>, x: TokenModel)
    requires
        identifiers_shaped(acc),
        x.kind == TokenKind::Identifier ==> is_identifier(x.lexeme),
    ensures
        identifiers_shaped(acc.push(x)),
{
    let t = acc.push(x);
    assert forall|k: int| 0 <= k < t.len() && (#[trigger] t[k]).kind == TokenKind::Identifier implies is_identifier(t[k].lexeme) by {
        if k < acc.len() {
            assert(t[k] == acc[k]);
        }
    }
}

proof fn lemma_push_collapsed(acc: Seq<TokenModel>, x: TokenModel)
    requires
        newlines_collapsed(acc),
        x.kind == TokenKind::Newline ==> !last_is(acc, TokenKind::Newline),
    ensures
        newlines_collapsed(acc.push(x)),
{
    let t = acc.push(x);
    assert forall|k: int| 0 <= k < t.len() - 1 && (#[trigger] t[k]).kind == TokenKind::Newline implies t[k + 1].kind != TokenKind::Newline by {
        if k < acc.len() - 1 {
            assert(t[k] == acc[k] && t[k + 1] == acc[k + 1]);
        } else {
            assert(t[k] == acc.last() && t[k + 1] == x);
        }
    }
}

proof fn lemma_push_well_formed(acc: Seq<TokenModel>, x: TokenModel)
    requires
        tokens_well_formed(acc),
        x.span.start_line >= 1,
        x.span.start_col >= 1,
        x.kind == TokenKind::Identifier ==> is_identifier(x.lexeme),
        x.kind == TokenKind::Newline ==> !last_is(acc, TokenKind::Newline),
    ensures
        tokens_well_formed(acc.push(x)),
{
    reveal(tokens_well_formed);
    lemma_push_positioned(acc, x);
    lemma_push_shaped(acc, x);
    lemma_push_collapsed(acc, x);
}

/// A quoted string advances the column as far as the index.
proof fn lemma_quoted_col(s: Seq<char>, j: int, col: int, txt: Seq<char>, line: int, qcol: int)
    ensures
        lex_quoted(s, j, col, txt, line, qcol) matches Ok((e, _, ec)) ==> ec - e == col - j,
    decreases s.len() - j,
{
    if j < 0 || j >= s.len() {
    } else {
        let c = s[j];
        if c == '"' {
        } else if c == '\\' {
            if j + 1 < s.len() {
                match escaped(s[j + 1]) {
                    Some(e) => lemma_quoted_col(s, j + 2, col + 2, txt.push(e), line, qcol),
                    None => lemma_quoted_col(s, j + 1, col + 1, txt.push('\\'), line, qcol),
                }
            }
        } else if c == '\n' || c == '\0' || (text::is_control(c) && c != '\t') {
        } else {
            lemma_quoted_col(s, j + 1, col + 1, txt.push(c), line, qcol);
        }
    }
}

/// In well-formed tokens, every identifier token has a non-empty name.
pub proof fn lemma_well_formed_idents(t: Seq<TokenModel>)
    requires
        tokens_well_formed(t),
    ensures
        forall|k: int| 0 <= k < t.len() && (#[trigger] t[k]).kind == TokenKind::Identifier ==> t[k].lexeme.len() > 0,
{
    reveal(tokens_well_formed);
}

/// No tokens at all are well formed.
pub proof fn lemma_empty_well_formed()
    ensures
        tokens_well_formed(Seq::empty()),
{
    reveal(tokens_well_formed);
}

/// Tokens lexed from a state within the text are well formed.
pub proof fn lemma_lex_from_well_formed(s: Seq<char>, st: LexState, acc: Seq<TokenModel>)
    requires
        tokens_well_formed(acc),
        s.len() < usize::MAX,
        0 <= st.i <= s.len(),
        1 <= st.line <= st.i + 1,
        1 <= st.col <= st.i + 1,
    ensures
        lex_from(s, st, acc) matches Ok(t) ==> tokens_well_formed(t),
    decreases s.len() - st.i,
{
    if st.i < 0 || st.i >= s.len() {
        lemma_push_well_formed(acc, token_model(TokenKind::Eof, Seq::empty(), st.line, st.col, st.col));
    } else {
        let i = st.i;
        let c = s[i];
        if c == '\0' {
        } else if skippable_at(s, i) {
            lemma_lex_from_well_formed(s, LexState { i: i + 1, col: st.col + 1, ..st }, acc);
        } else if c == '\n' {
            let nl = token_model(TokenKind::Newline, seq!['\n'], st.line, st.col, st.col + 1);
            let acc2 = if last_is(acc, TokenKind::Newline) {
                acc
            } else {
                lemma_push_well_formed(acc, nl);
                acc.push(nl)
            };
            lemma_lex_from_well_formed(s, LexState { i: i + 1, line: st.line + 1, col: 1, line_start: true }, acc2);
        } else if text::is_control(c) {
        } else if st.line_start && separator_at(s, i) {
            let x = token_model(TokenKind::NarrativeSeparator, seq!['-', '-', '-'], st.line, st.col, st.col + 3);
            lemma_push_well_formed(acc, x);
            lemma_lex_from_well_formed(s, LexState { i: i + 3, line: st.line, col: st.col + 3, line_start: false }, acc.push(x));
        } else if punct_kind(c) is Some {
            let x = token_model(punct_kind(c)->0, seq![c], st.line, st.col, st.col + 1);
            assert(punct_kind(c)->0 != TokenKind::Identifier && punct_kind(c)->0 != TokenKind::Newline);
            lemma_push_well_formed(acc, x);
            lemma_lex_from_well_formed(s, LexState { i: i + 1, line: st.line, col: st.col + 1, line_start: false }, acc.push(x));
        } else if c == '"' {
            lemma_quoted_col(s, i + 1, st.col + 1, Seq::empty(), st.line, st.col);
            match lex_quoted(s, i + 1, st.col + 1, Seq::empty(), st.line, st.col) {
                Err(e) => {},
                Ok((j, txt, end_col)) => if j <= i || j > s.len() {
                } else {
                    let x = token_model(TokenKind::QuotedString, txt, st.line, st.col, end_col);
                    lemma_push_well_formed(acc, x);
                    lemma_lex_from_well_formed(s, LexState { i: j, line: st.line, col: end_col, line_start: false }, acc.push(x));
                },
            }
        } else {
            let j = word_end(s, i);
            let w = s.subrange(i, j);
            let kind = if is_identifier(w) {
                TokenKind::Identifier
            } else {
                TokenKind::UnquotedString
            };
            if last_is(acc, TokenKind::At) && w.len() > MAX_TAG_LEN {
            } else if j <= i || j > s.len() {
            } else {
                let x = token_model(kind, w, st.line, st.col, st.col + (j - i));
                lemma_push_well_formed(acc, x);
                lemma_lex_from_well_formed(s, LexState { i: j, line: st.line, col: st.col + (j - i), line_start: false }, acc.push(x));
            }
        }
    }
}

/// The token stream of a source text, or the first lexical error.
pub open spec fn lex(s: Seq<char>) -> Result<Seq<TokenModel>, ErrorModel> {
    lex_from(s, LexState { i: 0, line: 1, col: 1, line_start: true }, Seq::empty())
}

// ---------------------------------------------------------------------------
// Implementation
// ---------------------------------------------------------------------------

pub open spec fn tokenize_result(r: Result<Vec<Token>, Error>) -> Result<Seq<TokenModel>, ErrorModel> {
    match r {
        Ok(t) => Ok(tokens_model(t@)),
        Err(e) => Err(e@),
    }
}

fn is_word_char_exec(c: char) -> (b: bool)
    ensures
        b == is_word_char(c),
{
    !is_control_char(c) && !(c == ' ' || c == '@' || c == ':' || c == '"' || c == '[' || c == ']'
        || c == ',')
}

fn is_identifier_exec(v: &Vec<char>, from: usize, to: usize) -> (b: bool)
    requires
        from <= to <= v@.len(),
    ensures
        b == is_identifier(v@.subrange(from as int, to as int)),
{
    let ghost w = v@.subrange(from as int, to as int);
    if from == to {
        return false;
    }
    let c0 = v[from];
    if !(('a' <= c0 && c0 <= 'z') || ('A' <= c0 && c0 <= 'Z')) {
        return false;
    }
    let mut k = from + 1;
    while k < to
        invariant
            from < k <= to <= v@.len(),
            w == v@.subrange(from as int, to as int),
            forall|m: int| 1 <= m < k - from ==> text::is_ascii_alnum(#[trigger] w[m]) || w[m] == '_',
        decreases to - k,
    {
        let c = v[k];
        if !(('a' <= c && c <= 'z') || ('A' <= c && c <= 'Z') || ('0' <= c && c <= '9') || c
            == '_') {
            assert(w[k - from] == c);
            return false;
        }
        k = k + 1;
    }
    true
}

fn make_token(kind: TokenKind, lexeme: String, line: usize, col: usize, end_col: usize) -> (t: Token)
    ensures
        t@ == token_model(kind, lexeme@, line as int, col as int, end_col as int),
{
    Token {
        kind,
        lexeme,
        span: Span { start_line: line, start_col: col, end_line: line, end_col },
    }
}

proof fn lemma_tokens_model_push(s: Seq<Token>, t: Token)
    ensures
        tokens_model(s.push(t)) == tokens_model(s).push(t@),
{
    assert(tokens_model(s.push(t)) =~= tokens_model(s).push(t@));
}

/// Scans a quoted string whose opening quote is at `i`.
fn lex_quoted_exec(s: &Vec<char>, i: usize, line: usize, qcol: usize) -> (r: Result<(usize, String, usize), Error>)
    requires
        i < s@.len() < usize::MAX,
        1 <= qcol <= i + 1,
    ensures
        match r {
            Ok((j, text, end_col)) => lex_quoted(s@, i + 1, qcol + 1, Seq::empty(), line as int, qcol as int)
                == Ok::<(int, Seq<char>, int), ErrorModel>((j as int, text@, end_col as int)) && i < j <= s@.len()
                && end_col == qcol + (j - i),
            Err(e) => lex_quoted(s@, i + 1, qcol + 1, Seq::empty(), line as int, qcol as int) == Err::<(int, Seq<char>, int), ErrorModel>(e@),
        },
{
    let n = s.len();
    let mut j = i + 1;
    let mut col = qcol + 1;
    let mut text = String::new();
    while j < n
        invariant
            n == s@.len() < usize::MAX,
            i < j <= n,
            col == qcol + (j - i),
            1 <= qcol <= i + 1,
            lex_quoted(s@, j as int, col as int, text@, line as int, qcol as int)
                == lex_quoted(s@, i + 1, qcol + 1, Seq::empty(), line as int, qcol as int),
        decreases n - j,
    {
        let c = s[j];
        if c == '"' {
            return Ok((j + 1, text, col + 1));
        } else if c == '\n' {
            return Err(
                Error::UnexpectedToken {
                    expected: String::from_str("closing quote"),
                    found: String::from_str("newline"),
                    line,
                    column: qcol,
                },
            );
        } else if c == '\0' {
            return Err(Error::InputInjection(position_message("null byte", line, col)));
        } else if c == '\\' {
            if j + 1 >= n {
                return Err(
                    Error::UnexpectedToken {
                        expected: String::from_str("closing quote"),
                        found: String::from_str("EOF"),
                        line,
                        column: qcol,
                    },
                );
            }
            let e = s[j + 1];
            if e == '"' || e == '\\' || e == 'n' || e == 't' || e == 'r' {
                let ch = if e == '"' {
                    '"'
                } else if e == '\\' {
                    '\\'
                } else if e == 'n' {
                    '\n'
                } else if e == 't' {
                    '\t'
                } else {
                    '\r'
                };
                push_char(&mut text, ch);
                j = j + 2;
                col = col + 2;
            } else {
                push_char(&mut text, '\\');
                j = j + 1;
                col = col + 1;
            }
        } else if is_control_char(c) && c != '\t' {
            return Err(Error::InputInjection(position_message("control character", line, col)));
        } else {
            push_char(&mut text, c);
            j = j + 1;
            col = col + 1;
        }
    }
    Err(
        Error::UnexpectedToken {
            expected: String::from_str("closing quote"),
            found: String::from_str("EOF"),
            line,
            column: qcol,
        },
    )
}

/// Tokenize a complete source string. The stream always ends with one `Eof`.
///
/// Returns `Err(Error::InputInjection)` on the first null byte, control
/// character or oversize tag name, and `Err(Error::UnexpectedToken)` on an
/// unterminated quoted string.
pub fn tokenize(input: &str) -> (r: Result<Vec<Token>, Error>)
    requires
        input@.len() < usize::MAX,
    ensures
        tokenize_result(r) == lex(input@),
        r matches Ok(t) ==> {
            &&& t@.len() > 0
            &&& t@.last().kind == TokenKind::Eof
            &&& forall|k: int| 0 <= k < t@.len() - 1 ==> (#[trigger] t@[k]).kind != TokenKind::Eof
        },
{
    proof {
        lemma_lex_from_eof(input@, LexState { i: 0, line: 1, col: 1, line_start: true }, Seq::empty());
    }
    let s = chars_of(input);
    let n = s.len();
    let mut i: usize = 0;
    let mut line: usize = 1;
    let mut col: usize = 1;
    let mut line_start = true;
    let mut tokens: Vec<Token> = Vec::new();
    assert(tokens_model(tokens@) =~= Seq::<TokenModel>::empty());
    while i < n
        invariant
            n == s@.len() < usize::MAX,
            s@ == input@,
            i <= n,
            1 <= line,
            1 <= col,
            line + col <= i + 2,
            lex_from(s@, LexState { i: i as int, line: line as int, col: col as int, line_start }, tokens_model(tokens@))
                == lex(input@),
        decreases n - i,
    {
        let ghost st = LexState { i: i as int, line: line as int, col: col as int, line_start };
        let ghost acc = tokens_model(tokens@);
        let c = s[i];
        if c == '\0' {
            return Err(Error::InputInjection(position_message("null byte", line, col)));
        } else if c == ' ' || c == '\t' || (c == '\r' && i + 1 < n && s[i + 1] == '\n') {
            i = i + 1;
            col = col + 1;
        } else if c == '\n' {
            let last_newline = tokens.len() > 0 && tokens[tokens.len() - 1].kind == TokenKind::Newline;
            if !last_newline {
                let mut nl = String::new();
                push_char(&mut nl, '\n');
                let t = make_token(TokenKind::Newline, nl, line, col, col + 1);
                proof {
                    lemma_tokens_model_push(tokens@, t);
                    assert(t@.lexeme =~= seq!['\n']);
                }
                tokens.push(t);
            } else {
                assert(last_is(acc, TokenKind::Newline));
            }
            i = i + 1;
            line = line + 1;
            col = 1;
            line_start = true;
        } else if is_control_char(c) {
            return Err(Error::InputInjection(position_message("control character", line, col)));
        } else if line_start && n - i >= 3 && c == '-' && s[i + 1] == '-' && s[i + 2] == '-' && (i
            + 3 == n || s[i + 3] == '\n' || (i + 4 < n && s[i + 3] == '\r' && s[i + 4] == '\n')) {
            let mut lexeme = String::new();
            push_char(&mut lexeme, '-');
            push_char(&mut lexeme, '-');
            push_char(&mut lexeme, '-');
            let t = make_token(TokenKind::NarrativeSeparator, lexeme, line, col, col + 3);
            proof {
                lemma_tokens_model_push(tokens@, t);
                assert(t@.lexeme =~= seq!['-', '-', '-']);
            }
            tokens.push(t);
            i = i + 3;
            col = col + 3;
            line_start = false;
        } else if c == '@' || c == ':' || c == '[' || c == ']' || c == ',' {
            let kind = if c == '@' {
                TokenKind::At
            } else if c == ':' {
                TokenKind::Colon
            } else if c == '[' {
                TokenKind::LeftBracket
            } else if c == ']' {
                TokenKind::RightBracket
            } else {
                TokenKind::Comma
            };
            let mut lexeme = String::new();
            push_char(&mut lexeme, c);
            let t = make_token(kind, lexeme, line, col, col + 1);
            proof {
                lemma_tokens_model_push(tokens@, t);
                assert(t@.lexeme =~= seq![c]);
            }
            tokens.push(t);
            i = i + 1;
            col = col + 1;
            line_start = false;
        } else if c == '"' {
            match lex_quoted_exec(&s, i, line, col) {
                Err(e) => {
                    return Err(e);
                },
                Ok((j, text, end_col)) => {
                    let t = make_token(TokenKind::QuotedString, text, line, col, end_col);
                    proof {
                        lemma_tokens_model_push(tokens@, t);
                    }
                    tokens.push(t);
                    i = j;
                    col = end_col;
                    line_start = false;
                },
            }
        } else {
            let mut j = i;
            proof {
                lemma_word_end_bounds(s@, i as int);
            }
            while j < n && is_word_char_exec(s[j])
                invariant
                    i <= j <= n == s@.len(),
                    word_end(s@, j as int) <= n,
                    word_end(s@, i as int) == word_end(s@, j as int),
                decreases n - j,
            {
                j = j + 1;
            }
            let is_ident = is_identifier_exec(&s, i, j);
            let after_at = tokens.len() > 0 && tokens[tokens.len() - 1].kind == TokenKind::At;
            if after_at && j - i > MAX_TAG_LEN {
                return Err(
                    Error::InputInjection(
                        position_message("tag name longer than 256 characters", line, col),
                    ),
                );
            }
            if j <= i {
                return Err(Error::InputInjection(position_message("control character", line, col)));
            }
            let kind = if is_ident {
                TokenKind::Identifier
            } else {
                TokenKind::UnquotedString
            };
            let w = string_from_chars(&s, i, j);
            let t = make_token(kind, w, line, col, col + (j - i));
            proof {
                lemma_tokens_model_push(tokens@, t);
            }
            tokens.push(t);
            col = col + (j - i);
            i = j;
            line_start = false;
        }
    }
    let t = make_token(TokenKind::Eof, String::new(), line, col, col);
    proof {
        lemma_tokens_model_push(tokens@, t);
    }
    tokens.push(t);
    proof {
        let m = tokens_model(tokens@);
        assert(m.len() == tokens@.len());
        assert forall|k: int| 0 <= k < tokens@.len() implies tokens@[k].kind == #[trigger] m[k].kind by {}
        assert(lex(input@) == Ok::<Seq<TokenModel>, ErrorModel>(m));
        assert(m.last().kind == TokenKind::Eof);
        assert(tokens@.last().kind == m.last().kind);
        assert forall|k: int| 0 <= k < tokens@.len() - 1 implies (#[trigger] tokens@[k]).kind != TokenKind::Eof by {
            assert(m[k].kind != TokenKind::Eof);
        }
    }
    Ok(tokens)
}

} // verus!
