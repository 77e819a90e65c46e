//! Why canonical text parses back to the document it was written from.
//!
//! The lexer is first viewed without source positions: [`lex_kl`] gives the
//! kinds and lexemes of the tokens that [`lexer::lex_from`] produces. The
//! serialized text of a canonical document is then lexed piece by piece, and
//! the grammar is run over the resulting kinds and lexemes.

use vstd::prelude::*;
use crate::ast::{BlockModel, DocumentModel, SectionModel, ValueModel};
use crate::grammar::{self, Ctx};
use crate::lexer::{self, LexState, TokenKind, TokenModel};
use crate::serializer;
use crate::text;

verus! {

// ---------------------------------------------------------------------------
// The lexer without positions
// ---------------------------------------------------------------------------

/// A token's kind and lexeme.
pub type Kl = (TokenKind, Seq<char>);

pub open spec fn kl_of(t: TokenModel) -> Kl {
    (t.kind, t.lexeme)
}

pub open spec fn kls(ts: Seq<TokenModel>) -> Seq<Kl> {
    Seq::new(ts.len(), |i: int| kl_of(ts[i]))
}

pub open spec fn last_kind_is(acc: Seq<Kl>, k: TokenKind) -> bool {
    acc.len() > 0 && acc.last().0 == k
}

/// The body of a quoted string from `j`: the index after the closing quote
/// and the unescaped contents, or `None` where the lexer fails.
pub open spec fn quoted_kl(s: Seq<char>, j: int, txt: Seq<char>) -> Option<(int, Seq<char>)>
    decreases s.len() - j,
{
    if j < 0 || j >= s.len() {
        None
    } else {
        let c = s[j];
        if c == '"' {
            Some((j + 1, txt))
        } else if c == '\n' {
            None
        } else if c == '\0' {
            None
        } else if c == '\\' {
            if j + 1 >= s.len() {
                None
            } else {
                match lexer::escaped(s[j + 1]) {
                    Some(e) => quoted_kl(s, j + 2, txt.push(e)),
                    None => quoted_kl(s, j + 1, txt.push('\\')),
                }
            }
        } else if text::is_control(c) && c != '\t' {
            None
        } else {
            quoted_kl(s, j + 1, txt.push(c))
        }
    }
}

pub open spec fn word_kind(w: Seq<char>) -> TokenKind {
    if lexer::is_identifier(w) {
        TokenKind::Identifier
    } else {
        TokenKind::UnquotedString
    }
}

/// The tokens the lexer produces from index `i` (kinds and lexemes), with
/// `ls` telling whether no token was produced yet on the current line.
pub open spec fn lex_kl(s: Seq<char>, i: int, ls: bool, acc: Seq<Kl>) -> Option<Seq<Kl>>
    decreases s.len() - i,
{
    if i < 0 || i >= s.len() {
        Some(acc.push((TokenKind::Eof, Seq::empty())))
    } else {
        let c = s[i];
        if c == '\0' {
            None
        } else if lexer::skippable_at(s, i) {
            lex_kl(s, i + 1, ls, acc)
        } else if c == '\n' {
            let acc2 = if last_kind_is(acc, TokenKind::Newline) {
                acc
            } else {
                acc.push((TokenKind::Newline, seq!['\n']))
            };
            lex_kl(s, i + 1, true, acc2)
        } else if text::is_control(c) {
            None
        } else if ls && lexer::separator_at(s, i) {
            lex_kl(s, i + 3, false, acc.push((TokenKind::NarrativeSeparator, seq!['-', '-', '-'])))
        } else if lexer::punct_kind(c) is Some {
            lex_kl(s, i + 1, false, acc.push((lexer::punct_kind(c)->0, seq![c])))
        } else if c == '"' {
            match quoted_kl(s, i + 1, Seq::empty()) {
                None => None,
                Some((j, txt)) => if j <= i || j > s.len() {
                    None
                } else {
                    lex_kl(s, j, false, acc.push((TokenKind::QuotedString, txt)))
                },
            }
        } else {
            let j = lexer::word_end(s, i);
            let w = s.subrange(i, j);
            if last_kind_is(acc, TokenKind::At) && w.len() > lexer::MAX_TAG_LEN {
                None
            } else if j <= i || j > s.len() {
                None
            } else {
                lex_kl(s, j, false, acc.push((word_kind(w), w)))
            }
        }
    }
}

proof fn lemma_kls_push(acc: Seq<TokenModel>, t: TokenModel)
    ensures
        kls(acc.push(t)) == kls(acc).push(kl_of(t)),
        last_kind_is(kls(acc), TokenKind::Newline) == lexer::last_is(acc, TokenKind::Newline),
        last_kind_is(kls(acc), TokenKind::At) == lexer::last_is(acc, TokenKind::At),
{
    assert(kls(acc.push(t)) =~= kls(acc).push(kl_of(t)));
}

proof fn lemma_quoted_kl(s: Seq<char>, j: int, col: int, txt: Seq<char>, line: int, qcol: int)
    ensures
        quoted_kl(s, j, txt) == match lexer::lex_quoted(s, j, col, txt, line, qcol) {
            Ok((j2, t2, _)) => Some((j2, t2)),
            Err(_) => None::<(int, Seq<char>)>,
        },
    decreases s.len() - j,
{
    if j < 0 || j >= s.len() {
    } else {
        let c = s[j];
        if c == '"' {
        } else if c == '\n' {
        } else if c == '\0' {
        } else if c == '\\' {
            if j + 1 >= s.len() {
            } else {
                match lexer::escaped(s[j + 1]) {
                    Some(e) => lemma_quoted_kl(s, j + 2, col + 2, txt.push(e), line, qcol),
                    None => lemma_quoted_kl(s, j + 1, col + 1, txt.push('\\'), line, qcol),
                }
            }
        } else if text::is_control(c) && c != '\t' {
        } else {
            lemma_quoted_kl(s, j + 1, col + 1, txt.push(c), line, qcol);
        }
    }
}

/// The positionless lexer gives the kinds and lexemes of the real one, and
/// fails exactly where it fails.
pub proof fn lemma_lex_kl(s: Seq<char>, st: LexState, acc: Seq<TokenModel>)
    ensures
        lex_kl(s, st.i, st.line_start, kls(acc)) == match lexer::lex_from(s, st, acc) {
            Ok(t) => Some(kls(t)),
            Err(_) => None::<Seq<Kl>>,
        },
    decreases s.len() - st.i,
{
    let i = st.i;
    if i < 0 || i >= s.len() {
        lemma_kls_push(acc, lexer::token_model(TokenKind::Eof, Seq::empty(), st.line, st.col, st.col));
    } else {
        let c = s[i];
        lemma_kls_push(acc, lexer::token_model(TokenKind::Eof, Seq::empty(), st.line, st.col, st.col));
        if c == '\0' {
        } else if lexer::skippable_at(s, i) {
            lemma_lex_kl(s, LexState { i: i + 1, col: st.col + 1, ..st }, acc);
        } else if c == '\n' {
            let t = lexer::token_model(TokenKind::Newline, seq!['\n'], st.line, st.col, st.col + 1);
            lemma_kls_push(acc, t);
            let acc2 = if lexer::last_is(acc, TokenKind::Newline) {
                acc
            } else {
                acc.push(t)
            };
            lemma_lex_kl(s, LexState { i: i + 1, line: st.line + 1, col: 1, line_start: true }, acc2);
        } else if text::is_control(c) {
        } else if st.line_start && lexer::separator_at(s, i) {
            let t = lexer::token_model(TokenKind::NarrativeSeparator, seq!['-', '-', '-'], st.line, st.col, st.col + 3);
            lemma_kls_push(acc, t);
            lemma_lex_kl(s, LexState { i: i + 3, line: st.line, col: st.col + 3, line_start: false }, acc.push(t));
        } else if lexer::punct_kind(c) is Some {
            let t = lexer::token_model(lexer::punct_kind(c)->0, seq![c], st.line, st.col, st.col + 1);
            lemma_kls_push(acc, t);
            lemma_lex_kl(s, LexState { i: i + 1, line: st.line, col: st.col + 1, line_start: false }, acc.push(t));
        } else if c == '"' {
            lemma_quoted_kl(s, i + 1, st.col + 1, Seq::empty(), st.line, st.col);
            match lexer::lex_quoted(s, i + 1, st.col + 1, Seq::empty(), st.line, st.col) {
                Err(e) => {},
                Ok((j, txt, end_col)) => if j <= i || j > s.len() {
                } else {
                    let t = lexer::token_model(TokenKind::QuotedString, txt, st.line, st.col, end_col);
                    lemma_kls_push(acc, t);
                    lemma_lex_kl(s, LexState { i: j, line: st.line, col: end_col, line_start: false }, acc.push(t));
                },
            }
        } else {
            let j = lexer::word_end(s, i);
            let w = s.subrange(i, j);
            let kind = if lexer::is_identifier(w) {
                TokenKind::Identifier
            } else {
                TokenKind::UnquotedString
            };
            let t = lexer::token_model(kind, w, st.line, st.col, st.col + (j - i));
            lemma_kls_push(acc, t);
            if lexer::last_is(acc, TokenKind::At) && w.len() > lexer::MAX_TAG_LEN {
            } else if j <= i || j > s.len() {
            } else {
                lemma_lex_kl(s, LexState { i: j, line: st.line, col: st.col + (j - i), line_start: false }, acc.push(t));
            }
        }
    }
}

// ---------------------------------------------------------------------------
// Lexing pieces of text
// ---------------------------------------------------------------------------

/// `w` occurs in `s` at index `i`.
pub open spec fn occurs_at(s: Seq<char>, i: int, w: Seq<char>) -> bool {
    0 <= i && i + w.len() <= s.len() && s.subrange(i, i + w.len()) == w
}

proof fn lemma_occurs_split(s: Seq<char>, i: int, a: Seq<char>, b: Seq<char>)
    requires
        occurs_at(s, i, a + b),
    ensures
        occurs_at(s, i, a),
        occurs_at(s, i + a.len(), b),
{
    assert(s.subrange(i, i + a.len()) =~= (a + b).subrange(0, a.len() as int));
    assert((a + b).subrange(0, a.len() as int) =~= a);
    assert(s.subrange(i + a.len(), i + a.len() + b.len()) =~= (a + b).subrange(a.len() as int, (a + b).len() as int));
    assert((a + b).subrange(a.len() as int, (a + b).len() as int) =~= b);
}

proof fn lemma_occurs_char(s: Seq<char>, i: int, w: Seq<char>, k: int)
    requires
        occurs_at(s, i, w),
        0 <= k < w.len(),
    ensures
        s[i + k] == w[k],
{
    assert(s.subrange(i, i + w.len())[k] == s[i + k]);
}

proof fn lemma_lex_spaces(s: Seq<char>, i: int, n: int, ls: bool, acc: Seq<Kl>)
    requires
        0 <= i,
        0 <= n,
        i + n <= s.len(),
        forall|k: int| i <= k < i + n ==> s[k] == ' ',
    ensures
        lex_kl(s, i, ls, acc) == lex_kl(s, i + n, ls, acc),
    decreases n,
{
    if n > 0 {
        assert(s[i] == ' ');
        lemma_lex_spaces(s, i + 1, n - 1, ls, acc);
    }
}

/// A run of spaces is skipped.
proof fn lemma_lex_pad(s: Seq<char>, i: int, pad: Seq<char>, ls: bool, acc: Seq<Kl>)
    requires
        occurs_at(s, i, pad),
        forall|k: int| 0 <= k < pad.len() ==> pad[k] == ' ',
    ensures
        lex_kl(s, i, ls, acc) == lex_kl(s, i + pad.len(), ls, acc),
{
    assert forall|k: int| i <= k < i + pad.len() implies s[k] == ' ' by {
        lemma_occurs_char(s, i, pad, k - i);
    }
    lemma_lex_spaces(s, i, pad.len() as int, ls, acc);
}

proof fn lemma_lex_newline(s: Seq<char>, i: int, ls: bool, acc: Seq<Kl>)
    requires
        0 <= i < s.len(),
        s[i] == '\n',
    ensures
        lex_kl(s, i, ls, acc) == lex_kl(
            s,
            i + 1,
            true,
            if last_kind_is(acc, TokenKind::Newline) {
                acc
            } else {
                acc.push((TokenKind::Newline, seq!['\n']))
            },
        ),
{
}

proof fn lemma_lex_punct(s: Seq<char>, i: int, ls: bool, acc: Seq<Kl>)
    requires
        0 <= i < s.len(),
        lexer::punct_kind(s[i]) is Some,
    ensures
        lex_kl(s, i, ls, acc) == lex_kl(s, i + 1, false, acc.push((lexer::punct_kind(s[i])->0, seq![s[i]]))),
{
}

proof fn lemma_word_end_exact(s: Seq<char>, i: int, n: int)
    requires
        0 <= i,
        0 <= n,
        i + n <= s.len(),
        forall|k: int| i <= k < i + n ==> lexer::is_word_char(s[k]),
        i + n == s.len() || !lexer::is_word_char(s[i + n]),
    ensures
        lexer::word_end(s, i) == i + n,
    decreases n,
{
    if n > 0 {
        lemma_word_end_exact(s, i + 1, n - 1);
    }
}

/// A word of word characters, not followed by another word character.
pub open spec fn is_word(w: Seq<char>) -> bool {
    w.len() > 0 && forall|k: int| 0 <= k < w.len() ==> lexer::is_word_char(#[trigger] w[k])
}

proof fn lemma_lex_word(s: Seq<char>, i: int, w: Seq<char>, ls: bool, acc: Seq<Kl>)
    requires
        occurs_at(s, i, w),
        is_word(w),
        i + w.len() == s.len() || !lexer::is_word_char(s[i + w.len()]),
        !(ls && lexer::separator_at(s, i)),
        !(last_kind_is(acc, TokenKind::At) && w.len() > lexer::MAX_TAG_LEN),
    ensures
        lex_kl(s, i, ls, acc) == lex_kl(s, i + w.len(), false, acc.push((word_kind(w), w))),
{
    assert forall|k: int| i <= k < i + w.len() implies lexer::is_word_char(s[k]) by {
        lemma_occurs_char(s, i, w, k - i);
    }
    lemma_word_end_exact(s, i, w.len() as int);
    lemma_occurs_char(s, i, w, 0);
}

/// A string with no character the lexer refuses inside quotes once escaped.
pub open spec fn quotable(q: Seq<char>) -> bool {
    forall|k: int|
        0 <= k < q.len() ==> #[trigger] q[k] != '\0' && (text::is_control(q[k]) ==> q[k] == '\n' || q[k]
            == '\r' || q[k] == '\t')
}

proof fn lemma_escape_first(r: Seq<char>)
    requires
        r.len() > 0,
    ensures
        serializer::escape(r) == serializer::escape_char(r[0]) + serializer::escape(r.drop_first()),
    decreases r.len(),
{
    if r.len() == 1 {
        assert(r.drop_first() =~= Seq::<char>::empty());
        assert(r.drop_last() =~= Seq::<char>::empty());
        assert(serializer::escape(Seq::<char>::empty()) =~= Seq::<char>::empty());
        assert(r.last() == r[0]);
        assert(serializer::escape(r) =~= serializer::escape(r.drop_last()) + serializer::escape_char(r.last()));
        assert(serializer::escape(r) =~= serializer::escape_char(r[0]));
        assert(serializer::escape(r.drop_first()) =~= Seq::<char>::empty());
    } else {
        lemma_escape_first(r.drop_last());
        assert(r.drop_last().drop_first() =~= r.drop_first().drop_last());
        assert(r.drop_first().last() == r.last());
        assert(serializer::escape(r) =~= serializer::escape_char(r[0]) + serializer::escape(r.drop_first()));
    }
}

proof fn lemma_quoted_escape(s: Seq<char>, j: int, r: Seq<char>, txt: Seq<char>)
    requires
        occurs_at(s, j, serializer::escape(r) + seq!['"']),
        quotable(r),
    ensures
        quoted_kl(s, j, txt) == Some((j + serializer::escape(r).len() + 1, txt + r)),
    decreases r.len(),
{
    let e = serializer::escape(r);
    if r.len() == 0 {
        assert(e =~= Seq::<char>::empty());
        lemma_occurs_char(s, j, e + seq!['"'], 0);
        assert(txt + r =~= txt);
    } else {
        lemma_escape_first(r);
        let c = r[0];
        let rest = r.drop_first();
        let ec = serializer::escape_char(c);
        assert(e + seq!['"'] =~= ec + (serializer::escape(rest) + seq!['"']));
        lemma_occurs_split(s, j, ec, serializer::escape(rest) + seq!['"']);
        assert(quotable(rest)) by {
            assert forall|k: int| 0 <= k < rest.len() implies #[trigger] rest[k] != '\0' && (text::is_control(rest[k]) ==> rest[k] == '\n' || rest[k]
                == '\r' || rest[k] == '\t') by {
                assert(rest[k] == r[k + 1]);
            }
        }
        assert(c == r[0]);
        assert(txt.push(c) + rest =~= txt + r);
        lemma_occurs_char(s, j, ec, 0);
        if c == '"' || c == '\\' || c == '\n' || c == '\r' || c == '\t' {
            lemma_occurs_char(s, j, ec, 1);
            lemma_quoted_escape(s, j + 2, rest, txt.push(c));
        } else {
            lemma_quoted_escape(s, j + 1, rest, txt.push(c));
        }
    }
}

proof fn lemma_lex_quoted(s: Seq<char>, i: int, q: Seq<char>, ls: bool, acc: Seq<Kl>)
    requires
        occurs_at(s, i, seq!['"'] + serializer::escape(q) + seq!['"']),
        quotable(q),
    ensures
        lex_kl(s, i, ls, acc) == lex_kl(
            s,
            i + serializer::escape(q).len() + 2,
            false,
            acc.push((TokenKind::QuotedString, q)),
        ),
{
    let e = serializer::escape(q);
    assert(seq!['"'] + e + seq!['"'] =~= seq!['"'] + (e + seq!['"']));
    lemma_occurs_split(s, i, seq!['"'], e + seq!['"']);
    lemma_occurs_char(s, i, seq!['"'], 0);
    lemma_quoted_escape(s, i + 1, q, Seq::empty());
    assert(Seq::<char>::empty() + q =~= q);
}

/// An identifier is a word.
proof fn lemma_identifier_is_word(w: Seq<char>)
    requires
        lexer::is_identifier(w),
    ensures
        is_word(w),
{
    assert forall|k: int| 0 <= k < w.len() implies lexer::is_word_char(#[trigger] w[k]) by {
        if k == 0 {
            assert(text::is_ascii_alpha(w[0]));
        } else {
            assert(text::is_ascii_alnum(w[k]) || w[k] == '_');
        }
    }
}

/// The line `key: "..."` holding a quoted value as the serializer writes it
/// lexes to the key, a colon, one quoted-string token holding exactly the
/// value, a newline and the end.
pub proof fn lemma_quoted_line(key: Seq<char>, q: Seq<char>)
    requires
        lexer::is_identifier(key),
        quotable(q),
    ensures
        lexer::lex(key + seq![':', ' '] + serializer::value_text(ValueModel::Quoted(q)) + seq!['\n']) matches Ok(t)
            && kls(t) == seq![
            (TokenKind::Identifier, key),
            (TokenKind::Colon, seq![':']),
            (TokenKind::QuotedString, q),
            (TokenKind::Newline, seq!['\n']),
            (TokenKind::Eof, Seq::<char>::empty()),
        ],
{
    let v = serializer::value_text(ValueModel::Quoted(q));
    let s = key + seq![':', ' '] + v + seq!['\n'];
    let n = key.len() as int;
    let st0 = LexState { i: 0, line: 1, col: 1, line_start: true };
    lemma_lex_kl(s, st0, Seq::empty());
    let e0 = Seq::<Kl>::empty();
    assert(kls(Seq::<TokenModel>::empty()) =~= e0);
    lemma_identifier_is_word(key);
    assert(s.subrange(0, n) =~= key);
    assert(s[n] == ':');
    assert(s[0] == key[0]);
    assert(text::is_ascii_alpha(key[0]));
    lemma_lex_word(s, 0, key, true, e0);
    let a1 = e0.push((TokenKind::Identifier, key));
    lemma_lex_punct(s, n, false, a1);
    let a2 = a1.push((TokenKind::Colon, seq![':']));
    assert(s[n + 1] == ' ');
    lemma_lex_spaces(s, n + 1, 1, false, a2);
    assert(v == seq!['"'] + serializer::escape(q) + seq!['"']);
    assert(s.subrange(n + 2, n + 2 + v.len()) =~= v);
    lemma_lex_quoted(s, n + 2, q, false, a2);
    let a3 = a2.push((TokenKind::QuotedString, q));
    let m = n + 2 + v.len();
    assert(s[m] == '\n');
    lemma_lex_newline(s, m, false, a3);
    let a4 = a3.push((TokenKind::Newline, seq!['\n']));
    assert(m + 1 == s.len());
    assert(a4.push((TokenKind::Eof, Seq::<char>::empty())) =~= seq![
        (TokenKind::Identifier, key),
        (TokenKind::Colon, seq![':']),
        (TokenKind::QuotedString, q),
        (TokenKind::Newline, seq!['\n']),
        (TokenKind::Eof, Seq::<char>::empty()),
    ]);
}

proof fn lemma_lex_separator(s: Seq<char>, i: int, acc: Seq<Kl>)
    requires
        occurs_at(s, i, "---\n"@),
    ensures
        lex_kl(s, i, true, acc) == lex_kl(
            s,
            i + 3,
            false,
            acc.push((TokenKind::NarrativeSeparator, seq!['-', '-', '-'])),
        ),
{
    reveal_strlit("---\n");
    lemma_occurs_char(s, i, "---\n"@, 0);
    lemma_occurs_char(s, i, "---\n"@, 1);
    lemma_occurs_char(s, i, "---\n"@, 2);
    lemma_occurs_char(s, i, "---\n"@, 3);
}

// ---------------------------------------------------------------------------
// Values and attributes
// ---------------------------------------------------------------------------

/// A piece of an unquoted attribute value: a word, `:` or `,`.
pub open spec fn value_piece(p: Seq<char>) -> bool {
    is_word(p) || p == seq![':'] || p == seq![',']
}

/// `w` is the pieces `ps` of an unquoted attribute value separated by single spaces.
pub open spec fn unquoted_as(w: Seq<char>, ps: Seq<Seq<char>>) -> bool {
    &&& ps.len() > 0
    &&& forall|k: int| 0 <= k < ps.len() ==> value_piece(#[trigger] ps[k])
    &&& text::join(ps, seq![' ']) == w
}

/// The pieces an unquoted attribute value is written as.
pub open spec fn unquoted_pieces(w: Seq<char>) -> Seq<Seq<char>> {
    choose|ps: Seq<Seq<char>>| #[trigger] unquoted_as(w, ps)
}

/// A piece of an unquoted list item: a word, `:` or `[`.
pub open spec fn element_piece(p: Seq<char>) -> bool {
    is_word(p) || p == seq![':'] || p == seq!['[']
}

/// `w` is the pieces `ps` of an unquoted list item separated by single
/// spaces, the first of them not `[`.
pub open spec fn item_as(w: Seq<char>, ps: Seq<Seq<char>>) -> bool {
    &&& ps.len() > 0
    &&& forall|k: int| 0 <= k < ps.len() ==> element_piece(#[trigger] ps[k])
    &&& ps[0] != seq!['[']
    &&& text::join(ps, seq![' ']) == w
}

/// The pieces an unquoted list item is written as.
pub open spec fn item_pieces(w: Seq<char>) -> Seq<Seq<char>> {
    choose|ps: Seq<Seq<char>>| #[trigger] item_as(w, ps)
}

/// A list item that is written in a form that reads back as itself.
pub open spec fn canonical_item(v: ValueModel) -> bool
    decreases v, 0nat,
{
    match v {
        ValueModel::Quoted(q) => quotable(q),
        ValueModel::Unquoted(w) => text::trim(w) == w && exists|ps: Seq<Seq<char>>| #[trigger] item_as(w, ps),
        ValueModel::List(items) => items_ok(items),
    }
}

/// List items that read back as themselves: each is canonical, or empty and
/// not the last.
pub open spec fn items_ok(items: Seq<ValueModel>) -> bool
    decreases items, 1nat,
{
    forall|k: int|
        #![trigger items[k]]
        0 <= k < items.len() ==> canonical_item(items[k]) || (k + 1 < items.len() && items[k]
            == ValueModel::Unquoted(Seq::empty()))
}

/// A list item the lexer reads: a canonical item or an empty unquoted one.
pub open spec fn lexable_item(v: ValueModel) -> bool {
    canonical_item(v) || v == ValueModel::Unquoted(Seq::empty())
}

/// An attribute value that is written in a form that reads back as itself.
pub open spec fn canonical_value(v: ValueModel) -> bool {
    match v {
        ValueModel::Quoted(q) => quotable(q),
        ValueModel::Unquoted(w) => w.len() == 0 || exists|ps: Seq<Seq<char>>| #[trigger] unquoted_as(w, ps),
        ValueModel::List(items) => items_ok(items),
    }
}

pub open spec fn item_kls(v: ValueModel) -> Seq<Kl>
    decreases v, 0nat,
{
    match v {
        ValueModel::Quoted(q) => seq![(TokenKind::QuotedString, q)],
        ValueModel::Unquoted(w) => if w.len() == 0 {
            Seq::empty()
        } else {
            pieces_kls(item_pieces(w))
        },
        ValueModel::List(items) => seq![(TokenKind::LeftBracket, seq!['['])] + items_kls(items) + seq![
            (TokenKind::RightBracket, seq![']']),
        ],
    }
}

pub open spec fn items_kls(items: Seq<ValueModel>) -> Seq<Kl>
    decreases items, 1nat,
{
    if items.len() == 0 {
        Seq::empty()
    } else if items.len() == 1 {
        item_kls(items[0])
    } else {
        items_kls(items.drop_last()) + seq![(TokenKind::Comma, seq![','])] + item_kls(items.last())
    }
}

pub open spec fn value_kls(v: ValueModel) -> Seq<Kl> {
    match v {
        ValueModel::Quoted(q) => seq![(TokenKind::QuotedString, q)],
        ValueModel::Unquoted(w) => if w.len() == 0 {
            Seq::empty()
        } else {
            pieces_kls(unquoted_pieces(w))
        },
        ValueModel::List(items) => seq![(TokenKind::LeftBracket, seq!['['])] + items_kls(items) + seq![
            (TokenKind::RightBracket, seq![']']),
        ],
    }
}

/// Kinds that never occur inside a value's tokens.
pub open spec fn outside_values(k: TokenKind) -> bool {
    k == TokenKind::At || k == TokenKind::Newline || k == TokenKind::Eof || k
        == TokenKind::NarrativeSeparator
}

/// A piece of an unquoted value or list item.
pub open spec fn plain_piece(p: Seq<char>) -> bool {
    is_word(p) || p == seq![':'] || p == seq![','] || p == seq!['[']
}

proof fn lemma_plain_pieces_kls(ps: Seq<Seq<char>>)
    requires
        forall|k: int| 0 <= k < ps.len() ==> plain_piece(#[trigger] ps[k]),
    ensures
        forall|k: int| 0 <= k < pieces_kls(ps).len() ==> !outside_values(#[trigger] pieces_kls(ps)[k].0),
        ps.len() > 0 ==> pieces_kls(ps).len() > 0,
    decreases ps.len(),
{
    if ps.len() > 0 {
        let dl = ps.drop_last();
        assert forall|k: int| 0 <= k < dl.len() implies plain_piece(#[trigger] dl[k]) by {
            assert(dl[k] == ps[k]);
        }
        lemma_plain_pieces_kls(dl);
        let p = ps.last();
        assert(plain_piece(ps[ps.len() - 1]));
        assert(piece_kls(p).len() == 1 && !outside_values(piece_kls(p)[0].0));
        let a = pieces_kls(dl);
        assert forall|k: int| 0 <= k < pieces_kls(ps).len() implies !outside_values(#[trigger] pieces_kls(ps)[k].0) by {
            if k < a.len() {
                assert(pieces_kls(ps)[k] == a[k]);
            } else {
                assert(pieces_kls(ps)[k] == piece_kls(p)[0]);
            }
        }
    }
}

/// Pieces without `@` need no care for a lone `@`, and read as pieces.
proof fn lemma_plain_pieces_ok(ps: Seq<Seq<char>>)
    requires
        forall|k: int| 0 <= k < ps.len() ==> plain_piece(#[trigger] ps[k]),
    ensures
        forall|k: int| 0 <= k < ps.len() ==> piece_ok(#[trigger] ps[k]),
        at_spacing_ok(ps),
{
    assert forall|k: int| 0 <= k < ps.len() implies piece_ok(#[trigger] ps[k]) by {
        assert(plain_piece(ps[k]));
    }
    assert forall|k: int| #![trigger ps[k]] 0 <= k < ps.len() - 1 && ps[k] == seq!['@'] implies !(is_word(ps[k + 1]) && (lexer::is_identifier(
        ps[k + 1],
    ) || ps[k + 1].len() > lexer::MAX_TAG_LEN)) by {
        assert(plain_piece(ps[k]));
        if is_word(ps[k]) {
            assert(lexer::is_word_char(ps[k][0]));
        }
    }
}

proof fn lemma_item_kls_kinds(v: ValueModel)
    requires
        lexable_item(v),
    ensures
        forall|k: int| 0 <= k < item_kls(v).len() ==> !outside_values(#[trigger] item_kls(v)[k].0),
    decreases v, 0nat,
{
    match v {
        ValueModel::Unquoted(w) => {
            if w.len() > 0 {
                let ps = item_pieces(w);
                assert(item_as(w, ps));
                assert forall|k: int| 0 <= k < ps.len() implies plain_piece(#[trigger] ps[k]) by {
                    assert(element_piece(ps[k]));
                }
                lemma_plain_pieces_kls(ps);
            }
        },
        ValueModel::List(items) => {
            lemma_items_kls_kinds(items);
            let b = items_kls(items);
            let c = seq![(TokenKind::RightBracket, seq![']'])];
            assert forall|k: int| 0 <= k < item_kls(v).len() implies !outside_values(#[trigger] item_kls(v)[k].0) by {
                if k == 0 {
                } else if k < 1 + b.len() {
                    assert(item_kls(v)[k] == b[k - 1]);
                } else {
                    assert(item_kls(v)[k] == c[k - 1 - b.len()]);
                }
            }
        },
        _ => {},
    }
}

proof fn lemma_items_kls_kinds(items: Seq<ValueModel>)
    requires
        items_ok(items),
    ensures
        forall|k: int| 0 <= k < items_kls(items).len() ==> !outside_values(#[trigger] items_kls(items)[k].0),
    decreases items, 1nat,
{
    assert forall|k: int| 0 <= k < items.len() implies lexable_item(#[trigger] items[k]) by {
        assert(items_ok(items));
    }
    lemma_items_kls_kinds_loose(items);
}

/// The same for items each of which the lexer reads.
proof fn lemma_items_kls_kinds_loose(items: Seq<ValueModel>)
    requires
        forall|k: int| 0 <= k < items.len() ==> lexable_item(#[trigger] items[k]),
    ensures
        forall|k: int| 0 <= k < items_kls(items).len() ==> !outside_values(#[trigger] items_kls(items)[k].0),
    decreases items, 0nat,
{
    if items.len() == 0 {
    } else if items.len() == 1 {
        assert(lexable_item(items[0]));
        lemma_item_kls_kinds(items[0]);
    } else {
        let dl = items.drop_last();
        assert forall|k: int| 0 <= k < dl.len() implies lexable_item(#[trigger] dl[k]) by {
            assert(dl[k] == items[k]);
        }
        lemma_items_kls_kinds_loose(dl);
        assert(lexable_item(items[items.len() - 1]));
        lemma_item_kls_kinds(items.last());
        let a = items_kls(dl);
        let c = item_kls(items.last());
        assert forall|k: int| 0 <= k < items_kls(items).len() implies !outside_values(#[trigger] items_kls(items)[k].0) by {
            if k < a.len() {
                assert(items_kls(items)[k] == a[k]);
            } else if k == a.len() {
            } else {
                assert(items_kls(items)[k] == c[k - a.len() - 1]);
            }
        }
    }
}

proof fn lemma_value_kls_kinds(v: ValueModel)
    requires
        canonical_value(v),
    ensures
        forall|k: int| 0 <= k < value_kls(v).len() ==> !outside_values(#[trigger] value_kls(v)[k].0),
{
    match v {
        ValueModel::Unquoted(w) => {
            if w.len() > 0 {
                let ps = unquoted_pieces(w);
                assert(unquoted_as(w, ps));
                assert forall|k: int| 0 <= k < ps.len() implies plain_piece(#[trigger] ps[k]) by {
                    assert(value_piece(ps[k]));
                }
                lemma_plain_pieces_kls(ps);
            }
        },
        ValueModel::List(items) => {
            lemma_items_kls_kinds(items);
            let b = items_kls(items);
            let c = seq![(TokenKind::RightBracket, seq![']'])];
            assert forall|k: int| 0 <= k < value_kls(v).len() implies !outside_values(#[trigger] value_kls(v)[k].0) by {
                if k == 0 {
                } else if k < 1 + b.len() {
                    assert(value_kls(v)[k] == b[k - 1]);
                } else {
                    assert(value_kls(v)[k] == c[k - 1 - b.len()]);
                }
            }
        },
        _ => {},
    }
}

/// A bracketed list of items at `i`.
proof fn lemma_lex_list(s: Seq<char>, i: int, items: Seq<ValueModel>, acc: Seq<Kl>)
    requires
        occurs_at(s, i, seq!['['] + serializer::values_joined(items) + seq![']']),
        forall|k: int| 0 <= k < items.len() ==> lexable_item(#[trigger] items[k]),
    ensures
        lex_kl(s, i, false, acc) == lex_kl(
            s,
            i + serializer::values_joined(items).len() + 2,
            false,
            acc + (seq![(TokenKind::LeftBracket, seq!['['])] + items_kls(items) + seq![
                (TokenKind::RightBracket, seq![']']),
            ]),
        ),
    decreases items, 3nat,
{
    let vj = serializer::values_joined(items);
    lemma_occurs_split(s, i, seq!['['] + vj, seq![']']);
    lemma_occurs_split(s, i, seq!['['], vj);
    lemma_occurs_char(s, i, seq!['['], 0);
    lemma_lex_punct(s, i, false, acc);
    let acc1 = acc.push((TokenKind::LeftBracket, seq!['[']));
    lemma_occurs_char(s, i + 1 + vj.len(), seq![']'], 0);
    lemma_lex_items(s, i + 1, items, acc1);
    let acc2 = acc1 + items_kls(items);
    lemma_lex_punct(s, i + 1 + vj.len(), false, acc2);
    assert(acc2.push((TokenKind::RightBracket, seq![']'])) =~= acc + (seq![(TokenKind::LeftBracket, seq!['['])]
        + items_kls(items) + seq![(TokenKind::RightBracket, seq![']'])]));
}

proof fn lemma_lex_value(s: Seq<char>, i: int, v: ValueModel, acc: Seq<Kl>)
    requires
        occurs_at(s, i, serializer::value_text(v)),
        canonical_value(v),
        i + serializer::value_text(v).len() < s.len(),
        !lexer::is_word_char(s[i + serializer::value_text(v).len()]),
        !last_kind_is(acc, TokenKind::At),
    ensures
        lex_kl(s, i, false, acc) == lex_kl(s, i + serializer::value_text(v).len(), false, acc + value_kls(v)),
{
    match v {
        ValueModel::Quoted(q) => {
            lemma_lex_quoted(s, i, q, false, acc);
            assert(acc.push((TokenKind::QuotedString, q)) =~= acc + value_kls(v));
        },
        ValueModel::Unquoted(w) => {
            if w.len() == 0 {
                assert(acc + value_kls(v) =~= acc);
            } else {
                let ps = unquoted_pieces(w);
                assert(unquoted_as(w, ps));
                assert forall|k: int| 0 <= k < ps.len() implies plain_piece(#[trigger] ps[k]) by {
                    assert(value_piece(ps[k]));
                }
                lemma_plain_pieces_ok(ps);
                lemma_lex_pieces(s, i, ps, false, acc);
            }
        },
        ValueModel::List(items) => {
            assert forall|k: int| 0 <= k < items.len() implies lexable_item(#[trigger] items[k]) by {
                assert(items_ok(items));
            }
            lemma_lex_list(s, i, items, acc);
        },
    }
}

proof fn lemma_lex_item(s: Seq<char>, i: int, v: ValueModel, acc: Seq<Kl>)
    requires
        occurs_at(s, i, serializer::value_text(v)),
        lexable_item(v),
        i + serializer::value_text(v).len() < s.len(),
        !lexer::is_word_char(s[i + serializer::value_text(v).len()]),
        !last_kind_is(acc, TokenKind::At),
    ensures
        lex_kl(s, i, false, acc) == lex_kl(s, i + serializer::value_text(v).len(), false, acc + item_kls(v)),
    decreases v, 0nat,
{
    match v {
        ValueModel::Quoted(q) => {
            lemma_lex_quoted(s, i, q, false, acc);
            assert(acc.push((TokenKind::QuotedString, q)) =~= acc + item_kls(v));
        },
        ValueModel::Unquoted(w) => {
            if w.len() == 0 {
                assert(acc + item_kls(v) =~= acc);
            } else {
                let ps = item_pieces(w);
                assert(item_as(w, ps));
                assert forall|k: int| 0 <= k < ps.len() implies plain_piece(#[trigger] ps[k]) by {
                    assert(element_piece(ps[k]));
                }
                lemma_plain_pieces_ok(ps);
                lemma_lex_pieces(s, i, ps, false, acc);
            }
        },
        ValueModel::List(items) => {
            assert forall|k: int| 0 <= k < items.len() implies lexable_item(#[trigger] items[k]) by {
                assert(items_ok(items));
            }
            lemma_lex_list(s, i, items, acc);
        },
    }
}

proof fn lemma_lex_items(s: Seq<char>, i: int, items: Seq<ValueModel>, acc: Seq<Kl>)
    requires
        occurs_at(s, i, serializer::values_joined(items)),
        forall|k: int| 0 <= k < items.len() ==> lexable_item(#[trigger] items[k]),
        i + serializer::values_joined(items).len() < s.len(),
        !lexer::is_word_char(s[i + serializer::values_joined(items).len()]),
        !last_kind_is(acc, TokenKind::At),
    ensures
        lex_kl(s, i, false, acc) == lex_kl(
            s,
            i + serializer::values_joined(items).len(),
            false,
            acc + items_kls(items),
        ),
    decreases items, 1nat,
{
    if items.len() == 0 {
        assert(acc + items_kls(items) =~= acc);
    } else if items.len() == 1 {
        assert(lexable_item(items[0]));
        lemma_lex_item(s, i, items[0], acc);
    } else {
        let dl = items.drop_last();
        let last = items.last();
        let a = serializer::values_joined(dl);
        let b = serializer::value_text(last);
        assert(serializer::values_joined(items) == a + seq![',', ' '] + b);
        lemma_occurs_split(s, i, a + seq![',', ' '], b);
        lemma_occurs_split(s, i, a, seq![',', ' ']);
        lemma_occurs_char(s, i + a.len(), seq![',', ' '], 0);
        lemma_occurs_char(s, i + a.len(), seq![',', ' '], 1);
        assert forall|k: int| 0 <= k < dl.len() implies lexable_item(#[trigger] dl[k]) by {
            assert(dl[k] == items[k]);
        }
        lemma_lex_items(s, i, dl, acc);
        let acc1 = acc + items_kls(dl);
        lemma_lex_punct(s, i + a.len(), false, acc1);
        let acc2 = acc1.push((TokenKind::Comma, seq![',']));
        lemma_lex_spaces(s, i + a.len() + 1, 1, false, acc2);
        assert(lexable_item(items[items.len() - 1]));
        lemma_lex_item(s, i + a.len() + 2, last, acc2);
        assert(acc2 + item_kls(last) =~= acc + items_kls(items));
    }
}

/// A `key: value` attribute that is written in a form that reads back as itself.
pub open spec fn canonical_attr(kv: (Seq<char>, ValueModel)) -> bool {
    lexer::is_identifier(kv.0) && canonical_value(kv.1)
}

pub open spec fn attr_kls(kv: (Seq<char>, ValueModel)) -> Seq<Kl> {
    seq![(TokenKind::Identifier, kv.0), (TokenKind::Colon, seq![':'])] + value_kls(kv.1) + seq![
        (TokenKind::Newline, seq!['\n']),
    ]
}

pub open spec fn attrs_kls(attrs: Seq<(Seq<char>, ValueModel)>) -> Seq<Kl>
    decreases attrs.len(),
{
    if attrs.len() == 0 {
        Seq::empty()
    } else {
        attrs_kls(attrs.drop_last()) + attr_kls(attrs.last())
    }
}

/// A text made of spaces only.
pub open spec fn is_pad(pad: Seq<char>) -> bool {
    forall|k: int| 0 <= k < pad.len() ==> pad[k] == ' '
}

proof fn lemma_lex_attr(s: Seq<char>, i: int, kv: (Seq<char>, ValueModel), pad: Seq<char>, acc: Seq<Kl>)
    requires
        occurs_at(s, i, pad + kv.0 + seq![':', ' '] + serializer::value_text(kv.1) + seq!['\n']),
        is_pad(pad),
        canonical_attr(kv),
        last_kind_is(acc, TokenKind::Newline),
    ensures
        lex_kl(s, i, true, acc) == lex_kl(
            s,
            i + (pad + kv.0 + seq![':', ' '] + serializer::value_text(kv.1) + seq!['\n']).len(),
            true,
            acc + attr_kls(kv),
        ),
{
    let k = kv.0;
    let vt = serializer::value_text(kv.1);
    lemma_occurs_split(s, i, pad + k + seq![':', ' '] + vt, seq!['\n']);
    lemma_occurs_split(s, i, pad + k + seq![':', ' '], vt);
    lemma_occurs_split(s, i, pad + k, seq![':', ' ']);
    lemma_occurs_split(s, i, pad, k);
    lemma_lex_pad(s, i, pad, true, acc);
    let i1 = i + pad.len();
    lemma_occurs_char(s, i1, k, 0);
    lemma_occurs_char(s, i1 + k.len(), seq![':', ' '], 0);
    lemma_occurs_char(s, i1 + k.len(), seq![':', ' '], 1);
    assert(is_word(k)) by {
        assert forall|m: int| 0 <= m < k.len() implies lexer::is_word_char(#[trigger] k[m]) by {
            if m > 0 {
                assert(text::is_ascii_alnum(k[m]) || k[m] == '_');
            }
        }
    }
    lemma_lex_word(s, i1, k, true, acc);
    let acc1 = acc.push((TokenKind::Identifier, k));
    assert(word_kind(k) == TokenKind::Identifier);
    lemma_lex_punct(s, i1 + k.len(), false, acc1);
    let acc2 = acc1.push((TokenKind::Colon, seq![':']));
    lemma_lex_spaces(s, i1 + k.len() + 1, 1, false, acc2);
    let i3 = i1 + k.len() + 2;
    lemma_occurs_char(s, i3 + vt.len(), seq!['\n'], 0);
    lemma_lex_value(s, i3, kv.1, acc2);
    let acc3 = acc2 + value_kls(kv.1);
    lemma_value_kls_kinds(kv.1);
    if value_kls(kv.1).len() > 0 {
        assert(acc3.last() == value_kls(kv.1)[value_kls(kv.1).len() - 1]);
    }
    assert(!last_kind_is(acc3, TokenKind::Newline));
    lemma_lex_newline(s, i3 + vt.len(), false, acc3);
    assert(acc3.push((TokenKind::Newline, seq!['\n'])) =~= acc + attr_kls(kv));
}

proof fn lemma_lex_attrs(s: Seq<char>, i: int, attrs: Seq<(Seq<char>, ValueModel)>, pad: Seq<char>, acc: Seq<Kl>)
    requires
        occurs_at(s, i, serializer::attrs_text(attrs, pad)),
        is_pad(pad),
        forall|k: int| 0 <= k < attrs.len() ==> canonical_attr(#[trigger] attrs[k]),
        last_kind_is(acc, TokenKind::Newline),
    ensures
        lex_kl(s, i, true, acc) == lex_kl(
            s,
            i + serializer::attrs_text(attrs, pad).len(),
            true,
            acc + attrs_kls(attrs),
        ),
        last_kind_is(acc + attrs_kls(attrs), TokenKind::Newline),
    decreases attrs.len(),
{
    if attrs.len() == 0 {
        assert(acc + attrs_kls(attrs) =~= acc);
    } else {
        let dl = attrs.drop_last();
        let kv = attrs.last();
        let a = serializer::attrs_text(dl, pad);
        let line = pad + kv.0 + seq![':', ' '] + serializer::value_text(kv.1) + seq!['\n'];
        assert(serializer::attrs_text(attrs, pad) =~= a + line);
        lemma_occurs_split(s, i, a, line);
        assert forall|k: int| 0 <= k < dl.len() implies canonical_attr(#[trigger] dl[k]) by {
            assert(dl[k] == attrs[k]);
        }
        lemma_lex_attrs(s, i, dl, pad, acc);
        let acc1 = acc + attrs_kls(dl);
        assert(canonical_attr(attrs[attrs.len() - 1]));
        lemma_lex_attr(s, i + a.len(), kv, pad, acc1);
        assert(acc1 + attr_kls(kv) =~= acc + attrs_kls(attrs));
    }
}

// ---------------------------------------------------------------------------
// Sections
// ---------------------------------------------------------------------------

/// A section tag that is written in a form that reads back as itself: an
/// identifier of at most 256 characters with no uppercase letter, that is not
/// `end` in any case.
pub open spec fn canonical_tag(t: Seq<char>) -> bool {
    &&& lexer::is_identifier(t)
    &&& t.len() <= lexer::MAX_TAG_LEN
    &&& text::ascii_lowercase(t) == t
    &&& !text::eq_ignore_ascii_case(t, "end"@)
}

/// A section, opened at nesting `depth`, that is written in a form that reads
/// back as itself: a canonical tag and attributes, and children that are
/// canonical sections one level deeper, within the default nesting limit.
pub open spec fn canonical_section(s: SectionModel, depth: int) -> bool
    decreases s, 0nat,
{
    &&& 0 <= depth < grammar::DEFAULT_NESTING_LIMIT
    &&& canonical_tag(s.tag)
    &&& forall|k: int| 0 <= k < s.attributes.len() ==> canonical_attr(#[trigger] s.attributes[k])
    &&& canonical_children(s.children, depth + 1)
}

pub open spec fn canonical_child(b: BlockModel, depth: int) -> bool
    decreases b, 1nat,
{
    match b {
        BlockModel::Section(c) => canonical_section(c, depth),
        BlockModel::Narrative { .. } => false,
    }
}

pub open spec fn canonical_children(bs: Seq<BlockModel>, depth: int) -> bool
    decreases bs, 0nat,
{
    if bs.len() == 0 {
        true
    } else {
        canonical_children(bs.drop_last(), depth) && canonical_child(bs.last(), depth)
    }
}

pub open spec fn tag_kls(t: Seq<char>) -> Seq<Kl> {
    seq![(TokenKind::At, seq!['@']), (TokenKind::Identifier, t), (TokenKind::Newline, seq!['\n'])]
}

pub open spec fn section_kls(s: SectionModel) -> Seq<Kl>
    decreases s, 0nat,
{
    tag_kls(s.tag) + attrs_kls(s.attributes) + children_kls(s.children) + tag_kls("end"@)
}

pub open spec fn child_kls(b: BlockModel) -> Seq<Kl>
    decreases b, 1nat,
{
    match b {
        BlockModel::Section(c) => section_kls(c),
        BlockModel::Narrative { .. } => Seq::empty(),
    }
}

pub open spec fn children_kls(bs: Seq<BlockModel>) -> Seq<Kl>
    decreases bs, 0nat,
{
    if bs.len() == 0 {
        Seq::empty()
    } else {
        children_kls(bs.drop_last()) + child_kls(bs.last())
    }
}

/// `pad@word\n` as written for a tag line or an `@end` line.
proof fn lemma_lex_tag_line(s: Seq<char>, i: int, pad: Seq<char>, t: Seq<char>, acc: Seq<Kl>)
    requires
        occurs_at(s, i, pad + seq!['@'] + t + seq!['\n']),
        is_pad(pad),
        lexer::is_identifier(t),
        t.len() <= lexer::MAX_TAG_LEN,
        last_kind_is(acc, TokenKind::Newline),
    ensures
        lex_kl(s, i, true, acc) == lex_kl(s, i + pad.len() + t.len() + 2, true, acc + tag_kls(t)),
{
    lemma_occurs_split(s, i, pad + seq!['@'] + t, seq!['\n']);
    lemma_occurs_split(s, i, pad + seq!['@'], t);
    lemma_occurs_split(s, i, pad, seq!['@']);
    lemma_lex_pad(s, i, pad, true, acc);
    let i1 = i + pad.len();
    lemma_occurs_char(s, i1, seq!['@'], 0);
    lemma_lex_punct(s, i1, true, acc);
    let acc1 = acc.push((TokenKind::At, seq!['@']));
    assert(is_word(t)) by {
        assert forall|m: int| 0 <= m < t.len() implies lexer::is_word_char(#[trigger] t[m]) by {
            if m > 0 {
                assert(text::is_ascii_alnum(t[m]) || t[m] == '_');
            }
        }
    }
    lemma_occurs_char(s, i1 + 1 + t.len(), seq!['\n'], 0);
    lemma_lex_word(s, i1 + 1, t, false, acc1);
    let acc2 = acc1.push((TokenKind::Identifier, t));
    lemma_lex_newline(s, i1 + 1 + t.len(), false, acc2);
    assert(acc2.push((TokenKind::Newline, seq!['\n'])) =~= acc + tag_kls(t));
}

proof fn lemma_end_word()
    ensures
        lexer::is_identifier("end"@),
        "end"@.len() == 3,
        "@end\n"@ == seq!['@'] + "end"@ + seq!['\n'],
{
    reveal_strlit("end");
    reveal_strlit("@end\n");
    assert("@end\n"@ =~= seq!['@'] + "end"@ + seq!['\n']);
}

proof fn lemma_lex_section(s: Seq<char>, i: int, sec: SectionModel, pad: Seq<char>, depth: int, acc: Seq<Kl>)
    requires
        occurs_at(s, i, serializer::section_text(sec, pad)),
        is_pad(pad),
        canonical_section(sec, depth),
        last_kind_is(acc, TokenKind::Newline),
    ensures
        lex_kl(s, i, true, acc) == lex_kl(
            s,
            i + serializer::section_text(sec, pad).len(),
            true,
            acc + section_kls(sec),
        ),
        last_kind_is(acc + section_kls(sec), TokenKind::Newline),
    decreases sec, 0nat,
{
    let head = pad + seq!['@'] + sec.tag + seq!['\n'];
    let at = serializer::attrs_text(sec.attributes, pad);
    let pad2 = pad + seq![' ', ' '];
    let ct = serializer::blocks_text(sec.children, pad2);
    lemma_end_word();
    let tail = pad + seq!['@'] + "end"@ + seq!['\n'];
    assert(serializer::section_text(sec, pad) =~= head + at + ct + tail);
    lemma_occurs_split(s, i, head + at + ct, tail);
    lemma_occurs_split(s, i, head + at, ct);
    lemma_occurs_split(s, i, head, at);
    lemma_lex_tag_line(s, i, pad, sec.tag, acc);
    let acc1 = acc + tag_kls(sec.tag);
    let i1 = i + head.len();
    lemma_lex_attrs(s, i1, sec.attributes, pad, acc1);
    let acc2 = acc1 + attrs_kls(sec.attributes);
    let i2 = i1 + at.len();
    assert(is_pad(pad2));
    lemma_lex_children(s, i2, sec.children, pad2, depth + 1, acc2);
    let acc3 = acc2 + children_kls(sec.children);
    let i3 = i2 + ct.len();
    lemma_lex_tag_line(s, i3, pad, "end"@, acc3);
    assert(acc3 + tag_kls("end"@) =~= acc + section_kls(sec));
}

proof fn lemma_lex_child(s: Seq<char>, i: int, b: BlockModel, pad: Seq<char>, depth: int, acc: Seq<Kl>)
    requires
        occurs_at(s, i, serializer::block_text(b, pad)),
        is_pad(pad),
        canonical_child(b, depth),
        last_kind_is(acc, TokenKind::Newline),
    ensures
        lex_kl(s, i, true, acc) == lex_kl(
            s,
            i + serializer::block_text(b, pad).len(),
            true,
            acc + child_kls(b),
        ),
        last_kind_is(acc + child_kls(b), TokenKind::Newline),
    decreases b, 1nat,
{
    match b {
        BlockModel::Section(c) => {
            lemma_lex_section(s, i, c, pad, depth, acc);
        },
        BlockModel::Narrative { .. } => {},
    }
}

proof fn lemma_lex_children(s: Seq<char>, i: int, bs: Seq<BlockModel>, pad: Seq<char>, depth: int, acc: Seq<Kl>)
    requires
        occurs_at(s, i, serializer::blocks_text(bs, pad)),
        is_pad(pad),
        canonical_children(bs, depth),
        last_kind_is(acc, TokenKind::Newline),
    ensures
        lex_kl(s, i, true, acc) == lex_kl(
            s,
            i + serializer::blocks_text(bs, pad).len(),
            true,
            acc + children_kls(bs),
        ),
        last_kind_is(acc + children_kls(bs), TokenKind::Newline),
    decreases bs, 0nat,
{
    if bs.len() == 0 {
        assert(acc + children_kls(bs) =~= acc);
    } else {
        let dl = bs.drop_last();
        let a = serializer::blocks_text(dl, pad);
        let b = serializer::block_text(bs.last(), pad);
        lemma_occurs_split(s, i, a, b);
        lemma_lex_children(s, i, dl, pad, depth, acc);
        let acc1 = acc + children_kls(dl);
        lemma_lex_child(s, i + a.len(), bs.last(), pad, depth, acc1);
        assert(acc1 + child_kls(bs.last()) =~= acc + children_kls(bs));
    }
}

// ---------------------------------------------------------------------------
// Narratives
// ---------------------------------------------------------------------------

pub open spec fn is_punct_char(c: char) -> bool {
    c == ':' || c == '[' || c == ']' || c == ','
}

/// Text that stands between quotes as it is: no quote, backslash or control character.
pub open spec fn plain_quoted(q: Seq<char>) -> bool {
    forall|k: int| 0 <= k < q.len() ==> #[trigger] q[k] != '"' && q[k] != '\\' && !text::is_control(q[k])
}

pub open spec fn quoted_inner(p: Seq<char>) -> Seq<char> {
    p.subrange(1, p.len() - 1)
}

/// A piece of a narrative line that reads back as itself: a word, a single
/// `:` `[` `]` `,`, a plainly quoted text, `@` and an identifier, or `@` alone.
pub open spec fn piece_ok(p: Seq<char>) -> bool {
    ||| is_word(p)
    ||| p.len() == 1 && is_punct_char(p[0])
    ||| p.len() >= 2 && p[0] == '"' && p.last() == '"' && plain_quoted(quoted_inner(p))
    ||| p.len() >= 2 && p[0] == '@' && lexer::is_identifier(p.drop_first()) && p.len() - 1
        <= lexer::MAX_TAG_LEN
    ||| p == seq!['@']
}

/// A lone `@` is followed neither by an identifier, which it would join,
/// nor by a word longer than a tag name may be.
pub open spec fn at_spacing_ok(ps: Seq<Seq<char>>) -> bool {
    forall|k: int|
        #![trigger ps[k]]
        0 <= k < ps.len() - 1 && ps[k] == seq!['@'] ==> !(is_word(ps[k + 1]) && (lexer::is_identifier(
            ps[k + 1],
        ) || ps[k + 1].len() > lexer::MAX_TAG_LEN))
}

pub open spec fn piece_kls(p: Seq<char>) -> Seq<Kl> {
    if is_word(p) {
        seq![(word_kind(p), p)]
    } else if p.len() == 1 && is_punct_char(p[0]) {
        seq![(lexer::punct_kind(p[0])->0, p)]
    } else if p.len() > 0 && p[0] == '"' {
        seq![(TokenKind::QuotedString, quoted_inner(p))]
    } else if p == seq!['@'] {
        seq![(TokenKind::At, seq!['@'])]
    } else {
        seq![(TokenKind::At, seq!['@']), (TokenKind::Identifier, p.drop_first())]
    }
}

/// A narrative line, as its pieces separated by single spaces, that reads
/// back as itself: it does not start with `@` and is not `---` alone.
pub open spec fn canonical_line(ps: Seq<Seq<char>>) -> bool {
    &&& ps.len() > 0
    &&& forall|k: int| 0 <= k < ps.len() ==> piece_ok(#[trigger] ps[k])
    &&& at_spacing_ok(ps)
    &&& ps[0][0] != '@'
    &&& !(ps.len() == 1 && ps[0] == "---"@)
}

pub open spec fn pieces_kls(ps: Seq<Seq<char>>) -> Seq<Kl>
    decreases ps.len(),
{
    if ps.len() == 0 {
        Seq::empty()
    } else {
        pieces_kls(ps.drop_last()) + piece_kls(ps.last())
    }
}

pub open spec fn line_texts(ls: Seq<Seq<Seq<char>>>) -> Seq<Seq<char>> {
    Seq::new(ls.len(), |k: int| text::join(ls[k], seq![' ']))
}

/// The text of a narrative written as the given lines.
pub open spec fn narrative_text(ls: Seq<Seq<Seq<char>>>) -> Seq<char> {
    text::join(line_texts(ls), seq!['\n'])
}

pub open spec fn canonical_lines(ls: Seq<Seq<Seq<char>>>) -> bool {
    forall|k: int| 0 <= k < ls.len() ==> canonical_line(#[trigger] ls[k])
}

pub open spec fn lines_kls(ls: Seq<Seq<Seq<char>>>) -> Seq<Kl>
    decreases ls.len(),
{
    if ls.len() == 0 {
        Seq::empty()
    } else {
        lines_kls(ls.drop_last()) + pieces_kls(ls.last()) + seq![(TokenKind::Newline, seq!['\n'])]
    }
}

pub open spec fn separator_kls() -> Seq<Kl> {
    seq![(TokenKind::NarrativeSeparator, seq!['-', '-', '-']), (TokenKind::Newline, seq!['\n'])]
}

pub open spec fn narrative_kls(ls: Seq<Seq<Seq<char>>>) -> Seq<Kl> {
    separator_kls() + lines_kls(ls) + separator_kls()
}

proof fn lemma_escape_plain(q: Seq<char>)
    requires
        plain_quoted(q),
    ensures
        serializer::escape(q) == q,
    decreases q.len(),
{
    if q.len() > 0 {
        assert(plain_quoted(q.drop_last())) by {
            assert forall|k: int| 0 <= k < q.drop_last().len() implies #[trigger] q.drop_last()[k] != '"'
                && q.drop_last()[k] != '\\' && !text::is_control(q.drop_last()[k]) by {
                assert(q.drop_last()[k] == q[k]);
            }
        }
        lemma_escape_plain(q.drop_last());
        assert(q[q.len() - 1] == q.last());
        assert(serializer::escape(q) =~= q);
    }
}

proof fn lemma_lex_piece(s: Seq<char>, i: int, p: Seq<char>, ls: bool, acc: Seq<Kl>)
    requires
        occurs_at(s, i, p),
        piece_ok(p),
        i + p.len() < s.len(),
        !lexer::is_word_char(s[i + p.len()]),
        !(last_kind_is(acc, TokenKind::At) && is_word(p) && p.len() > lexer::MAX_TAG_LEN),
        !(ls && lexer::separator_at(s, i)),
    ensures
        lex_kl(s, i, ls, acc) == lex_kl(s, i + p.len(), false, acc + piece_kls(p)),
        last_kind_is(acc + piece_kls(p), TokenKind::At) == (p == seq!['@']),
        !last_kind_is(acc + piece_kls(p), TokenKind::Newline),
{
    lemma_occurs_char(s, i, p, 0);
    if is_word(p) {
        lemma_lex_word(s, i, p, ls, acc);
        assert(acc.push((word_kind(p), p)) =~= acc + piece_kls(p));
    } else if p.len() == 1 && is_punct_char(p[0]) {
        lemma_lex_punct(s, i, ls, acc);
        assert(seq![s[i]] =~= p);
        assert(acc.push((lexer::punct_kind(p[0])->0, p)) =~= acc + piece_kls(p));
    } else if p.len() > 0 && p[0] == '"' {
        let q = quoted_inner(p);
        assert(p.len() >= 2 && p.last() == '"' && plain_quoted(q));
        lemma_escape_plain(q);
        assert(p =~= seq!['"'] + serializer::escape(q) + seq!['"']);
        assert(quotable(q));
        lemma_lex_quoted(s, i, q, ls, acc);
        assert(acc.push((TokenKind::QuotedString, q)) =~= acc + piece_kls(p));
    } else if p == seq!['@'] {
        lemma_lex_punct(s, i, ls, acc);
        assert(acc.push((TokenKind::At, seq!['@'])) =~= acc + piece_kls(p));
    } else {
        let w = p.drop_first();
        assert(p.len() >= 2 && p[0] == '@' && lexer::is_identifier(w) && w.len() <= lexer::MAX_TAG_LEN);
        lemma_lex_punct(s, i, ls, acc);
        let acc1 = acc.push((TokenKind::At, seq!['@']));
        assert(p =~= seq!['@'] + w);
        lemma_occurs_split(s, i, seq!['@'], w);
        assert(is_word(w)) by {
            assert forall|m: int| 0 <= m < w.len() implies lexer::is_word_char(#[trigger] w[m]) by {
                if m > 0 {
                    assert(text::is_ascii_alnum(w[m]) || w[m] == '_');
                }
            }
        }
        lemma_lex_word(s, i + 1, w, false, acc1);
        assert(word_kind(w) == TokenKind::Identifier);
        assert(acc1.push((TokenKind::Identifier, w)) =~= acc + piece_kls(p));
    }
}

proof fn lemma_lex_pieces(s: Seq<char>, i: int, ps: Seq<Seq<char>>, ls: bool, acc: Seq<Kl>)
    requires
        occurs_at(s, i, text::join(ps, seq![' '])),
        ps.len() > 0,
        forall|k: int| 0 <= k < ps.len() ==> piece_ok(#[trigger] ps[k]),
        i + text::join(ps, seq![' ']).len() < s.len(),
        !lexer::is_word_char(s[i + text::join(ps, seq![' ']).len()]),
        at_spacing_ok(ps),
        !last_kind_is(acc, TokenKind::At),
        !(ls && lexer::separator_at(s, i)),
    ensures
        lex_kl(s, i, ls, acc) == lex_kl(s, i + text::join(ps, seq![' ']).len(), false, acc + pieces_kls(ps)),
        last_kind_is(acc + pieces_kls(ps), TokenKind::At) == (ps.last() == seq!['@']),
        !last_kind_is(acc + pieces_kls(ps), TokenKind::Newline),
    decreases ps.len(),
{
    if ps.len() == 1 {
        assert(piece_ok(ps[0]));
        lemma_lex_piece(s, i, ps[0], ls, acc);
        assert(ps.drop_last() =~= Seq::<Seq<char>>::empty());
        assert(pieces_kls(Seq::<Seq<char>>::empty()) =~= Seq::<Kl>::empty());
        assert(ps.last() == ps[0]);
        assert(pieces_kls(ps) =~= piece_kls(ps[0]));
    } else {
        let dl = ps.drop_last();
        let a = text::join(dl, seq![' ']);
        let last = ps.last();
        assert(text::join(ps, seq![' ']) == a + seq![' '] + last);
        lemma_occurs_split(s, i, a + seq![' '], last);
        lemma_occurs_split(s, i, a, seq![' ']);
        lemma_occurs_char(s, i + a.len(), seq![' '], 0);
        assert forall|k: int| 0 <= k < dl.len() implies piece_ok(#[trigger] dl[k]) by {
            assert(dl[k] == ps[k]);
        }
        assert(at_spacing_ok(dl)) by {
            assert forall|k: int| #![trigger dl[k]] 0 <= k < dl.len() - 1 && dl[k] == seq!['@'] implies !(is_word(dl[k + 1]) && (lexer::is_identifier(
                dl[k + 1],
            ) || dl[k + 1].len() > lexer::MAX_TAG_LEN)) by {
                assert(dl[k] == ps[k] && dl[k + 1] == ps[k + 1]);
            }
        }
        lemma_lex_pieces(s, i, dl, ls, acc);
        let acc1 = acc + pieces_kls(dl);
        lemma_lex_spaces(s, i + a.len(), 1, false, acc1);
        assert(piece_ok(ps[ps.len() - 1]));
        let k2 = ps.len() - 2;
        assert(dl.last() == ps[k2]);
        assert(ps[k2] == seq!['@'] ==> !(is_word(ps[k2 + 1]) && (lexer::is_identifier(ps[k2 + 1]) || ps[k2 + 1].len()
            > lexer::MAX_TAG_LEN)));
        lemma_lex_piece(s, i + a.len() + 1, last, false, acc1);
        assert(acc1 + piece_kls(last) =~= acc + pieces_kls(ps));
    }
}

proof fn lemma_join_first(ps: Seq<Seq<char>>, sep: Seq<char>)
    requires
        ps.len() > 0,
    ensures
        text::join(ps, sep) == ps[0] + (if ps.len() > 1 {
            sep + text::join(ps.drop_first(), sep)
        } else {
            Seq::empty()
        }),
    decreases ps.len(),
{
    if ps.len() == 1 {
        assert(text::join(ps, sep) =~= ps[0] + Seq::<char>::empty());
    } else if ps.len() == 2 {
        assert(ps.drop_last() =~= seq![ps[0]]);
        assert(ps.drop_first() =~= seq![ps[1]]);
        assert(text::join(ps.drop_last(), sep) == ps[0]);
        assert(text::join(ps.drop_first(), sep) == ps[1]);
        assert(text::join(ps, sep) =~= ps[0] + (sep + text::join(ps.drop_first(), sep)));
    } else {
        lemma_join_first(ps.drop_last(), sep);
        assert(ps.drop_last().drop_first() =~= ps.drop_first().drop_last());
        assert(ps.drop_first().last() == ps.last());
        assert(text::join(ps, sep) =~= ps[0] + (sep + text::join(ps.drop_first(), sep)));
    }
}

proof fn lemma_join_last(ps: Seq<Seq<char>>, sep: Seq<char>)
    requires
        ps.len() > 0,
        ps.last().len() > 0,
    ensures
        text::join(ps, sep).len() > 0,
        text::join(ps, sep).last() == ps.last().last(),
{
    if ps.len() == 1 {
    } else {
        let j = text::join(ps, sep);
        assert(j == text::join(ps.drop_last(), sep) + sep + ps.last());
    }
}

proof fn lemma_line_not_separator(s: Seq<char>, i: int, ps: Seq<Seq<char>>)
    requires
        occurs_at(s, i, text::join(ps, seq![' ']) + seq!['\n']),
        canonical_line(ps),
    ensures
        !lexer::separator_at(s, i),
{
    let p0 = ps[0];
    assert(piece_ok(p0));
    lemma_join_first(ps, seq![' ']);
    let rest = if ps.len() > 1 {
        seq![' '] + text::join(ps.drop_first(), seq![' '])
    } else {
        Seq::empty()
    };
    assert(text::join(ps, seq![' ']) + seq!['\n'] =~= p0 + (rest + seq!['\n']));
    lemma_occurs_split(s, i, p0, rest + seq!['\n']);
    lemma_occurs_char(s, i + p0.len(), rest + seq!['\n'], 0);
    let after = s[i + p0.len()];
    assert(after == ' ' || after == '\n');
    assert(ps.len() > 1 ==> after == ' ');
    lemma_occurs_char(s, i, p0, 0);
    if lexer::separator_at(s, i) {
        assert(p0[0] == '-');
        assert(is_word(p0));
        if p0.len() >= 4 {
            lemma_occurs_char(s, i, p0, 3);
            assert(lexer::is_word_char(p0[3]));
        } else if p0.len() == 3 {
            lemma_occurs_char(s, i, p0, 1);
            lemma_occurs_char(s, i, p0, 2);
            reveal_strlit("---");
            assert(p0 =~= "---"@);
            assert(ps.len() > 1);
        } else if p0.len() == 2 {
            lemma_occurs_char(s, i, p0, 1);
        } else {
        }
    }
}

proof fn lemma_lex_line(s: Seq<char>, i: int, ps: Seq<Seq<char>>, acc: Seq<Kl>)
    requires
        occurs_at(s, i, text::join(ps, seq![' ']) + seq!['\n']),
        canonical_line(ps),
        last_kind_is(acc, TokenKind::Newline),
    ensures
        lex_kl(s, i, true, acc) == lex_kl(
            s,
            i + text::join(ps, seq![' ']).len() + 1,
            true,
            acc + pieces_kls(ps) + seq![(TokenKind::Newline, seq!['\n'])],
        ),
{
    let j = text::join(ps, seq![' ']);
    lemma_occurs_split(s, i, j, seq!['\n']);
    lemma_occurs_char(s, i + j.len(), seq!['\n'], 0);
    lemma_line_not_separator(s, i, ps);
    lemma_lex_pieces(s, i, ps, true, acc);
    let acc1 = acc + pieces_kls(ps);
    lemma_lex_newline(s, i + j.len(), false, acc1);
    assert(acc1.push((TokenKind::Newline, seq!['\n'])) =~= acc1 + seq![(TokenKind::Newline, seq!['\n'])]);
}

#[verifier::rlimit(40)]
proof fn lemma_lex_lines(s: Seq<char>, i: int, ls: Seq<Seq<Seq<char>>>, acc: Seq<Kl>)
    requires
        occurs_at(s, i, narrative_text(ls) + seq!['\n']),
        canonical_lines(ls),
        last_kind_is(acc, TokenKind::Newline),
    ensures
        lex_kl(s, i, true, acc) == lex_kl(
            s,
            i + narrative_text(ls).len() + 1,
            true,
            acc + lines_kls(ls),
        ),
        last_kind_is(acc + lines_kls(ls), TokenKind::Newline),
    decreases ls.len(),
{
    let lt = line_texts(ls);
    if ls.len() == 0 {
        assert(narrative_text(ls) =~= Seq::<char>::empty());
        lemma_occurs_char(s, i, narrative_text(ls) + seq!['\n'], 0);
        lemma_lex_newline(s, i, true, acc);
        assert(acc + lines_kls(ls) =~= acc);
    } else if ls.len() == 1 {
        assert(narrative_text(ls) == lt[0]);
        assert(canonical_line(ls[0]));
        lemma_lex_line(s, i, ls[0], acc);
        assert(ls.drop_last() =~= Seq::<Seq<Seq<char>>>::empty());
        assert(lines_kls(Seq::<Seq<Seq<char>>>::empty()) =~= Seq::<Kl>::empty());
        assert(ls.last() == ls[0]);
        assert(acc + pieces_kls(ls[0]) + seq![(TokenKind::Newline, seq!['\n'])] =~= acc + lines_kls(ls));
    } else {
        let dl = ls.drop_last();
        assert(lt.drop_last() =~= line_texts(dl));
        let a = narrative_text(dl);
        let last = ls.last();
        let b = text::join(last, seq![' ']);
        assert(lt.last() == b);
        assert(narrative_text(ls) == a + seq!['\n'] + b);
        assert(narrative_text(ls) + seq!['\n'] =~= (a + seq!['\n']) + (b + seq!['\n']));
        lemma_occurs_split(s, i, a + seq!['\n'], b + seq!['\n']);
        assert(canonical_lines(dl)) by {
            assert forall|k: int| 0 <= k < dl.len() implies canonical_line(#[trigger] dl[k]) by {
                assert(dl[k] == ls[k]);
            }
        }
        lemma_lex_lines(s, i, dl, acc);
        let acc1 = acc + lines_kls(dl);
        assert(canonical_line(ls[ls.len() - 1]));
        lemma_lex_line(s, i + a.len() + 1, last, acc1);
        assert(acc1 + pieces_kls(last) + seq![(TokenKind::Newline, seq!['\n'])] =~= acc + lines_kls(ls));
    }
}

proof fn lemma_narrative_text_last(ls: Seq<Seq<Seq<char>>>)
    requires
        canonical_lines(ls),
    ensures
        !(narrative_text(ls).len() > 0 && narrative_text(ls).last() == '\n'),
{
    if ls.len() > 0 {
        let last = ls.last();
        assert(canonical_line(ls[ls.len() - 1]));
        let p = last.last();
        assert(piece_ok(last[last.len() - 1]));
        assert(p.len() > 0);
        lemma_join_last(last, seq![' ']);
        let lt = line_texts(ls);
        assert(lt.last() == text::join(last, seq![' ']));
        lemma_join_last(lt, seq!['\n']);
        if is_word(p) {
            assert(lexer::is_word_char(p[p.len() - 1]));
        } else if p == seq!['@'] {
        } else if p[0] == '@' {
            let w = p.drop_first();
            assert(w[w.len() - 1] == p.last());
            if w.len() > 1 {
                assert(text::is_ascii_alnum(w[w.len() - 1]) || w[w.len() - 1] == '_');
            }
        }
    }
}

proof fn lemma_lex_narrative(s: Seq<char>, i: int, ls: Seq<Seq<Seq<char>>>, b: BlockModel, acc: Seq<Kl>)
    requires
        b matches BlockModel::Narrative { text: t, .. } && t == narrative_text(ls),
        occurs_at(s, i, serializer::block_text(b, Seq::empty())),
        canonical_lines(ls),
    ensures
        lex_kl(s, i, true, acc) == lex_kl(
            s,
            i + serializer::block_text(b, Seq::empty()).len(),
            true,
            acc + narrative_kls(ls),
        ),
        last_kind_is(acc + narrative_kls(ls), TokenKind::Newline),
{
    let t = narrative_text(ls);
    lemma_narrative_text_last(ls);
    reveal_strlit("---\n");
    let sep = "---\n"@;
    assert(serializer::block_text(b, Seq::empty()) =~= sep + (t + seq!['\n']) + sep);
    lemma_occurs_split(s, i, sep + (t + seq!['\n']), sep);
    lemma_occurs_split(s, i, sep, t + seq!['\n']);
    lemma_lex_separator(s, i, acc);
    let acc1 = acc.push((TokenKind::NarrativeSeparator, seq!['-', '-', '-']));
    lemma_occurs_char(s, i, sep, 3);
    lemma_lex_newline(s, i + 3, false, acc1);
    let acc2 = acc1.push((TokenKind::Newline, seq!['\n']));
    lemma_lex_lines(s, i + 4, ls, acc2);
    let acc3 = acc2 + lines_kls(ls);
    let i3 = i + 4 + t.len() + 1;
    lemma_lex_separator(s, i3, acc3);
    let acc4 = acc3.push((TokenKind::NarrativeSeparator, seq!['-', '-', '-']));
    lemma_occurs_char(s, i3, sep, 3);
    lemma_lex_newline(s, i3 + 3, false, acc4);
    assert(acc4.push((TokenKind::Newline, seq!['\n'])) =~= acc + narrative_kls(ls));
}

// ---------------------------------------------------------------------------
// Documents
// ---------------------------------------------------------------------------

/// A top-level block that reads back as itself: a canonical section, or a
/// narrative whose text is made of canonical lines and whose inline tags are
/// those found in its text.
pub open spec fn canonical_top(b: BlockModel) -> bool {
    match b {
        BlockModel::Section(c) => canonical_section(c, 0),
        BlockModel::Narrative { text, inline_tags, .. } => inline_tags == grammar::inline_tags(text)
            && exists|ls: Seq<Seq<Seq<char>>>| canonical_lines(ls) && #[trigger] narrative_text(ls) == text,
    }
}

/// The lines a canonical narrative text is written as.
pub open spec fn lines_of(t: Seq<char>) -> Seq<Seq<Seq<char>>> {
    choose|ls: Seq<Seq<Seq<char>>>| canonical_lines(ls) && #[trigger] narrative_text(ls) == t
}

pub open spec fn top_block_kls(b: BlockModel) -> Seq<Kl> {
    match b {
        BlockModel::Section(c) => section_kls(c),
        BlockModel::Narrative { text, .. } => narrative_kls(lines_of(text)),
    }
}

pub open spec fn top_kls(bs: Seq<BlockModel>) -> Seq<Kl>
    decreases bs.len(),
{
    if bs.len() == 0 {
        Seq::empty()
    } else {
        top_kls(bs.drop_last()) + top_block_kls(bs.last())
    }
}

/// A schema name that reads back as itself: one word, `:` or `,`, not taken
/// for a version.
pub open spec fn canonical_schema(o: Option<Seq<char>>) -> bool {
    match o {
        None => true,
        Some(w) => (is_word(w) || w == seq![':'] || w == seq![',']) && !(w[0] == 'v' && w.contains('.')) && text::lowercase(
            grammar::strip_v(text::trim(w)),
        ) != "2.0"@,
    }
}

pub open spec fn schema_text(o: Option<Seq<char>>) -> Seq<char> {
    match o {
        Some(s) => seq![' '] + s,
        None => Seq::empty(),
    }
}

pub open spec fn header_kls(o: Option<Seq<char>>) -> Seq<Kl> {
    seq![(TokenKind::At, seq!['@']), (TokenKind::Identifier, "ftai"@), (TokenKind::UnquotedString, "v2.0"@)]
        + match o {
        Some(w) => piece_kls(w),
        None => Seq::empty(),
    } + seq![(TokenKind::Newline, seq!['\n'])]
}

/// A document that serializes to text that parses back to it, up to spans.
pub open spec fn canonical_document(d: DocumentModel) -> bool {
    &&& canonical_schema(d.schema)
    &&& forall|k: int| 0 <= k < d.blocks.len() ==> canonical_top(#[trigger] d.blocks[k])
}

pub open spec fn document_kls(d: DocumentModel) -> Seq<Kl> {
    header_kls(d.schema) + top_kls(d.blocks) + seq![(TokenKind::Eof, Seq::empty())]
}

proof fn lemma_lex_top(s: Seq<char>, i: int, bs: Seq<BlockModel>, acc: Seq<Kl>)
    requires
        occurs_at(s, i, serializer::blocks_text(bs, Seq::empty())),
        forall|k: int| 0 <= k < bs.len() ==> canonical_top(#[trigger] bs[k]),
        last_kind_is(acc, TokenKind::Newline),
    ensures
        lex_kl(s, i, true, acc) == lex_kl(
            s,
            i + serializer::blocks_text(bs, Seq::empty()).len(),
            true,
            acc + top_kls(bs),
        ),
        last_kind_is(acc + top_kls(bs), TokenKind::Newline),
    decreases bs.len(),
{
    if bs.len() == 0 {
        assert(acc + top_kls(bs) =~= acc);
    } else {
        let dl = bs.drop_last();
        let a = serializer::blocks_text(dl, Seq::empty());
        let b = bs.last();
        let bt = serializer::block_text(b, Seq::empty());
        lemma_occurs_split(s, i, a, bt);
        assert forall|k: int| 0 <= k < dl.len() implies canonical_top(#[trigger] dl[k]) by {
            assert(dl[k] == bs[k]);
        }
        lemma_lex_top(s, i, dl, acc);
        let acc1 = acc + top_kls(dl);
        assert(canonical_top(bs[bs.len() - 1]));
        assert(is_pad(Seq::<char>::empty()));
        match b {
            BlockModel::Section(c) => {
                lemma_lex_section(s, i + a.len(), c, Seq::empty(), 0, acc1);
            },
            BlockModel::Narrative { text, .. } => {
                let ls = lines_of(text);
                lemma_lex_narrative(s, i + a.len(), ls, b, acc1);
            },
        }
        assert(acc1 + top_block_kls(b) =~= acc + top_kls(bs));
    }
}

proof fn lemma_lex_header(s: Seq<char>, o: Option<Seq<char>>)
    requires
        occurs_at(s, 0, "@ftai v2.0"@ + schema_text(o) + seq!['\n']),
        canonical_schema(o),
    ensures
        lex_kl(s, 0, true, Seq::empty()) == lex_kl(
            s,
            ("@ftai v2.0"@ + schema_text(o) + seq!['\n']).len() as int,
            true,
            header_kls(o),
        ),
{
    reveal_strlit("@ftai v2.0");
    reveal_strlit("ftai");
    reveal_strlit("v2.0");
    let ftai = "ftai"@;
    let v20 = "v2.0"@;
    assert("@ftai v2.0"@ =~= seq!['@'] + ftai + seq![' '] + v20);
    let h = seq!['@'] + ftai + seq![' '] + v20;
    let st = schema_text(o);
    lemma_occurs_split(s, 0, h + st, seq!['\n']);
    lemma_occurs_split(s, 0, h, st);
    lemma_occurs_split(s, 0, seq!['@'] + ftai + seq![' '], v20);
    lemma_occurs_split(s, 0, seq!['@'] + ftai, seq![' ']);
    lemma_occurs_split(s, 0, seq!['@'], ftai);
    lemma_occurs_char(s, 0, seq!['@'], 0);
    let e = Seq::<Kl>::empty();
    lemma_lex_punct(s, 0, true, e);
    let acc1 = e.push((TokenKind::At, seq!['@']));
    lemma_occurs_char(s, 5, seq![' '], 0);
    assert(is_word(ftai));
    lemma_lex_word(s, 1, ftai, false, acc1);
    assert(lexer::is_identifier(ftai));
    let acc2 = acc1.push((TokenKind::Identifier, ftai));
    lemma_lex_spaces(s, 5, 1, false, acc2);
    assert(is_word(v20));
    assert(!lexer::is_identifier(v20)) by {
        assert(!(text::is_ascii_alnum(v20[2]) || v20[2] == '_'));
    }
    let hn = h.len() as int;
    lemma_occurs_char(s, hn + st.len(), seq!['\n'], 0);
    match o {
        Some(w) => {
            assert(st == seq![' '] + w);
            lemma_occurs_split(s, hn, seq![' '], w);
            lemma_occurs_char(s, hn, seq![' '], 0);
            lemma_lex_word(s, 6, v20, false, acc2);
            let acc3 = acc2.push((TokenKind::UnquotedString, v20));
            lemma_lex_spaces(s, hn, 1, false, acc3);
            assert(piece_ok(w));
            lemma_lex_piece(s, hn + 1, w, false, acc3);
            let acc4 = acc3 + piece_kls(w);
            lemma_lex_newline(s, hn + st.len(), false, acc4);
            assert(acc4.push((TokenKind::Newline, seq!['\n'])) =~= header_kls(o));
        },
        None => {
            assert(st =~= Seq::<char>::empty());
            lemma_lex_word(s, 6, v20, false, acc2);
            let acc3 = acc2.push((TokenKind::UnquotedString, v20));
            lemma_lex_newline(s, hn, false, acc3);
            assert(acc3.push((TokenKind::Newline, seq!['\n'])) =~= header_kls(o));
        },
    }
}

/// The serialized text of a canonical document lexes to the expected tokens.
proof fn lemma_lex_document(d: DocumentModel)
    requires
        canonical_document(d),
    ensures
        lexer::lex(serializer::document_text(d)) matches Ok(t) && kls(t) == document_kls(d),
{
    let s = serializer::document_text(d);
    let head = "@ftai v2.0"@ + schema_text(d.schema) + seq!['\n'];
    let body = serializer::blocks_text(d.blocks, Seq::empty());
    assert(s =~= head + body);
    assert(s.subrange(0, s.len() as int) =~= s);
    lemma_occurs_split(s, 0, head, body);
    lemma_lex_header(s, d.schema);
    lemma_lex_top(s, head.len() as int, d.blocks, header_kls(d.schema));
    let acc = header_kls(d.schema) + top_kls(d.blocks);
    assert(lex_kl(s, s.len() as int, true, acc) == Some(acc.push((TokenKind::Eof, Seq::<char>::empty()))));
    assert(acc.push((TokenKind::Eof, Seq::<char>::empty())) =~= document_kls(d));
    let st = LexState { i: 0, line: 1, col: 1, line_start: true };
    lemma_lex_kl(s, st, Seq::empty());
    assert(kls(Seq::<TokenModel>::empty()) =~= Seq::<Kl>::empty());
}

// ---------------------------------------------------------------------------
// Parsing the tokens back
// ---------------------------------------------------------------------------

/// The tokens of `c` from position `p` have the kinds and lexemes `x`.
pub open spec fn toks_at(c: Ctx, p: int, x: Seq<Kl>) -> bool {
    0 <= p && p + x.len() <= c.toks.len() && kls(c.toks.subrange(p, p + x.len())) == x
}

proof fn lemma_tok(c: Ctx, p: int, x: Seq<Kl>, k: int)
    requires
        toks_at(c, p, x),
        0 <= k < x.len(),
    ensures
        c.toks[p + k].kind == x[k].0,
        c.toks[p + k].lexeme == x[k].1,
        grammar::kind_at(c, p + k) == x[k].0,
{
    let sub = c.toks.subrange(p, p + x.len());
    assert(kls(sub)[k] == kl_of(sub[k]));
    assert(sub[k] == c.toks[p + k]);
}

proof fn lemma_toks_split(c: Ctx, p: int, x: Seq<Kl>, y: Seq<Kl>)
    requires
        toks_at(c, p, x + y),
    ensures
        toks_at(c, p, x),
        toks_at(c, p + x.len(), y),
{
    let sxy = c.toks.subrange(p, p + x.len() + y.len());
    let sx = c.toks.subrange(p, p + x.len());
    let sy = c.toks.subrange(p + x.len(), p + x.len() + y.len());
    assert forall|k: int| 0 <= k < x.len() implies kls(sx)[k] == x[k] by {
        assert(kls(sxy)[k] == (x + y)[k]);
        assert(sx[k] == sxy[k]);
    }
    assert(kls(sx) =~= x);
    assert forall|k: int| 0 <= k < y.len() implies kls(sy)[k] == y[k] by {
        assert(kls(sxy)[x.len() + k] == (x + y)[x.len() + k]);
        assert(sy[k] == sxy[x.len() + k]);
    }
    assert(kls(sy) =~= y);
}

proof fn lemma_join_nonempty(ps: Seq<Seq<char>>, sep: Seq<char>)
    requires
        ps.len() > 0,
        ps[0].len() > 0,
    ensures
        text::join(ps, sep).len() > 0,
        text::join(ps, sep)[0] == ps[0][0],
{
    lemma_join_first(ps, sep);
}

/// The first token of a canonical list item is not a newline, `]` or the
/// end, and that of an unquoted one is not a quoted string or `[`.
proof fn lemma_item_first(v: ValueModel)
    requires
        canonical_item(v),
    ensures
        item_kls(v).len() > 0,
        !outside_values(item_kls(v)[0].0),
        item_kls(v)[0].0 != TokenKind::RightBracket,
        v is Unquoted ==> item_kls(v)[0].0 != TokenKind::QuotedString && item_kls(v)[0].0
            != TokenKind::LeftBracket,
{
    match v {
        ValueModel::Unquoted(w) => {
            let ps = choose|ps: Seq<Seq<char>>| #[trigger] item_as(w, ps);
            assert(element_piece(ps[0]));
            lemma_join_nonempty(ps, seq![' ']);
            let ps2 = item_pieces(w);
            assert(item_as(w, ps2));
            lemma_pieces_kls_first(ps2);
            assert(element_piece(ps2[0]));
        },
        _ => {},
    }
}

/// The first token of a non-empty canonical value is not a newline, `]`,
/// `@`, a separator or the end.
proof fn lemma_value_first(v: ValueModel)
    requires
        canonical_value(v),
        v is Unquoted ==> v->Unquoted_0.len() > 0,
    ensures
        value_kls(v).len() > 0,
        !outside_values(value_kls(v)[0].0),
        value_kls(v)[0].0 != TokenKind::RightBracket,
        v is Unquoted ==> value_kls(v)[0].0 != TokenKind::QuotedString && value_kls(v)[0].0
            != TokenKind::LeftBracket,
{
    match v {
        ValueModel::Unquoted(w) => {
            let ps = unquoted_pieces(w);
            assert(unquoted_as(w, ps));
            lemma_pieces_kls_first(ps);
            assert(value_piece(ps[0]));
        },
        _ => {},
    }
}

proof fn lemma_collect_values(c: Ctx, p: int, ps: Seq<Seq<char>>)
    requires
        forall|k: int| 0 <= k < ps.len() ==> value_piece(#[trigger] ps[k]),
        toks_at(c, p, pieces_kls(ps) + seq![(TokenKind::Newline, seq!['\n'])]),
    ensures
        grammar::collect_values(c, p) == (ps, p + pieces_kls(ps).len()),
    decreases ps.len(),
{
    let nl = seq![(TokenKind::Newline, seq!['\n'])];
    if ps.len() == 0 {
        assert(pieces_kls(ps) =~= Seq::<Kl>::empty());
        lemma_tok(c, p, pieces_kls(ps) + nl, 0);
        assert(ps =~= Seq::<Seq<char>>::empty());
    } else {
        let p0 = ps[0];
        let rest = ps.drop_first();
        assert(value_piece(p0));
        lemma_pieces_kls_first(ps);
        let pk0 = piece_kls(p0);
        assert(pk0.len() == 1);
        assert(pieces_kls(ps) + nl =~= pk0 + (pieces_kls(rest) + nl));
        lemma_toks_split(c, p, pk0, pieces_kls(rest) + nl);
        lemma_tok(c, p, pk0, 0);
        assert forall|k: int| 0 <= k < rest.len() implies value_piece(#[trigger] rest[k]) by {
            assert(rest[k] == ps[k + 1]);
        }
        lemma_collect_values(c, p + 1, rest);
        assert(seq![p0] + rest =~= ps);
    }
}

proof fn lemma_element_parts(c: Ctx, p: int, ps: Seq<Seq<char>>, next: Kl)
    requires
        forall|k: int| 0 <= k < ps.len() ==> element_piece(#[trigger] ps[k]),
        toks_at(c, p, pieces_kls(ps) + seq![next]),
        next.0 == TokenKind::Comma || next.0 == TokenKind::RightBracket,
    ensures
        grammar::element_parts(c, p) == (ps, p + pieces_kls(ps).len()),
    decreases ps.len(),
{
    if ps.len() == 0 {
        assert(pieces_kls(ps) =~= Seq::<Kl>::empty());
        lemma_tok(c, p, pieces_kls(ps) + seq![next], 0);
        assert(ps =~= Seq::<Seq<char>>::empty());
    } else {
        let p0 = ps[0];
        let rest = ps.drop_first();
        assert(element_piece(p0));
        lemma_pieces_kls_first(ps);
        let pk0 = piece_kls(p0);
        assert(pk0.len() == 1);
        assert(pieces_kls(ps) + seq![next] =~= pk0 + (pieces_kls(rest) + seq![next]));
        lemma_toks_split(c, p, pk0, pieces_kls(rest) + seq![next]);
        lemma_tok(c, p, pk0, 0);
        assert forall|k: int| 0 <= k < rest.len() implies element_piece(#[trigger] rest[k]) by {
            assert(rest[k] == ps[k + 1]);
        }
        lemma_element_parts(c, p + 1, rest, next);
        assert(seq![p0] + rest =~= ps);
    }
}

proof fn lemma_items_kls_first(items: Seq<ValueModel>)
    requires
        items.len() > 1,
    ensures
        items_kls(items) == item_kls(items[0]) + seq![(TokenKind::Comma, seq![','])] + items_kls(items.drop_first()),
    decreases items.len(),
{
    let c = seq![(TokenKind::Comma, seq![','])];
    if items.len() == 2 {
        assert(items.drop_last() =~= seq![items[0]]);
        assert(items.drop_first() =~= seq![items[1]]);
        assert(items_kls(items.drop_last()) == item_kls(items[0]));
        assert(items_kls(items.drop_first()) == item_kls(items[1]));
    } else {
        lemma_items_kls_first(items.drop_last());
        assert(items.drop_last().drop_first() =~= items.drop_first().drop_last());
        assert(items.drop_first().last() == items.last());
        assert(items_kls(items) =~= item_kls(items[0]) + c + items_kls(items.drop_first()));
    }
}

proof fn lemma_parse_value(c: Ctx, p: int, v: ValueModel)
    requires
        canonical_value(v),
        toks_at(c, p, value_kls(v) + seq![(TokenKind::Newline, seq!['\n'])]),
    ensures
        grammar::value(c, p) == (Ok::<ValueModel, crate::error::ErrorModel>(v), p + value_kls(v).len()),
{
    let x = value_kls(v) + seq![(TokenKind::Newline, seq!['\n'])];
    match v {
        ValueModel::Quoted(q) => {
            assert(value_kls(v) == seq![(TokenKind::QuotedString, q)]);
            assert(x[0] == (TokenKind::QuotedString, q));
            lemma_tok(c, p, x, 0);
        },
        ValueModel::Unquoted(w) => {
            if w.len() == 0 {
                lemma_tok(c, p, x, 0);
                assert(w =~= Seq::<char>::empty());
            } else {
                let ps = unquoted_pieces(w);
                assert(unquoted_as(w, ps));
                lemma_value_first(v);
                lemma_tok(c, p, x, 0);
                lemma_collect_values(c, p, ps);
            }
        },
        ValueModel::List(items) => {
            lemma_tok(c, p, x, 0);
            let inner = items_kls(items) + seq![(TokenKind::RightBracket, seq![']'])];
            assert(x =~= seq![(TokenKind::LeftBracket, seq!['['])] + inner + seq![(TokenKind::Newline, seq!['\n'])]);
            lemma_toks_split(c, p, seq![(TokenKind::LeftBracket, seq!['['])] + inner, seq![(TokenKind::Newline, seq!['\n'])]);
            lemma_toks_split(c, p, seq![(TokenKind::LeftBracket, seq!['['])], inner);
            lemma_parse_list_items(c, p + 1, Seq::empty(), items);
            assert(Seq::<ValueModel>::empty() + items =~= items);
        },
    }
}

proof fn lemma_parse_list_items(c: Ctx, p: int, done: Seq<ValueModel>, rest: Seq<ValueModel>)
    requires
        items_ok(rest),
        toks_at(c, p, items_kls(rest) + seq![(TokenKind::RightBracket, seq![']'])]),
    ensures
        grammar::list_items(c, p, done) == (
            Ok::<ValueModel, crate::error::ErrorModel>(ValueModel::List(done + rest)),
            p + items_kls(rest).len() + 1,
        ),
    decreases rest, 1nat,
{
    let rb = seq![(TokenKind::RightBracket, seq![']'])];
    let x = items_kls(rest) + rb;
    if rest.len() == 0 {
        lemma_tok(c, p, x, 0);
        assert(done + rest =~= done);
    } else {
        let v = rest[0];
        assert(items_ok(rest));
        assert(canonical_item(v) || (rest.len() > 1 && v == ValueModel::Unquoted(Seq::<char>::empty())));
        let vk = item_kls(v);
        let tail = if rest.len() > 1 {
            seq![(TokenKind::Comma, seq![','])] + items_kls(rest.drop_first())
        } else {
            Seq::empty()
        };
        if rest.len() > 1 {
            lemma_items_kls_first(rest);
        } else {
            assert(items_kls(rest) == vk);
        }
        assert(x =~= vk + (tail + rb));
        lemma_toks_split(c, p, vk, tail + rb);
        let q2 = p + vk.len();
        lemma_tok(c, q2, tail + rb, 0);
        if canonical_item(v) {
            lemma_item_first(v);
            lemma_tok(c, p, vk, 0);
        } else {
            assert(vk =~= Seq::<Kl>::empty());
        }
        assert(toks_at(c, p, vk + seq![(tail + rb)[0]])) by {
            assert(seq![(tail + rb)[0]] + (tail + rb).drop_first() =~= tail + rb);
            lemma_toks_split(c, q2, seq![(tail + rb)[0]], (tail + rb).drop_first());
            let s1 = c.toks.subrange(p, p + vk.len() + 1);
            assert forall|k: int| 0 <= k < vk.len() + 1 implies kls(s1)[k] == (vk + seq![(tail + rb)[0]])[k] by {
                if k < vk.len() {
                    lemma_tok(c, p, vk, k);
                } else {
                    lemma_tok(c, q2, tail + rb, 0);
                }
            }
            assert(kls(s1) =~= vk + seq![(tail + rb)[0]]);
        }
        lemma_parse_list_element(c, p, v, (tail + rb)[0]);
        if rest.len() > 1 {
            let dr = rest.drop_first();
            assert(items_ok(dr)) by {
                assert forall|k: int| #![trigger dr[k]] 0 <= k < dr.len() implies canonical_item(dr[k]) || (k + 1 < dr.len()
                    && dr[k] == ValueModel::Unquoted(Seq::empty())) by {
                    assert(dr[k] == rest[k + 1]);
                }
            }
            assert(tail + rb =~= seq![(TokenKind::Comma, seq![','])] + (items_kls(dr) + rb));
            lemma_toks_split(c, q2, seq![(TokenKind::Comma, seq![','])], items_kls(dr) + rb);
            lemma_parse_list_items(c, q2 + 1, done.push(v), dr);
            assert(done.push(v) + dr =~= done + rest);
        } else {
            assert(done.push(v) =~= done + rest);
        }
    }
}

proof fn lemma_parse_list_element(c: Ctx, p: int, v: ValueModel, next: Kl)
    requires
        lexable_item(v),
        toks_at(c, p, item_kls(v) + seq![next]),
        next.0 == TokenKind::Comma || next.0 == TokenKind::RightBracket,
    ensures
        grammar::list_element(c, p) == (Ok::<ValueModel, crate::error::ErrorModel>(v), p + item_kls(v).len()),
    decreases v, 0nat,
{
    let x = item_kls(v) + seq![next];
    lemma_tok(c, p, x, 0);
    match v {
        ValueModel::Quoted(q) => {},
        ValueModel::Unquoted(w) => {
            if w.len() == 0 {
                assert(item_kls(v) =~= Seq::<Kl>::empty());
                lemma_element_parts(c, p, Seq::empty(), next);
                assert(text::join(Seq::<Seq<char>>::empty(), seq![' ']) =~= Seq::<char>::empty());
                assert(text::trim(Seq::<char>::empty()) =~= Seq::<char>::empty());
                assert(w =~= Seq::<char>::empty());
            } else {
                let ps = item_pieces(w);
                assert(canonical_item(v));
                assert(item_as(w, ps));
                lemma_item_first(v);
                lemma_element_parts(c, p, ps, next);
            }
        },
        ValueModel::List(items) => {
            let inner = items_kls(items) + seq![(TokenKind::RightBracket, seq![']'])];
            assert(x =~= seq![(TokenKind::LeftBracket, seq!['['])] + inner + seq![next]);
            lemma_toks_split(c, p, seq![(TokenKind::LeftBracket, seq!['['])] + inner, seq![next]);
            lemma_toks_split(c, p, seq![(TokenKind::LeftBracket, seq!['['])], inner);
            lemma_parse_list_items(c, p + 1, Seq::empty(), items);
            assert(Seq::<ValueModel>::empty() + items =~= items);
        },
    }
}

proof fn lemma_parse_attribute(c: Ctx, p: int, kv: (Seq<char>, ValueModel))
    requires
        canonical_attr(kv),
        toks_at(c, p, attr_kls(kv)),
    ensures
        grammar::attribute(c, p) == (
            Ok::<(Seq<char>, ValueModel), crate::error::ErrorModel>(kv),
            p + attr_kls(kv).len(),
        ),
{
    let head = seq![(TokenKind::Identifier, kv.0), (TokenKind::Colon, seq![':'])];
    let rest = value_kls(kv.1) + seq![(TokenKind::Newline, seq!['\n'])];
    assert(attr_kls(kv) =~= head + rest);
    lemma_toks_split(c, p, head, rest);
    lemma_tok(c, p, head, 0);
    lemma_tok(c, p, head, 1);
    lemma_parse_value(c, p + 2, kv.1);
    lemma_tok(c, p + 2, rest, value_kls(kv.1).len() as int);
}

// ---------------------------------------------------------------------------
// Documents without source spans
// ---------------------------------------------------------------------------

/// A section with every span in it replaced by the synthetic span.
pub open spec fn erase_section(s: SectionModel) -> SectionModel
    decreases s, 0nat,
{
    SectionModel {
        tag: s.tag,
        attributes: s.attributes,
        children: erase_blocks(s.children),
        span: grammar::synthetic_span(),
    }
}

/// A block with every span in it replaced by the synthetic span.
pub open spec fn erase_block(b: BlockModel) -> BlockModel
    decreases b, 1nat,
{
    match b {
        BlockModel::Section(s) => BlockModel::Section(erase_section(s)),
        BlockModel::Narrative { text, inline_tags, .. } => BlockModel::Narrative {
            text,
            inline_tags,
            span: grammar::synthetic_span(),
        },
    }
}

pub open spec fn erase_blocks(bs: Seq<BlockModel>) -> Seq<BlockModel>
    decreases bs, 0nat,
{
    if bs.len() == 0 {
        Seq::empty()
    } else {
        erase_blocks(bs.drop_last()).push(erase_block(bs.last()))
    }
}

/// A document with every span in it replaced by the synthetic span: what
/// remains is its structure.
pub open spec fn erase_document(d: DocumentModel) -> DocumentModel {
    DocumentModel { version: d.version, schema: d.schema, blocks: erase_blocks(d.blocks) }
}

proof fn lemma_erase_blocks_push(bs: Seq<BlockModel>, b: BlockModel)
    ensures
        erase_blocks(bs.push(b)) == erase_blocks(bs).push(erase_block(b)),
{
    assert(bs.push(b).drop_last() =~= bs);
}

// ---------------------------------------------------------------------------
// Finding the `@end` of a canonical section
// ---------------------------------------------------------------------------

proof fn lemma_has_end_skip(c: Ctx, i: int, n: int, d: nat)
    requires
        0 <= i,
        0 <= n,
        i + n <= c.toks.len(),
        forall|k: int| i <= k < i + n ==> grammar::kind_at(c, k) != TokenKind::At && grammar::kind_at(c, k) != TokenKind::Eof,
    ensures
        grammar::has_end_ahead(c, i, d) == grammar::has_end_ahead(c, i + n, d),
    decreases n,
{
    if n > 0 {
        lemma_has_end_skip(c, i + 1, n - 1, d);
    }
}

proof fn lemma_attrs_kls_kinds(attrs: Seq<(Seq<char>, ValueModel)>)
    requires
        forall|k: int| 0 <= k < attrs.len() ==> canonical_attr(#[trigger] attrs[k]),
    ensures
        forall|k: int| 0 <= k < attrs_kls(attrs).len() ==> #[trigger] attrs_kls(attrs)[k].0 != TokenKind::At
            && attrs_kls(attrs)[k].0 != TokenKind::Eof,
    decreases attrs.len(),
{
    if attrs.len() > 0 {
        assert forall|k: int| 0 <= k < attrs.drop_last().len() implies canonical_attr(#[trigger] attrs.drop_last()[k]) by {
            assert(attrs.drop_last()[k] == attrs[k]);
        }
        lemma_attrs_kls_kinds(attrs.drop_last());
        let a = attrs_kls(attrs.drop_last());
        let kv = attrs.last();
        assert(canonical_attr(attrs[attrs.len() - 1]));
        let vk = value_kls(kv.1);
        lemma_value_kls_kinds(kv.1);
        assert forall|k: int| 0 <= k < attrs_kls(attrs).len() implies #[trigger] attrs_kls(attrs)[k].0 != TokenKind::At
            && attrs_kls(attrs)[k].0 != TokenKind::Eof by {
            if k < a.len() {
                assert(attrs_kls(attrs)[k] == a[k]);
            } else if k < a.len() + 2 {
            } else if k < a.len() + 2 + vk.len() {
                assert(attrs_kls(attrs)[k] == vk[k - a.len() - 2]);
            } else {
            }
        }
    }
}

/// Attribute lines hold no `@` and no end of input.
proof fn lemma_has_end_attrs(c: Ctx, i: int, attrs: Seq<(Seq<char>, ValueModel)>, d: nat)
    requires
        forall|k: int| 0 <= k < attrs.len() ==> canonical_attr(#[trigger] attrs[k]),
        toks_at(c, i, attrs_kls(attrs)),
    ensures
        grammar::has_end_ahead(c, i, d) == grammar::has_end_ahead(c, i + attrs_kls(attrs).len(), d),
{
    lemma_attrs_kls_kinds(attrs);
    assert forall|k: int| i <= k < i + attrs_kls(attrs).len() implies grammar::kind_at(c, k) != TokenKind::At
        && grammar::kind_at(c, k) != TokenKind::Eof by {
        lemma_tok(c, i, attrs_kls(attrs), k - i);
        assert(attrs_kls(attrs)[k - i].0 != TokenKind::At);
    }
    lemma_has_end_skip(c, i, attrs_kls(attrs).len() as int, d);
}

proof fn lemma_end_variants()
    ensures
        text::eq_ignore_ascii_case("end"@, "end"@),
{
    reveal_strlit("end");
}

/// A token sequence whose last token is a newline.
pub open spec fn ends_line(x: Seq<Kl>) -> bool {
    x.len() > 0 && x.last().0 == TokenKind::Newline
}

proof fn lemma_ends_line_concat(a: Seq<Kl>, b: Seq<Kl>)
    requires
        ends_line(a),
        b.len() == 0 || ends_line(b),
    ensures
        ends_line(a + b),
{
    if b.len() == 0 {
        assert(a + b =~= a);
    } else {
        assert((a + b).last() == b.last());
    }
}

proof fn lemma_attrs_kls_ends(attrs: Seq<(Seq<char>, ValueModel)>)
    ensures
        attrs.len() == 0 || ends_line(attrs_kls(attrs)),
{
    if attrs.len() > 0 {
        let b = attr_kls(attrs.last());
        assert(b.last().0 == TokenKind::Newline);
        assert((attrs_kls(attrs.drop_last()) + b).last() == b.last());
    }
}

proof fn lemma_children_kls_ends(bs: Seq<BlockModel>, depth: int)
    requires
        canonical_children(bs, depth),
    ensures
        bs.len() == 0 || ends_line(children_kls(bs)),
{
    if bs.len() > 0 {
        let b = bs.last();
        assert(canonical_child(b, depth));
        assert(children_kls(bs) == children_kls(bs.drop_last()) + child_kls(b));
        match b {
            BlockModel::Section(sec) => {
                let x = tag_kls(sec.tag) + attrs_kls(sec.attributes) + children_kls(sec.children);
                assert(child_kls(b) == section_kls(sec));
                assert(section_kls(sec) == x + tag_kls("end"@));
                assert((x + tag_kls("end"@)).last() == tag_kls("end"@).last());
                assert(ends_line(child_kls(b)));
                assert((children_kls(bs.drop_last()) + child_kls(b)).last() == child_kls(b).last());
            },
            BlockModel::Narrative { .. } => {},
        }
    }
}

/// The token right after a run ending in a newline begins a line.
proof fn lemma_line_start_after(c: Ctx, i: int, x: Seq<Kl>)
    requires
        toks_at(c, i, x),
        ends_line(x),
    ensures
        grammar::at_line_start(c, i + x.len()),
{
    lemma_tok(c, i, x, x.len() - 1);
}

/// The opening line, attribute lines and children of a canonical section each
/// end with a newline.
proof fn lemma_section_lines(sec: SectionModel, depth: int)
    requires
        canonical_section(sec, depth),
    ensures
        ends_line(tag_kls(sec.tag) + attrs_kls(sec.attributes)),
        ends_line(tag_kls(sec.tag) + attrs_kls(sec.attributes) + children_kls(sec.children)),
        ends_line(section_kls(sec)),
{
    let tk = tag_kls(sec.tag);
    let ak = attrs_kls(sec.attributes);
    let ck = children_kls(sec.children);
    assert(ends_line(tk));
    lemma_attrs_kls_ends(sec.attributes);
    lemma_ends_line_concat(tk, ak);
    lemma_children_kls_ends(sec.children, depth + 1);
    lemma_ends_line_concat(tk + ak, ck);
    lemma_ends_line_concat(tk + ak + ck, tag_kls("end"@));
    assert(section_kls(sec) == tk + ak + ck + tag_kls("end"@));
}

proof fn lemma_has_end_section(c: Ctx, i: int, sec: SectionModel, depth: int, d: nat)
    requires
        canonical_section(sec, depth),
        toks_at(c, i, section_kls(sec)),
        grammar::at_line_start(c, i),
    ensures
        grammar::has_end_ahead(c, i, d) == grammar::has_end_ahead(c, i + section_kls(sec).len(), d),
    decreases sec, 1nat,
{
    let tk = tag_kls(sec.tag);
    let ak = attrs_kls(sec.attributes);
    let ck = children_kls(sec.children);
    let ek = tag_kls("end"@);
    assert(section_kls(sec) == tk + ak + ck + ek);
    lemma_toks_split(c, i, tk + ak + ck, ek);
    lemma_toks_split(c, i, tk + ak, ck);
    lemma_toks_split(c, i, tk, ak);
    lemma_section_lines(sec, depth);
    lemma_tok(c, i, tk, 0);
    lemma_tok(c, i, tk, 1);
    lemma_tok(c, i, tk, 2);
    assert(grammar::skip_ats(c, i + 1) == i + 1);
    assert(!grammar::tag_has_value(c, i + 1));
    assert(grammar::has_end_ahead(c, i, d) == grammar::has_end_ahead(c, i + 2, d + 1));
    lemma_has_end_skip(c, i + 2, 1, d + 1);
    lemma_has_end_attrs(c, i + 3, sec.attributes, d + 1);
    let i2 = i + 3 + ak.len();
    lemma_line_start_after(c, i, tk + ak);
    lemma_has_end_children(c, i2, sec.children, depth + 1, d + 1);
    let e = i2 + ck.len();
    lemma_line_start_after(c, i, tk + ak + ck);
    lemma_tok(c, e, ek, 0);
    lemma_tok(c, e, ek, 1);
    lemma_tok(c, e, ek, 2);
    lemma_end_variants();
    assert(grammar::skip_ats(c, e + 1) == e + 1);
    assert(grammar::has_end_ahead(c, e, (d + 1) as nat) == grammar::has_end_ahead(c, e + 2, d));
    lemma_has_end_skip(c, e + 2, 1, d);
}

proof fn lemma_has_end_child(c: Ctx, i: int, b: BlockModel, depth: int, d: nat)
    requires
        canonical_child(b, depth),
        toks_at(c, i, child_kls(b)),
        grammar::at_line_start(c, i),
    ensures
        grammar::has_end_ahead(c, i, d) == grammar::has_end_ahead(c, i + child_kls(b).len(), d),
    decreases b, 2nat,
{
    match b {
        BlockModel::Section(sec) => lemma_has_end_section(c, i, sec, depth, d),
        BlockModel::Narrative { .. } => {},
    }
}

proof fn lemma_has_end_children(c: Ctx, i: int, bs: Seq<BlockModel>, depth: int, d: nat)
    requires
        canonical_children(bs, depth),
        toks_at(c, i, children_kls(bs)),
        grammar::at_line_start(c, i),
    ensures
        grammar::has_end_ahead(c, i, d) == grammar::has_end_ahead(c, i + children_kls(bs).len(), d),
    decreases bs, 0nat,
{
    if bs.len() > 0 {
        let dl = bs.drop_last();
        lemma_toks_split(c, i, children_kls(dl), child_kls(bs.last()));
        lemma_has_end_children(c, i, dl, depth, d);
        lemma_children_kls_ends(dl, depth);
        if dl.len() > 0 {
            lemma_line_start_after(c, i, children_kls(dl));
        } else {
            assert(children_kls(dl).len() == 0);
        }
        lemma_has_end_child(c, i + children_kls(dl).len(), bs.last(), depth, d);
    }
}

/// From after its opening line, a canonical section's own `@end` lies ahead.
proof fn lemma_has_end_own(c: Ctx, p: int, sec: SectionModel, depth: int)
    requires
        canonical_section(sec, depth),
        toks_at(c, p, section_kls(sec)),
    ensures
        grammar::has_end_ahead(c, p + 3, 0),
{
    let tk = tag_kls(sec.tag);
    let ak = attrs_kls(sec.attributes);
    let ck = children_kls(sec.children);
    let ek = tag_kls("end"@);
    assert(section_kls(sec) == tk + ak + ck + ek);
    lemma_toks_split(c, p, tk + ak + ck, ek);
    lemma_toks_split(c, p, tk + ak, ck);
    lemma_toks_split(c, p, tk, ak);
    lemma_section_lines(sec, depth);
    lemma_has_end_attrs(c, p + 3, sec.attributes, 0);
    let i2 = p + 3 + ak.len();
    lemma_line_start_after(c, p, tk + ak);
    lemma_has_end_children(c, i2, sec.children, depth + 1, 0);
    let e = i2 + ck.len();
    lemma_line_start_after(c, p, tk + ak + ck);
    lemma_tok(c, e, ek, 0);
    lemma_tok(c, e, ek, 1);
    lemma_end_variants();
    assert(grammar::skip_ats(c, e + 1) == e + 1);
}

// ---------------------------------------------------------------------------
// Section bodies
// ---------------------------------------------------------------------------

proof fn lemma_body_attr(c: Ctx, l: bool, p: int, o: grammar::Opened, b: grammar::Body, kv: (Seq<char>, ValueModel), e: Seq<crate::error::ErrorModel>)
    requires
        canonical_attr(kv),
        toks_at(c, p, attr_kls(kv)),
        p + attr_kls(kv).len() < c.toks.len(),
    ensures
        grammar::section_body(c, l, p, o, b, e) == grammar::section_body(
            c,
            l,
            p + attr_kls(kv).len(),
            o,
            grammar::Body { attrs: b.attrs.push(kv), ..b },
            e,
        ),
{
    lemma_tok(c, p, attr_kls(kv), 0);
    lemma_tok(c, p, attr_kls(kv), 1);
    lemma_parse_attribute(c, p, kv);
}

proof fn lemma_body_attrs(c: Ctx, l: bool, p: int, o: grammar::Opened, b: grammar::Body, attrs: Seq<(Seq<char>, ValueModel)>, e: Seq<crate::error::ErrorModel>)
    requires
        forall|k: int| 0 <= k < attrs.len() ==> canonical_attr(#[trigger] attrs[k]),
        toks_at(c, p, attrs_kls(attrs)),
        p + attrs_kls(attrs).len() < c.toks.len(),
    ensures
        grammar::section_body(c, l, p, o, b, e) == grammar::section_body(
            c,
            l,
            p + attrs_kls(attrs).len(),
            o,
            grammar::Body { attrs: b.attrs + attrs, ..b },
            e,
        ),
    decreases attrs.len(),
{
    if attrs.len() == 0 {
        assert(b.attrs + attrs =~= b.attrs);
        assert(grammar::Body { attrs: b.attrs + attrs, ..b } == b);
    } else {
        let dl = attrs.drop_last();
        let kv = attrs.last();
        lemma_toks_split(c, p, attrs_kls(dl), attr_kls(kv));
        assert forall|k: int| 0 <= k < dl.len() implies canonical_attr(#[trigger] dl[k]) by {
            assert(dl[k] == attrs[k]);
        }
        lemma_body_attrs(c, l, p, o, b, dl, e);
        let b1 = grammar::Body { attrs: b.attrs + dl, ..b };
        assert(canonical_attr(attrs[attrs.len() - 1]));
        lemma_body_attr(c, l, p + attrs_kls(dl).len(), o, b1, kv, e);
        assert((b.attrs + dl).push(kv) =~= b.attrs + attrs);
    }
}

/// The blocks that the child `@tag`s from `p` parse to, one after another.
pub open spec fn parsed_children(c: Ctx, l: bool, p: int, bs: Seq<BlockModel>, depth: int, e: Seq<crate::error::ErrorModel>) -> Seq<BlockModel>
    decreases bs.len(),
{
    if bs.len() == 0 {
        Seq::empty()
    } else {
        parsed_children(c, l, p, bs.drop_last(), depth, e).push(
            grammar::at_block(c, l, p + children_kls(bs.drop_last()).len(), depth, e).res->Ok_0,
        )
    }
}

proof fn lemma_body_end(c: Ctx, l: bool, p: int, o: grammar::Opened, b: grammar::Body, e: Seq<crate::error::ErrorModel>)
    requires
        toks_at(c, p, tag_kls("end"@)),
    ensures
        grammar::section_body(c, l, p, o, b, e) == (grammar::Outcome {
            res: Ok(grammar::finish_section(c, o, b, p + 3)),
            pos: p + 3,
            errs: e,
        }),
{
    let ek = tag_kls("end"@);
    lemma_tok(c, p, ek, 0);
    lemma_tok(c, p, ek, 1);
    lemma_tok(c, p, ek, 2);
    lemma_end_variants();
    reveal_strlit("end");
    assert(grammar::after_end_marker(c, p) == p + 3);
}

proof fn lemma_at_block(c: Ctx, l: bool, p: int, sec: SectionModel, depth: int, e: Seq<crate::error::ErrorModel>)
    requires
        canonical_section(sec, depth),
        toks_at(c, p, section_kls(sec)),
        p + section_kls(sec).len() < c.toks.len(),
        c.limit == grammar::DEFAULT_NESTING_LIMIT,
    ensures
        grammar::at_block(c, l, p, depth, e).res is Ok,
        grammar::at_block(c, l, p, depth, e).pos == p + section_kls(sec).len(),
        grammar::at_block(c, l, p, depth, e).errs == e,
        erase_block(grammar::at_block(c, l, p, depth, e).res->Ok_0) == BlockModel::Section(erase_section(sec)),
    decreases sec, 1nat,
{
    let tk = tag_kls(sec.tag);
    let ak = attrs_kls(sec.attributes);
    let ck = children_kls(sec.children);
    let ek = tag_kls("end"@);
    assert(section_kls(sec) == tk + ak + ck + ek);
    lemma_toks_split(c, p, tk + ak + ck, ek);
    lemma_toks_split(c, p, tk + ak, ck);
    lemma_toks_split(c, p, tk, ak);
    lemma_tok(c, p, tk, 0);
    lemma_tok(c, p, tk, 1);
    lemma_tok(c, p, tk, 2);
    assert(grammar::skip_ats(c, p + 1) == p + 1);
    assert(grammar::collect_values(c, p + 2) == (Seq::<Seq<char>>::empty(), p + 2));
    lemma_has_end_own(c, p, sec, depth);
    let o = grammar::Opened {
        tag: sec.tag,
        line: grammar::line_at(c, p),
        col: c.toks[p].span.start_col,
        depth: depth + 1,
    };
    let b0 = grammar::Body { attrs: Seq::empty(), children: Seq::empty(), buf: Seq::empty() };
    let p1 = p + 3;
    lemma_body_attrs(c, l, p1, o, b0, sec.attributes, e);
    let b1 = grammar::Body { attrs: b0.attrs + sec.attributes, ..b0 };
    assert(b0.attrs + sec.attributes =~= sec.attributes);
    let p2 = p1 + ak.len();
    lemma_body_children(c, l, p2, o, b1, sec.children, e);
    let pc = parsed_children(c, l, p2, sec.children, depth + 1, e);
    let b2 = grammar::Body { attrs: b1.attrs, children: b1.children + pc, buf: Seq::empty() };
    assert(b1.children + pc =~= pc);
    let p3 = p2 + ck.len();
    lemma_body_end(c, l, p3, o, b2, e);
    let fin = grammar::finish_section(c, o, b2, p3 + 3);
    assert(grammar::flush(pc, Seq::empty()) == pc);
    assert(erase_section(fin) == erase_section(sec));
}

proof fn lemma_body_child(c: Ctx, l: bool, p: int, o: grammar::Opened, b: grammar::Body, blk: BlockModel, e: Seq<crate::error::ErrorModel>)
    requires
        b.buf.len() == 0,
        canonical_child(blk, o.depth),
        toks_at(c, p, child_kls(blk)),
        p + child_kls(blk).len() < c.toks.len(),
        c.limit == grammar::DEFAULT_NESTING_LIMIT,
    ensures
        grammar::section_body(c, l, p, o, b, e) == grammar::section_body(
            c,
            l,
            p + child_kls(blk).len(),
            o,
            grammar::Body {
                attrs: b.attrs,
                children: b.children.push(grammar::at_block(c, l, p, o.depth, e).res->Ok_0),
                buf: Seq::empty(),
            },
            e,
        ),
        erase_block(grammar::at_block(c, l, p, o.depth, e).res->Ok_0) == erase_block(blk),
    decreases blk, 2nat,
{
    match blk {
        BlockModel::Section(sec) => {
            let sk = section_kls(sec);
            let tk = tag_kls(sec.tag);
            assert(sk == tk + (attrs_kls(sec.attributes) + children_kls(sec.children) + tag_kls("end"@)));
            lemma_toks_split(c, p, tk, attrs_kls(sec.attributes) + children_kls(sec.children) + tag_kls("end"@));
            lemma_tok(c, p, tk, 0);
            lemma_tok(c, p, tk, 1);
            lemma_end_variants();
            assert(!grammar::is_end_marker(c, p));
            assert(grammar::flush(b.children, b.buf) == b.children);
            lemma_at_block(c, l, p, sec, o.depth, e);
        },
        BlockModel::Narrative { .. } => {},
    }
}

proof fn lemma_body_children(c: Ctx, l: bool, p: int, o: grammar::Opened, b: grammar::Body, bs: Seq<BlockModel>, e: Seq<crate::error::ErrorModel>)
    requires
        b.buf.len() == 0,
        canonical_children(bs, o.depth),
        toks_at(c, p, children_kls(bs)),
        p + children_kls(bs).len() < c.toks.len(),
        c.limit == grammar::DEFAULT_NESTING_LIMIT,
    ensures
        grammar::section_body(c, l, p, o, b, e) == grammar::section_body(
            c,
            l,
            p + children_kls(bs).len(),
            o,
            grammar::Body {
                attrs: b.attrs,
                children: b.children + parsed_children(c, l, p, bs, o.depth, e),
                buf: Seq::empty(),
            },
            e,
        ),
        erase_blocks(parsed_children(c, l, p, bs, o.depth, e)) == erase_blocks(bs),
    decreases bs, 0nat,
{
    if bs.len() == 0 {
        assert(b.children + parsed_children(c, l, p, bs, o.depth, e) =~= b.children);
        assert(b.buf =~= Seq::<Seq<char>>::empty());
        assert(grammar::Body { attrs: b.attrs, children: b.children, buf: Seq::empty() } == b);
    } else {
        let dl = bs.drop_last();
        let last = bs.last();
        lemma_toks_split(c, p, children_kls(dl), child_kls(last));
        lemma_body_children(c, l, p, o, b, dl, e);
        let pcd = parsed_children(c, l, p, dl, o.depth, e);
        let b1 = grammar::Body { attrs: b.attrs, children: b.children + pcd, buf: Seq::empty() };
        let p1 = p + children_kls(dl).len();
        lemma_body_child(c, l, p1, o, b1, last, e);
        let blk = grammar::at_block(c, l, p1, o.depth, e).res->Ok_0;
        assert((b.children + pcd).push(blk) =~= b.children + parsed_children(c, l, p, bs, o.depth, e));
        lemma_erase_blocks_push(pcd, blk);
        assert(bs =~= dl.push(last));
        lemma_erase_blocks_push(dl, last);
    }
}

// ---------------------------------------------------------------------------
// Narrative blocks and the top level
// ---------------------------------------------------------------------------

proof fn lemma_pieces_kls_first(ps: Seq<Seq<char>>)
    requires
        ps.len() > 0,
    ensures
        pieces_kls(ps) == piece_kls(ps[0]) + pieces_kls(ps.drop_first()),
    decreases ps.len(),
{
    if ps.len() == 1 {
        assert(ps.drop_last() =~= Seq::<Seq<char>>::empty());
        assert(ps.drop_first() =~= Seq::<Seq<char>>::empty());
        assert(pieces_kls(Seq::<Seq<char>>::empty()) =~= Seq::<Kl>::empty());
        assert(pieces_kls(ps) =~= piece_kls(ps[0]) + pieces_kls(ps.drop_first()));
    } else {
        lemma_pieces_kls_first(ps.drop_last());
        assert(ps.drop_last().drop_first() =~= ps.drop_first().drop_last());
        assert(ps.drop_first().last() == ps.last());
        assert(pieces_kls(ps) =~= piece_kls(ps[0]) + pieces_kls(ps.drop_first()));
    }
}

proof fn lemma_piece_kls_shape(p: Seq<char>)
    requires
        piece_ok(p),
    ensures
        piece_kls(p).len() > 0,
        piece_kls(p)[0].0 != TokenKind::Newline && piece_kls(p)[0].0 != TokenKind::Eof && piece_kls(p)[0].0
            != TokenKind::NarrativeSeparator,
        p[0] != '@' ==> piece_kls(p)[0].0 != TokenKind::At,
        piece_kls(p)[0].0 == TokenKind::Identifier ==> is_word(p) && lexer::is_identifier(p),
{
    if is_word(p) {
    } else if p.len() == 1 && is_punct_char(p[0]) {
    } else if p.len() > 0 && p[0] == '"' {
    } else {
    }
}

proof fn lemma_line_parts(c: Ctx, p: int, ps: Seq<Seq<char>>)
    requires
        forall|k: int| 0 <= k < ps.len() ==> piece_ok(#[trigger] ps[k]),
        at_spacing_ok(ps),
        toks_at(c, p, pieces_kls(ps) + seq![(TokenKind::Newline, seq!['\n'])]),
    ensures
        grammar::line_parts(c, p) == (ps, p + pieces_kls(ps).len()),
    decreases ps.len(),
{
    let nl = seq![(TokenKind::Newline, seq!['\n'])];
    if ps.len() == 0 {
        assert(pieces_kls(ps) =~= Seq::<Kl>::empty());
        lemma_tok(c, p, pieces_kls(ps) + nl, 0);
        assert(ps =~= Seq::<Seq<char>>::empty());
    } else {
        let p0 = ps[0];
        let rest = ps.drop_first();
        assert(piece_ok(p0));
        lemma_pieces_kls_first(ps);
        let pk0 = piece_kls(p0);
        assert(pieces_kls(ps) + nl =~= pk0 + (pieces_kls(rest) + nl));
        lemma_toks_split(c, p, pk0, pieces_kls(rest) + nl);
        lemma_piece_kls_shape(p0);
        lemma_tok(c, p, pk0, 0);
        assert forall|k: int| 0 <= k < rest.len() implies piece_ok(#[trigger] rest[k]) by {
            assert(rest[k] == ps[k + 1]);
        }
        assert(at_spacing_ok(rest)) by {
            assert forall|k: int| #![trigger rest[k]] 0 <= k < rest.len() - 1 && rest[k] == seq!['@'] implies !(is_word(rest[k + 1]) && (lexer::is_identifier(
                rest[k + 1],
            ) || rest[k + 1].len() > lexer::MAX_TAG_LEN)) by {
                assert(rest[k] == ps[k + 1] && rest[k + 1] == ps[k + 2]);
            }
        }
        lemma_line_parts(c, p + pk0.len(), rest);
        if is_word(p0) {
        } else if p0.len() == 1 && is_punct_char(p0[0]) {
        } else if p0.len() > 0 && p0[0] == '"' {
            assert(p0 =~= seq!['"'] + quoted_inner(p0) + seq!['"']);
        } else if p0 == seq!['@'] {
            lemma_tok(c, p + 1, pieces_kls(rest) + nl, 0);
            if rest.len() > 0 {
                lemma_pieces_kls_first(rest);
                assert(piece_ok(rest[0]));
                lemma_piece_kls_shape(rest[0]);
                assert(ps[0] == seq!['@'] && ps[1] == rest[0]);
                assert((pieces_kls(rest) + nl)[0] == piece_kls(rest[0])[0]);
            } else {
                assert(pieces_kls(rest) =~= Seq::<Kl>::empty());
            }
        } else {
            lemma_tok(c, p, pk0, 1);
            assert(p0 =~= seq!['@'] + p0.drop_first());
        }
        assert(seq![p0] + rest =~= ps);
    }
}

proof fn lemma_narrative_line(c: Ctx, p: int, acc: Seq<Seq<char>>, ps: Seq<Seq<char>>)
    requires
        canonical_line(ps),
        toks_at(c, p, pieces_kls(ps) + seq![(TokenKind::Newline, seq!['\n'])]),
        p + pieces_kls(ps).len() + 1 < c.toks.len(),
    ensures
        grammar::narrative_lines(c, p, acc) == grammar::narrative_lines(
            c,
            p + pieces_kls(ps).len() + 1,
            acc.push(text::join(ps, seq![' '])),
        ),
{
    let nl = seq![(TokenKind::Newline, seq!['\n'])];
    lemma_line_parts(c, p, ps);
    lemma_pieces_kls_first(ps);
    assert(piece_ok(ps[0]));
    lemma_piece_kls_shape(ps[0]);
    assert((pieces_kls(ps) + nl)[0] == piece_kls(ps[0])[0]);
    lemma_tok(c, p, pieces_kls(ps) + nl, 0);
    lemma_tok(c, p, pieces_kls(ps) + nl, pieces_kls(ps).len() as int);
}

proof fn lemma_narrative_lines(c: Ctx, p: int, acc: Seq<Seq<char>>, ls: Seq<Seq<Seq<char>>>)
    requires
        canonical_lines(ls),
        toks_at(c, p, lines_kls(ls)),
        p + lines_kls(ls).len() < c.toks.len(),
    ensures
        grammar::narrative_lines(c, p, acc) == grammar::narrative_lines(
            c,
            p + lines_kls(ls).len(),
            acc + line_texts(ls),
        ),
    decreases ls.len(),
{
    if ls.len() == 0 {
        assert(acc + line_texts(ls) =~= acc);
    } else {
        let dl = ls.drop_last();
        let last = ls.last();
        let lk = pieces_kls(last) + seq![(TokenKind::Newline, seq!['\n'])];
        assert(lines_kls(ls) =~= lines_kls(dl) + lk);
        lemma_toks_split(c, p, lines_kls(dl), lk);
        assert(canonical_lines(dl)) by {
            assert forall|k: int| 0 <= k < dl.len() implies canonical_line(#[trigger] dl[k]) by {
                assert(dl[k] == ls[k]);
            }
        }
        lemma_narrative_lines(c, p, acc, dl);
        assert(canonical_line(ls[ls.len() - 1]));
        lemma_narrative_line(c, p + lines_kls(dl).len(), acc + line_texts(dl), last);
        assert((acc + line_texts(dl)).push(text::join(last, seq![' '])) =~= acc + line_texts(ls));
    }
}

proof fn lemma_parse_narrative(c: Ctx, p: int, ls: Seq<Seq<Seq<char>>>)
    requires
        canonical_lines(ls),
        toks_at(c, p, narrative_kls(ls)),
    ensures
        grammar::narrative(c, p).1 == p + narrative_kls(ls).len(),
        erase_block(grammar::narrative(c, p).0) == (BlockModel::Narrative {
            text: narrative_text(ls),
            inline_tags: grammar::inline_tags(narrative_text(ls)),
            span: grammar::synthetic_span(),
        }),
{
    let sk = separator_kls();
    let lk = lines_kls(ls);
    assert(narrative_kls(ls) == sk + lk + sk);
    lemma_toks_split(c, p, sk + lk, sk);
    lemma_toks_split(c, p, sk, lk);
    lemma_tok(c, p, sk, 0);
    lemma_tok(c, p, sk, 1);
    let e = p + 2 + lk.len();
    lemma_tok(c, e, sk, 0);
    lemma_tok(c, e, sk, 1);
    lemma_narrative_lines(c, p + 2, Seq::empty(), ls);
    assert(Seq::<Seq<char>>::empty() + line_texts(ls) =~= line_texts(ls));
}

/// The block that a top-level block parses to at `p`.
pub open spec fn top_block_result(c: Ctx, l: bool, p: int, b: BlockModel, e: Seq<crate::error::ErrorModel>) -> BlockModel {
    match b {
        BlockModel::Section(_) => grammar::top_at_block(c, l, p, e).res->Ok_0,
        BlockModel::Narrative { .. } => grammar::narrative(c, p).0,
    }
}

/// The blocks that top-level blocks from `p` parse to, one after another.
pub open spec fn parsed_top(c: Ctx, l: bool, p: int, bs: Seq<BlockModel>, e: Seq<crate::error::ErrorModel>) -> Seq<BlockModel>
    decreases bs.len(),
{
    if bs.len() == 0 {
        Seq::empty()
    } else {
        parsed_top(c, l, p, bs.drop_last(), e).push(
            top_block_result(c, l, p + top_kls(bs.drop_last()).len(), bs.last(), e),
        )
    }
}

proof fn lemma_top_block(c: Ctx, l: bool, p: int, done: Seq<BlockModel>, b: BlockModel, e: Seq<crate::error::ErrorModel>)
    requires
        canonical_top(b),
        toks_at(c, p, top_block_kls(b)),
        p + top_block_kls(b).len() < c.toks.len(),
        c.limit == grammar::DEFAULT_NESTING_LIMIT,
    ensures
        grammar::top_blocks(c, l, p, done, e) == grammar::top_blocks(
            c,
            l,
            p + top_block_kls(b).len(),
            done.push(top_block_result(c, l, p, b, e)),
            e,
        ),
        erase_block(top_block_result(c, l, p, b, e)) == erase_block(b),
{
    reveal(grammar::top_at_block);
    match b {
        BlockModel::Section(sec) => {
            let sk = section_kls(sec);
            lemma_tok(c, p, sk, 0);
            lemma_at_block(c, l, p, sec, 0, e);
        },
        BlockModel::Narrative { text, inline_tags, .. } => {
            let ls = lines_of(text);
            assert(canonical_lines(ls) && narrative_text(ls) == text);
            lemma_tok(c, p, narrative_kls(ls), 0);
            lemma_parse_narrative(c, p, ls);
        },
    }
}

proof fn lemma_top_blocks(c: Ctx, l: bool, p: int, done: Seq<BlockModel>, bs: Seq<BlockModel>, e: Seq<crate::error::ErrorModel>)
    requires
        forall|k: int| 0 <= k < bs.len() ==> canonical_top(#[trigger] bs[k]),
        toks_at(c, p, top_kls(bs)),
        p + top_kls(bs).len() < c.toks.len(),
        c.limit == grammar::DEFAULT_NESTING_LIMIT,
    ensures
        grammar::top_blocks(c, l, p, done, e) == grammar::top_blocks(
            c,
            l,
            p + top_kls(bs).len(),
            done + parsed_top(c, l, p, bs, e),
            e,
        ),
        erase_blocks(parsed_top(c, l, p, bs, e)) == erase_blocks(bs),
    decreases bs.len(),
{
    if bs.len() == 0 {
        assert(done + parsed_top(c, l, p, bs, e) =~= done);
    } else {
        let dl = bs.drop_last();
        let last = bs.last();
        lemma_toks_split(c, p, top_kls(dl), top_block_kls(last));
        assert forall|k: int| 0 <= k < dl.len() implies canonical_top(#[trigger] dl[k]) by {
            assert(dl[k] == bs[k]);
        }
        lemma_top_blocks(c, l, p, done, dl, e);
        let ptd = parsed_top(c, l, p, dl, e);
        let p1 = p + top_kls(dl).len();
        assert(canonical_top(bs[bs.len() - 1]));
        lemma_top_block(c, l, p1, done + ptd, last, e);
        let r = top_block_result(c, l, p1, last, e);
        assert((done + ptd).push(r) =~= done + parsed_top(c, l, p, bs, e));
        lemma_erase_blocks_push(ptd, r);
        assert(bs =~= dl.push(last));
        lemma_erase_blocks_push(dl, last);
    }
}

proof fn lemma_version_word()
    requires
        text::lowercase("2.0"@) == "2.0"@,
    ensures
        text::lowercase(grammar::strip_v(text::trim("v2.0"@))) == "2.0"@,
        text::eq_ignore_ascii_case("ftai"@, "ftai"@),
{
    reveal_strlit("v2.0");
    reveal_strlit("2.0");
    reveal_strlit("ftai");
    let v = "v2.0"@;
    assert(!text::is_whitespace(v[0]));
    assert(text::trim_start(v) == v);
    assert(!text::is_whitespace(v.last()));
    assert(text::trim_end(v) == v);
    assert(v.drop_first() =~= "2.0"@);
    assert(grammar::strip_v("2.0"@) == "2.0"@);
    assert(grammar::strip_v(v) == grammar::strip_v(v.drop_first()));
}

/// The tokens of a canonical document parse back to it, up to spans, in
/// strict and in lenient mode alike, with no error recorded.
proof fn lemma_parse_document(c: Ctx, l: bool, d: DocumentModel)
    requires
        kls(c.toks) == document_kls(d),
        c.limit == grammar::DEFAULT_NESTING_LIMIT,
        canonical_document(d),
        text::lowercase("2.0"@) == "2.0"@,
    ensures
        grammar::document(c, l).res matches Ok(d2) && erase_document(d2) == erase_document(d),
        grammar::document(c, l).errs == Seq::<crate::error::ErrorModel>::empty(),
{
    let hk = header_kls(d.schema);
    let tk = top_kls(d.blocks);
    let ek = seq![(TokenKind::Eof, Seq::<char>::empty())];
    assert(c.toks.subrange(0, c.toks.len() as int) =~= c.toks);
    assert(toks_at(c, 0, hk + tk + ek));
    lemma_toks_split(c, 0, hk + tk, ek);
    lemma_toks_split(c, 0, hk, tk);
    lemma_tok(c, 0, hk, 0);
    lemma_tok(c, 0, hk, 1);
    lemma_tok(c, 0, hk, 2);
    lemma_tok(c, 0, hk, 3);
    lemma_version_word();
    reveal_strlit("ftai");
    reveal_strlit("v2.0");
    let h = hk.len() as int;
    match d.schema {
        Some(w) => {
            lemma_tok(c, 0, hk, 4);
            assert(grammar::collect_values(c, 4) == (Seq::<Seq<char>>::empty(), 4int));
            assert(grammar::collect_values(c, 3).0 =~= seq![w]);
            assert(grammar::collect_values(c, 2).0 =~= seq!["v2.0"@, w]);
            assert(grammar::collect_values(c, 2).1 == 4);
            let parts = seq!["v2.0"@, w];
            assert(grammar::header_fields(parts, 2, true, Some(w)) == Ok::<(bool, Option<Seq<char>>), crate::error::ErrorModel>((true, Some(w))));
            assert(grammar::header_fields(parts, 0, false, None) == grammar::header_fields(parts, 1, true, None));
        },
        None => {
            assert(grammar::collect_values(c, 3) == (Seq::<Seq<char>>::empty(), 3int));
            assert(grammar::collect_values(c, 2).0 =~= seq!["v2.0"@]);
            let parts = seq!["v2.0"@];
            assert(grammar::header_fields(parts, 0, false, None) == grammar::header_fields(parts, 1, true, None));
        },
    }
    lemma_top_blocks(c, l, h, Seq::empty(), d.blocks, Seq::empty());
    let pt = parsed_top(c, l, h, d.blocks, Seq::empty());
    lemma_tok(c, h + tk.len(), ek, 0);
    assert(Seq::<BlockModel>::empty() + pt =~= pt);
}

/// Serializing a canonical document and lexing and parsing the text gives
/// the document back, up to spans, strictly and leniently, with no error.
pub proof fn lemma_round_trip(d: DocumentModel)
    requires
        canonical_document(d),
        text::lowercase("2.0"@) == "2.0"@,
    ensures
        crate::parse_text(serializer::document_text(d)) matches Ok(d2) && erase_document(d2)
            == erase_document(d),
        crate::parse_lenient_text(serializer::document_text(d)).1 == Seq::<crate::error::ErrorModel>::empty(),
        erase_document(crate::parse_lenient_text(serializer::document_text(d)).0) == erase_document(d),
{
    lemma_lex_document(d);
    let t = lexer::lex(serializer::document_text(d))->Ok_0;
    lemma_parse_document(grammar::doc_ctx(t), false, d);
    lemma_parse_document(grammar::doc_ctx(t), true, d);
}

} // verus!
