//! The FTAI grammar as a functional specification over token streams.
//!
//! Each function here reads a token-stream model from a position and gives
//! what is parsed there and where parsing stops; the parser in `parser.rs`
//! is proved to compute exactly these results.

use vstd::prelude::*;
use crate::ast::{
    BlockModel, DocumentModel, FtaiVersion, InlineTagModel, SectionModel, Span, ValueModel,
};
use crate::error::ErrorModel;
use crate::lexer::{TokenKind, TokenModel};
use crate::text;

verus! {

/// Default nesting depth limit for sections.
pub const DEFAULT_NESTING_LIMIT: usize = 64;

/// What a parse reads: the tokens and the nesting limit.
pub struct Ctx {
    pub toks: Seq<TokenModel>,
    pub limit: int,
}

/// A token stream the parser accepts: non-empty and ending in `Eof`.
pub open spec fn well_terminated(toks: Seq<TokenModel>) -> bool {
    toks.len() > 0 && toks.last().kind == TokenKind::Eof
}

pub open spec fn kind_at(c: Ctx, p: int) -> TokenKind {
    c.toks[p].kind
}

pub open spec fn line_at(c: Ctx, p: int) -> usize {
    c.toks[p].span.start_line
}

/// Position after `p`, which does not move past `Eof`.
pub open spec fn adv(c: Ctx, p: int) -> int {
    if kind_at(c, p) == TokenKind::Eof {
        p
    } else {
        p + 1
    }
}

/// Position after a newline at `p`, if there is one.
pub open spec fn skip_one_newline(c: Ctx, p: int) -> int {
    if kind_at(c, p) == TokenKind::Newline {
        p + 1
    } else {
        p
    }
}

/// First position at or after `p` that is not a `Newline`.
pub open spec fn skip_newlines(c: Ctx, p: int) -> int
    decreases c.toks.len() - p,
{
    if 0 <= p < c.toks.len() && kind_at(c, p) == TokenKind::Newline {
        skip_newlines(c, p + 1)
    } else {
        p
    }
}

/// First position at or after `p` that is not an `At`.
pub open spec fn skip_ats(c: Ctx, p: int) -> int
    decreases c.toks.len() - p,
{
    if 0 <= p < c.toks.len() && kind_at(c, p) == TokenKind::At {
        skip_ats(c, p + 1)
    } else {
        p
    }
}

/// Name of a token kind, as `Debug` prints it.
pub open spec fn kind_name(k: TokenKind) -> Seq<char> {
    match k {
        TokenKind::At => "At"@,
        TokenKind::Identifier => "Identifier"@,
        TokenKind::Colon => "Colon"@,
        TokenKind::QuotedString => "QuotedString"@,
        TokenKind::UnquotedString => "UnquotedString"@,
        TokenKind::LeftBracket => "LeftBracket"@,
        TokenKind::RightBracket => "RightBracket"@,
        TokenKind::Comma => "Comma"@,
        TokenKind::NarrativeSeparator => "NarrativeSeparator"@,
        TokenKind::Newline => "Newline"@,
        TokenKind::Eof => "Eof"@,
    }
}

/// How a token is described in an "unexpected token" error: kind and lexeme.
pub open spec fn describe(t: TokenModel) -> Seq<char> {
    kind_name(t.kind) + " ("@ + text::debug_text(t.lexeme) + ")"@
}

pub open spec fn unexpected_at(c: Ctx, p: int, expected: Seq<char>, found: Seq<char>) -> ErrorModel {
    ErrorModel::UnexpectedToken {
        expected,
        found,
        line: c.toks[p].span.start_line,
        column: c.toks[p].span.start_col,
    }
}

/// Expects a token of kind `k` at `p`; on success, the position after it.
pub open spec fn expect(c: Ctx, p: int, k: TokenKind, label: Seq<char>) -> Result<int, ErrorModel> {
    if kind_at(c, p) == k {
        Ok(adv(c, p))
    } else {
        Err(unexpected_at(c, p, label, describe(c.toks[p])))
    }
}

/// Kinds that make up a value on the rest of a line.
pub open spec fn is_value_kind(k: TokenKind) -> bool {
    k == TokenKind::QuotedString || k == TokenKind::Identifier || k == TokenKind::UnquotedString
        || k == TokenKind::Colon || k == TokenKind::Comma
}

/// Lexemes of the value tokens from `p`, and the position after them.
pub open spec fn collect_values(c: Ctx, p: int) -> (Seq<Seq<char>>, int)
    decreases c.toks.len() - p,
{
    if 0 <= p < c.toks.len() - 1 && is_value_kind(kind_at(c, p)) {
        let (rest, q) = collect_values(c, p + 1);
        (seq![c.toks[p].lexeme] + rest, q)
    } else {
        (Seq::empty(), p)
    }
}

/// `@` followed by an identifier's name, or a lone `@`, as narrative text.
pub open spec fn at_text(c: Ctx, p: int) -> (Seq<char>, int) {
    if kind_at(c, p + 1) == TokenKind::Identifier {
        (seq!['@'] + c.toks[p + 1].lexeme, p + 2)
    } else {
        (seq!['@'], p + 1)
    }
}

/// The pieces of a narrative line from `p` up to a newline or the end.
pub open spec fn line_parts(c: Ctx, p: int) -> (Seq<Seq<char>>, int)
    decreases c.toks.len() - p,
{
    if 0 <= p < c.toks.len() - 1 && kind_at(c, p) != TokenKind::Newline && kind_at(c, p)
        != TokenKind::Eof {
        let (piece, q) = if kind_at(c, p) == TokenKind::At {
            at_text(c, p)
        } else if kind_at(c, p) == TokenKind::QuotedString {
            (seq!['"'] + c.toks[p].lexeme + seq!['"'], p + 1)
        } else {
            (c.toks[p].lexeme, p + 1)
        };
        if p < q {
            let (rest, r) = line_parts(c, q);
            (seq![piece] + rest, r)
        } else {
            (Seq::empty(), p)
        }
    } else {
        (Seq::empty(), p)
    }
}

/// A line consumed as narrative text (pieces joined by spaces), and the
/// position after its newline.
pub open spec fn line_text(c: Ctx, p: int) -> (Seq<char>, int) {
    let (parts, q) = line_parts(c, p);
    (text::join(parts, seq![' ']), skip_one_newline(c, q))
}

/// Leading `v`s removed.
pub open spec fn strip_v(s: Seq<char>) -> Seq<char>
    decreases s.len(),
{
    if s.len() > 0 && s[0] == 'v' {
        strip_v(s.drop_first())
    } else {
        s
    }
}

/// Header words from index `i`: whether a `2.0` version was seen, and the schema.
pub open spec fn header_fields(parts: Seq<Seq<char>>, i: int, version_set: bool, schema: Option<Seq<char>>) -> Result<(bool, Option<Seq<char>>), ErrorModel>
    decreases parts.len() - i,
{
    if i < 0 || i >= parts.len() {
        Ok((version_set, schema))
    } else {
        let part = parts[i];
        if text::lowercase(strip_v(text::trim(part))) == "2.0"@ {
            header_fields(parts, i + 1, true, schema)
        } else if part.len() > 0 && part[0] == 'v' && part.contains('.') {
            Err(ErrorModel::UnsupportedVersion(part))
        } else if part.len() > 0 {
            header_fields(parts, i + 1, version_set, Some(part))
        } else {
            header_fields(parts, i + 1, version_set, schema)
        }
    }
}

/// Index of the first `ch` in `s` at or after `j`.
pub open spec fn find_from(s: Seq<char>, ch: char, j: int) -> Option<int>
    decreases s.len() - j,
{
    if j < 0 || j >= s.len() {
        None
    } else if s[j] == ch {
        Some(j)
    } else {
        find_from(s, ch, j + 1)
    }
}

/// The inline tag written inside a `[...]`, if it has a colon and a name.
pub open spec fn inline_tag_of(inside: Seq<char>) -> Option<InlineTagModel> {
    match find_from(inside, ':', 0) {
        Some(k) => {
            let name = text::trim(inside.subrange(0, k));
            let value = text::trim(inside.subrange(k + 1, inside.len() as int));
            if name.len() > 0 {
                Some(InlineTagModel { name, value })
            } else {
                None
            }
        },
        None => None,
    }
}

/// Inline `[name:value]` tags of `s` from index `i`, appended to `acc`.
pub open spec fn inline_tags_from(s: Seq<char>, i: int, acc: Seq<InlineTagModel>) -> Seq<InlineTagModel>
    decreases s.len() - i,
{
    if i < 0 || i >= s.len() {
        acc
    } else if s[i] == '[' && find_from(s, ']', i + 1) is Some {
        let close = find_from(s, ']', i + 1)->0;
        let acc2 = match inline_tag_of(s.subrange(i + 1, close)) {
            Some(t) => acc.push(t),
            None => acc,
        };
        if i < close < s.len() {
            inline_tags_from(s, close + 1, acc2)
        } else {
            acc2
        }
    } else {
        inline_tags_from(s, i + 1, acc)
    }
}

/// Inline `[name:value]` tags of a narrative text, in order.
pub open spec fn inline_tags(s: Seq<char>) -> Seq<InlineTagModel> {
    inline_tags_from(s, 0, Seq::empty())
}

/// Characters with no `[` skip nothing but themselves in the tag scan.
proof fn lemma_tags_skip(s: Seq<char>, i: int, j: int, acc: Seq<InlineTagModel>)
    requires
        0 <= i <= j <= s.len(),
        forall|k: int| i <= k < j ==> s[k] != '[',
    ensures
        inline_tags_from(s, i, acc) == inline_tags_from(s, j, acc),
    decreases j - i,
{
    if i < j {
        lemma_tags_skip(s, i + 1, j, acc);
    }
}

proof fn lemma_find_first(s: Seq<char>, ch: char, j: int, k: int)
    requires
        0 <= j <= k < s.len(),
        s[k] == ch,
        forall|m: int| j <= m < k ==> s[m] != ch,
    ensures
        find_from(s, ch, j) == Some(k),
    decreases k - j,
{
    if j < k {
        lemma_find_first(s, ch, j + 1, k);
    }
}

proof fn lemma_whitespace_not_mark(c: char)
    requires
        text::is_whitespace(c),
    ensures
        c != ':' && c != '[' && c != ']',
{
}

/// An inline tag as written: `[name:value]` with any whitespace around the
/// name and the value, in a text with no other `[`, gives exactly one tag,
/// named by the text before the first `:` and valued by the text after it,
/// both trimmed.
pub proof fn lemma_inline_tag_written(
    pre: Seq<char>,
    sa: Seq<char>,
    n: Seq<char>,
    sb: Seq<char>,
    sc: Seq<char>,
    v: Seq<char>,
    sd: Seq<char>,
    post: Seq<char>,
)
    requires
        forall|k: int| 0 <= k < pre.len() ==> pre[k] != '[',
        forall|k: int| 0 <= k < post.len() ==> post[k] != '[',
        text::all_whitespace(sa),
        text::all_whitespace(sb),
        text::all_whitespace(sc),
        text::all_whitespace(sd),
        n.len() > 0,
        text::trimmed(n),
        text::trimmed(v),
        forall|k: int| 0 <= k < n.len() ==> n[k] != ':' && n[k] != ']',
        forall|k: int| 0 <= k < v.len() ==> v[k] != ']',
    ensures
        inline_tags(pre + seq!['['] + sa + n + sb + seq![':'] + sc + v + sd + seq![']'] + post) == seq![
            InlineTagModel { name: n, value: v },
        ],
{
    let left = sa + n + sb;
    let right = sc + v + sd;
    let inside = left + seq![':'] + right;
    let t = pre + seq!['['] + inside + seq![']'] + post;
    assert(t =~= pre + seq!['['] + sa + n + sb + seq![':'] + sc + v + sd + seq![']'] + post);
    let i = pre.len() as int;
    let close = i + 1 + inside.len();
    assert forall|k: int| 0 <= k < i implies t[k] != '[' by {
        assert(t[k] == pre[k]);
    }
    lemma_tags_skip(t, 0, i, Seq::empty());
    assert(t[i] == '[');
    assert forall|k: int| 0 <= k < left.len() implies left[k] != ':' && left[k] != ']' by {
        if k < sa.len() {
            lemma_whitespace_not_mark(sa[k]);
        } else if k < sa.len() + n.len() {
            assert(left[k] == n[k - sa.len()]);
        } else {
            lemma_whitespace_not_mark(sb[k - sa.len() - n.len()]);
            assert(left[k] == sb[k - sa.len() - n.len()]);
        }
    }
    assert forall|k: int| 0 <= k < right.len() implies right[k] != ']' by {
        if k < sc.len() {
            lemma_whitespace_not_mark(sc[k]);
        } else if k < sc.len() + v.len() {
            assert(right[k] == v[k - sc.len()]);
        } else {
            lemma_whitespace_not_mark(sd[k - sc.len() - v.len()]);
            assert(right[k] == sd[k - sc.len() - v.len()]);
        }
    }
    assert forall|m: int| i + 1 <= m < close implies t[m] != ']' by {
        assert(t[m] == inside[m - i - 1]);
        let x = m - i - 1;
        if x < left.len() {
            assert(inside[x] == left[x]);
        } else if x == left.len() {
        } else {
            assert(inside[x] == right[x - left.len() - 1]);
        }
    }
    assert(t[close] == ']');
    lemma_find_first(t, ']', i + 1, close);
    assert(t.subrange(i + 1, close) =~= inside);
    let m = left.len() as int;
    assert forall|k: int| 0 <= k < m implies inside[k] != ':' by {
        assert(inside[k] == left[k]);
    }
    assert(inside[m] == ':');
    lemma_find_first(inside, ':', 0, m);
    assert(inside.subrange(0, m) =~= left);
    assert(inside.subrange(m + 1, inside.len() as int) =~= right);
    text::lemma_trim_padded(sa, n, sb);
    text::lemma_trim_padded(sc, v, sd);
    assert(inline_tag_of(inside) == Some(InlineTagModel { name: n, value: v }));
    let acc2 = seq![InlineTagModel { name: n, value: v }];
    assert(Seq::<InlineTagModel>::empty().push(InlineTagModel { name: n, value: v }) =~= acc2);
    assert forall|k: int| close + 1 <= k < t.len() implies t[k] != '[' by {
        assert(t[k] == post[k - close - 1]);
    }
    lemma_tags_skip(t, close + 1, t.len() as int, acc2);
}

/// A text with no `[` holds no inline tag.
pub proof fn lemma_no_bracket_no_tags(s: Seq<char>)
    requires
        forall|k: int| 0 <= k < s.len() ==> s[k] != '[',
    ensures
        inline_tags(s) == Seq::<InlineTagModel>::empty(),
{
    lemma_tags_skip(s, 0, s.len() as int, Seq::empty());
}

pub open spec fn synthetic_span() -> Span {
    Span { start_line: 0, start_col: 0, end_line: 0, end_col: 0 }
}

/// A narrative child block made of buffered lines.
pub open spec fn narrative_child(lines: Seq<Seq<char>>) -> BlockModel {
    let text = text::join(lines, seq!['\n']);
    BlockModel::Narrative { text, inline_tags: inline_tags(text), span: synthetic_span() }
}

/// Children with the buffered narrative lines (if any) appended as one block.
pub open spec fn flush(children: Seq<BlockModel>, buf: Seq<Seq<char>>) -> Seq<BlockModel> {
    if buf.len() > 0 {
        children.push(narrative_child(buf))
    } else {
        children
    }
}

/// A `@end` at `p`, with `end` in any mix of cases (tags are case-insensitive).
pub open spec fn is_end_marker(c: Ctx, p: int) -> bool {
    &&& kind_at(c, p) == TokenKind::At
    &&& p + 1 < c.toks.len()
    &&& kind_at(c, p + 1) == TokenKind::Identifier
    &&& text::eq_ignore_ascii_case(c.toks[p + 1].lexeme, "end"@)
}

/// Position after a `@end` marker at `p` and the rest of its line.
pub open spec fn after_end_marker(c: Ctx, p: int) -> int {
    let q1 = if kind_at(c, p) == TokenKind::At {
        p + 1
    } else {
        p
    };
    let q2 = if kind_at(c, q1) == TokenKind::Identifier {
        q1 + 1
    } else {
        q1
    };
    skip_one_newline(c, collect_values(c, q2).1)
}

/// Whether the token at `i` begins a line.
pub open spec fn at_line_start(c: Ctx, i: int) -> bool {
    i == 0 || (0 < i <= c.toks.len() && kind_at(c, i - 1) == TokenKind::Newline)
}

/// Whether a value follows the tag identifier at `j` on its line, which makes
/// the tag a tag-single (`tag_single = tag, [ SP, value ], NL`).
pub open spec fn tag_has_value(c: Ctx, j: int) -> bool {
    0 <= j + 1 < c.toks.len() - 1 && is_value_kind(kind_at(c, j + 1))
}

/// Whether an `@end` closing the section open at depth `d` lies ahead of `i`.
/// Only `@tag` lines count: a tag with a value on its line is a tag-single
/// and opens nothing, and a `@` inside a line is text.
pub open spec fn has_end_ahead(c: Ctx, i: int, d: nat) -> bool
    decreases c.toks.len() - i,
{
    if i < 0 || i >= c.toks.len() || kind_at(c, i) == TokenKind::Eof {
        false
    } else if kind_at(c, i) == TokenKind::At && at_line_start(c, i) {
        let j = skip_ats(c, i + 1);
        if i < j < c.toks.len() && kind_at(c, j) == TokenKind::Identifier {
            if text::eq_ignore_ascii_case(c.toks[j].lexeme, "end"@) {
                if d == 0 {
                    true
                } else {
                    has_end_ahead(c, j + 1, (d - 1) as nat)
                }
            } else if tag_has_value(c, j) {
                has_end_ahead(c, j + 1, d)
            } else {
                has_end_ahead(c, j + 1, d + 1)
            }
        } else {
            has_end_ahead(c, i + 1, d)
        }
    } else {
        has_end_ahead(c, i + 1, d)
    }
}

/// The lookahead and the end-marker test agree: an `@end` (in any case) that
/// begins a line is the `@end` the lookahead finds for the section open at
/// depth 0, and for a deeper one it closes one level and the search goes on
/// after it.
pub proof fn lemma_end_marker_closes(c: Ctx, p: int, d: nat)
    requires
        0 <= p,
        at_line_start(c, p),
        is_end_marker(c, p),
    ensures
        has_end_ahead(c, p, 0),
        has_end_ahead(c, p, d + 1) == has_end_ahead(c, p + 2, d),
{
    assert(skip_ats(c, p + 1) == p + 1);
}

/// Narrative lines of a tag-single body from `p`, appended to `buf`, and the
/// position of the next `@`, `---` or end.
pub open spec fn single_lines(c: Ctx, p: int, buf: Seq<Seq<char>>) -> (Seq<Seq<char>>, int)
    decreases c.toks.len() - p,
{
    let q = skip_newlines(c, p);
    if q < p || q >= c.toks.len() {
        (buf, q)
    } else if kind_at(c, q) == TokenKind::Eof || kind_at(c, q) == TokenKind::At || kind_at(c, q)
        == TokenKind::NarrativeSeparator {
        (buf, q)
    } else {
        let (line, r) = line_text(c, q);
        let buf2 = if line.len() > 0 {
            buf.push(line)
        } else {
            buf
        };
        if q < r < c.toks.len() {
            single_lines(c, r, buf2)
        } else {
            (buf2, r)
        }
    }
}

/// The elements of a list after `[`, starting at `p` with `items` read so far
/// (rank 1), and one list element at `p` (rank 0).
pub open spec fn list_items(c: Ctx, p: int, items: Seq<ValueModel>) -> (Result<ValueModel, ErrorModel>, int)
    decreases c.toks.len() - p, 1nat,
{
    let q = skip_newlines(c, p);
    if q < p || q >= c.toks.len() {
        (Ok(ValueModel::List(items)), q)
    } else if kind_at(c, q) == TokenKind::RightBracket {
        (Ok(ValueModel::List(items)), q + 1)
    } else {
        let (r, q2) = list_element(c, q);
        match r {
            Err(e) => (Err(e), q2),
            Ok(v) => {
                let q3 = skip_newlines(c, q2);
                if q3 < q || q3 >= c.toks.len() {
                    (Ok(ValueModel::List(items.push(v))), q3)
                } else if kind_at(c, q3) == TokenKind::Comma {
                    if q3 + 1 < c.toks.len() {
                        list_items(c, q3 + 1, items.push(v))
                    } else {
                        (Ok(ValueModel::List(items.push(v))), q3 + 1)
                    }
                } else if kind_at(c, q3) == TokenKind::RightBracket {
                    (Ok(ValueModel::List(items.push(v))), q3 + 1)
                } else if kind_at(c, q3) == TokenKind::Eof {
                    (
                        Err(
                            ErrorModel::UnexpectedToken {
                                expected: seq![']'],
                                found: "EOF"@,
                                line: line_at(c, q3),
                                column: 1,
                            },
                        ),
                        q3,
                    )
                } else {
                    (Err(unexpected_at(c, q3, ", or ]"@, kind_name(kind_at(c, q3)))), q3)
                }
            },
        }
    }
}

/// Pieces of an unquoted list element from `p`, up to `,`, `]` or the end.
pub open spec fn element_parts(c: Ctx, p: int) -> (Seq<Seq<char>>, int)
    decreases c.toks.len() - p,
{
    if 0 <= p < c.toks.len() - 1 && kind_at(c, p) != TokenKind::Comma && kind_at(c, p)
        != TokenKind::RightBracket && kind_at(c, p) != TokenKind::Eof {
        if kind_at(c, p) == TokenKind::Newline {
            element_parts(c, p + 1)
        } else {
            let (piece, q) = if kind_at(c, p) == TokenKind::At {
                at_text(c, p)
            } else {
                (c.toks[p].lexeme, p + 1)
            };
            if p < q {
                let (rest, r) = element_parts(c, q);
                (seq![piece] + rest, r)
            } else {
                (Seq::empty(), p)
            }
        }
    } else {
        (Seq::empty(), p)
    }
}

pub open spec fn list_element(c: Ctx, p: int) -> (Result<ValueModel, ErrorModel>, int)
    decreases c.toks.len() - p, 0nat,
{
    if 0 <= p < c.toks.len() && kind_at(c, p) == TokenKind::QuotedString {
        (Ok(ValueModel::Quoted(c.toks[p].lexeme)), adv(c, p))
    } else if 0 <= p < c.toks.len() - 1 && kind_at(c, p) == TokenKind::LeftBracket {
        list_items(c, p + 1, Seq::empty())
    } else {
        let (parts, q) = element_parts(c, p);
        (Ok(ValueModel::Unquoted(text::trim(text::join(parts, seq![' '])))), q)
    }
}

/// A bracketed list at `p`.
pub open spec fn list_value(c: Ctx, p: int) -> (Result<ValueModel, ErrorModel>, int) {
    match expect(c, p, TokenKind::LeftBracket, seq!['[']) {
        Err(e) => (Err(e), p),
        Ok(q) => if q > p {
            list_items(c, q, Seq::empty())
        } else {
            (Ok(ValueModel::List(Seq::empty())), q)
        },
    }
}

/// An attribute value at `p`.
pub open spec fn value(c: Ctx, p: int) -> (Result<ValueModel, ErrorModel>, int) {
    if kind_at(c, p) == TokenKind::QuotedString {
        (Ok(ValueModel::Quoted(c.toks[p].lexeme)), adv(c, p))
    } else if kind_at(c, p) == TokenKind::LeftBracket {
        list_value(c, p)
    } else if kind_at(c, p) == TokenKind::Newline || kind_at(c, p) == TokenKind::Eof {
        (Ok(ValueModel::Unquoted(Seq::empty())), p)
    } else {
        let (parts, q) = collect_values(c, p);
        (Ok(ValueModel::Unquoted(text::join(parts, seq![' ']))), q)
    }
}

/// A `key: value` attribute at `p`, and the position after its line.
pub open spec fn attribute(c: Ctx, p: int) -> (Result<(Seq<char>, ValueModel), ErrorModel>, int) {
    match expect(c, p, TokenKind::Identifier, "attribute key"@) {
        Err(e) => (Err(e), p),
        Ok(q) => match expect(c, q, TokenKind::Colon, seq![':']) {
            Err(e) => (Err(e), q),
            Ok(q2) => {
                let (r, q3) = value(c, q2);
                match r {
                    Err(e) => (Err(e), q3),
                    Ok(v) => (Ok((c.toks[p].lexeme, v)), skip_one_newline(c, q3)),
                }
            },
        },
    }
}

/// The open section that a section body belongs to.
pub struct Opened {
    pub tag: Seq<char>,
    pub line: usize,
    pub col: usize,
    pub depth: int,
}

/// What a section body has read so far.
pub struct Body {
    pub attrs: Seq<(Seq<char>, ValueModel)>,
    pub children: Seq<BlockModel>,
    pub buf: Seq<Seq<char>>,
}

pub open spec fn finish_section(c: Ctx, o: Opened, b: Body, q: int) -> SectionModel {
    SectionModel {
        tag: o.tag,
        attributes: b.attrs,
        children: flush(b.children, b.buf),
        span: Span { start_line: o.line, start_col: o.col, end_line: line_at(c, q), end_col: 1 },
    }
}

/// A parse outcome: the result, where parsing stopped, and the errors recorded.
pub struct Outcome<A> {
    pub res: Result<A, ErrorModel>,
    pub pos: int,
    pub errs: Seq<ErrorModel>,
}

/// The body of an open section from `p` (rank 1), up to and including its `@end`.
pub open spec fn section_body(c: Ctx, lenient: bool, p: int, o: Opened, b: Body, errs: Seq<ErrorModel>) -> Outcome<SectionModel>
    decreases c.toks.len() - p, 1nat,
{
    let q = skip_newlines(c, p);
    if q < p || q >= c.toks.len() {
        Outcome { res: Ok(finish_section(c, o, b, p)), pos: p, errs }
    } else {
        let k = kind_at(c, q);
        if k == TokenKind::Eof {
            let err = ErrorModel::UnterminatedBlock { tag: o.tag, line: o.line };
            if lenient {
                Outcome { res: Ok(finish_section(c, o, b, q)), pos: q, errs: errs.push(err) }
            } else {
                Outcome { res: Err(err), pos: q, errs }
            }
        } else if k == TokenKind::At {
            if is_end_marker(c, q) {
                let r = after_end_marker(c, q);
                Outcome { res: Ok(finish_section(c, o, b, r)), pos: r, errs }
            } else {
                let children = flush(b.children, b.buf);
                let child = at_block(c, lenient, q, o.depth, errs);
                match child.res {
                    Err(e) => Outcome { res: Err(e), pos: child.pos, errs: child.errs },
                    Ok(blk) => {
                        let b2 = Body { attrs: b.attrs, children: children.push(blk), buf: Seq::empty() };
                        if q < child.pos < c.toks.len() {
                            section_body(c, lenient, child.pos, o, b2, child.errs)
                        } else {
                            Outcome { res: Ok(finish_section(c, o, b2, child.pos)), pos: child.pos, errs: child.errs }
                        }
                    },
                }
            }
        } else {
            let (b2, r, failed) = if k == TokenKind::Identifier && q + 1 < c.toks.len() && kind_at(
                c,
                q + 1,
            ) == TokenKind::Colon {
                let (a, r) = attribute(c, q);
                match a {
                    Err(e) => (b, r, Some(e)),
                    Ok(kv) => (Body { attrs: b.attrs.push(kv), ..b }, r, None),
                }
            } else if k == TokenKind::Identifier {
                let (line, r) = line_text(c, q);
                (Body { buf: b.buf.push(line), ..b }, r, None)
            } else if k == TokenKind::NarrativeSeparator {
                (Body { buf: b.buf.push("---"@), ..b }, skip_one_newline(c, q + 1), None)
            } else {
                let (line, r) = line_text(c, q);
                (
                    if line.len() > 0 {
                        Body { buf: b.buf.push(line), ..b }
                    } else {
                        b
                    },
                    r,
                    None,
                )
            };
            match failed {
                Some(e) => Outcome { res: Err(e), pos: r, errs },
                None => if q < r < c.toks.len() {
                    section_body(c, lenient, r, o, b2, errs)
                } else {
                    Outcome { res: Ok(finish_section(c, o, b2, r)), pos: r, errs }
                },
            }
        }
    }
}

/// A section body whose next block is a child `@tag` that fails to parse fails with it.
pub proof fn lemma_section_body_child_err(c: Ctx, lenient: bool, p: int, o: Opened, b: Body, errs: Seq<ErrorModel>, q: int)
    requires
        q == skip_newlines(c, p),
        p <= q < c.toks.len(),
        kind_at(c, q) == TokenKind::At,
        !is_end_marker(c, q),
        at_block(c, lenient, q, o.depth, errs).res is Err,
    ensures
        section_body(c, lenient, p, o, b, errs).res == Err::<SectionModel, ErrorModel>(at_block(c, lenient, q, o.depth, errs).res->Err_0),
        section_body(c, lenient, p, o, b, errs).errs == at_block(c, lenient, q, o.depth, errs).errs,
{
}

/// A `@tag` block at `p` (rank 0): a section closed by `@end`, or a
/// tag-single whose body is the same-line value and the narrative lines after it.
pub open spec fn at_block(c: Ctx, lenient: bool, p: int, depth: int, errs: Seq<ErrorModel>) -> Outcome<BlockModel>
    decreases c.toks.len() - p, 0nat,
{
    if p < 0 || p >= c.toks.len() - 1 || kind_at(c, p) != TokenKind::At {
        Outcome { res: Err(ErrorModel::Io(Seq::empty())), pos: p, errs }
    } else {
        let q1 = skip_ats(c, p + 1);
        match expect(c, q1, TokenKind::Identifier, "tag identifier"@) {
            Err(e) => Outcome { res: Err(e), pos: q1, errs },
            Ok(_) => {
                let tag = text::ascii_lowercase(c.toks[q1].lexeme);
                let opening_line = line_at(c, p);
                let at_col = c.toks[p].span.start_col;
                let (parts, q2) = collect_values(c, q1 + 1);
                let q3 = skip_one_newline(c, q2);
                let buf0 = if parts.len() > 0 {
                    seq![text::join(parts, seq![' '])]
                } else {
                    Seq::empty()
                };
                let has_end = parts.len() == 0 && has_end_ahead(c, q3, 0);
                let next_is_attribute = kind_at(c, q3) == TokenKind::Identifier && q3 + 1
                    < c.toks.len() && kind_at(c, q3 + 1) == TokenKind::Colon;
                if !has_end && !next_is_attribute {
                    let (buf, q4) = single_lines(c, q3, buf0);
                    let sec = SectionModel {
                        tag,
                        attributes: Seq::empty(),
                        children: flush(Seq::empty(), buf),
                        span: Span {
                            start_line: opening_line,
                            start_col: at_col,
                            end_line: line_at(c, q4),
                            end_col: 1,
                        },
                    };
                    Outcome { res: Ok(BlockModel::Section(sec)), pos: q4, errs }
                } else if depth + 1 > c.limit {
                    Outcome {
                        res: Err(ErrorModel::NestingTooDeep { limit: c.limit as usize, line: opening_line }),
                        pos: q3,
                        errs,
                    }
                } else if p < q3 < c.toks.len() {
                    let o = Opened { tag, line: opening_line, col: at_col, depth: depth + 1 };
                    let body = section_body(
                        c,
                        lenient,
                        q3,
                        o,
                        Body { attrs: Seq::empty(), children: Seq::empty(), buf: buf0 },
                        errs,
                    );
                    Outcome {
                        res: match body.res {
                            Ok(s) => Ok(BlockModel::Section(s)),
                            Err(e) => Err(e),
                        },
                        pos: body.pos,
                        errs: body.errs,
                    }
                } else {
                    Outcome { res: Err(ErrorModel::Io(Seq::empty())), pos: q3, errs }
                }
            },
        }
    }
}

/// A top-level `@tag` block at `p`.
#[verifier::opaque]
pub open spec fn top_at_block(c: Ctx, lenient: bool, p: int, errs: Seq<ErrorModel>) -> Outcome<BlockModel> {
    at_block(c, lenient, p, 0, errs)
}

/// Narrative lines from `p` up to a closing `---` (consumed), a `@` or the end.
pub open spec fn narrative_lines(c: Ctx, p: int, lines: Seq<Seq<char>>) -> (Seq<Seq<char>>, int)
    decreases c.toks.len() - p,
{
    if p < 0 || p >= c.toks.len() || kind_at(c, p) == TokenKind::Eof || kind_at(c, p)
        == TokenKind::At {
        (lines, p)
    } else if kind_at(c, p) == TokenKind::NarrativeSeparator {
        (lines, skip_one_newline(c, p + 1))
    } else {
        let (line, q) = line_text(c, p);
        if p < q < c.toks.len() {
            narrative_lines(c, q, lines.push(line))
        } else {
            (lines.push(line), q)
        }
    }
}

/// A `---` narrative block at `p`.
pub open spec fn narrative(c: Ctx, p: int) -> (BlockModel, int) {
    let start_line = line_at(c, p);
    let q = skip_one_newline(c, adv(c, p));
    let (lines, r) = narrative_lines(c, q, Seq::empty());
    let text = text::join(lines, seq!['\n']);
    (
        BlockModel::Narrative {
            text,
            inline_tags: inline_tags(text),
            span: Span { start_line, start_col: 1, end_line: line_at(c, r), end_col: 1 },
        },
        r,
    )
}

/// One stray line at `p` kept as a narrative block (lenient mode).
pub open spec fn narrative_line_run(c: Ctx, p: int) -> (BlockModel, int) {
    let start_line = line_at(c, p);
    let (text, q) = line_text(c, p);
    (
        BlockModel::Narrative {
            text,
            inline_tags: inline_tags(text),
            span: Span { start_line, start_col: 1, end_line: line_at(c, q), end_col: 1 },
        },
        q,
    )
}

/// Top-level blocks from `p`, appended to `blocks`.
pub open spec fn top_blocks(c: Ctx, lenient: bool, p: int, blocks: Seq<BlockModel>, errs: Seq<ErrorModel>) -> Outcome<Seq<BlockModel>>
    decreases c.toks.len() - p,
{
    let q = skip_newlines(c, p);
    if q < p || q >= c.toks.len() || kind_at(c, q) == TokenKind::Eof {
        Outcome { res: Ok(blocks), pos: q, errs }
    } else {
        let k = kind_at(c, q);
        let (r, b, errs2) = if k == TokenKind::At {
            let o = top_at_block(c, lenient, q, errs);
            (o.pos, o.res, o.errs)
        } else if k == TokenKind::NarrativeSeparator {
            let (b, r) = narrative(c, q);
            (r, Ok(b), errs)
        } else if lenient {
            let (b, r) = narrative_line_run(c, q);
            (r, Ok(b), errs)
        } else {
            (
                q,
                Err(unexpected_at(c, q, "block start ('@' or '---')"@, kind_name(k))),
                errs,
            )
        };
        match b {
            Err(e) => Outcome { res: Err(e), pos: r, errs: errs2 },
            Ok(blk) => if q < r < c.toks.len() {
                top_blocks(c, lenient, r, blocks.push(blk), errs2)
            } else {
                Outcome { res: Ok(blocks.push(blk)), pos: r, errs: errs2 }
            },
        }
    }
}

/// A whole document: the `@ftai` header, then top-level blocks.
pub open spec fn document(c: Ctx, lenient: bool) -> Outcome<DocumentModel> {
    let q0 = skip_newlines(c, 0);
    match expect(c, q0, TokenKind::At, seq!['@']) {
        Err(e) => Outcome { res: Err(e), pos: q0, errs: Seq::empty() },
        Ok(q1) => match expect(c, q1, TokenKind::Identifier, "identifier 'ftai'"@) {
            Err(e) => Outcome { res: Err(e), pos: q1, errs: Seq::empty() },
            Ok(_) => if !text::eq_ignore_ascii_case(c.toks[q1].lexeme, "ftai"@) {
                Outcome {
                    res: Err(unexpected_at(c, q1, "identifier 'ftai'"@, c.toks[q1].lexeme)),
                    pos: q1,
                    errs: Seq::empty(),
                }
            } else {
                let (parts, q2) = collect_values(c, q1 + 1);
                match header_fields(parts, 0, false, None) {
                    Err(e) => Outcome { res: Err(e), pos: q2, errs: Seq::empty() },
                    Ok((_, schema)) => if parts.len() == 0 {
                        Outcome {
                            res: Err(
                                ErrorModel::UnexpectedToken {
                                    expected: "version after @ftai"@,
                                    found: "newline"@,
                                    line: line_at(c, q2),
                                    column: 1,
                                },
                            ),
                            pos: q2,
                            errs: Seq::empty(),
                        }
                    } else {
                        let body = top_blocks(c, lenient, skip_one_newline(c, q2), Seq::empty(), Seq::empty());
                        Outcome {
                            res: match body.res {
                                Ok(blocks) => Ok(DocumentModel { version: FtaiVersion::V2_0, schema, blocks }),
                                Err(e) => Err(e),
                            },
                            pos: body.pos,
                            errs: body.errs,
                        }
                    },
                }
            },
        },
    }
}

pub open spec fn doc_ctx(toks: Seq<TokenModel>) -> Ctx {
    Ctx { toks, limit: DEFAULT_NESTING_LIMIT as int }
}

/// The document a token stream parses to, or the first error.
pub open spec fn parse_spec(toks: Seq<TokenModel>) -> Result<DocumentModel, ErrorModel> {
    document(doc_ctx(toks), false).res
}

pub open spec fn empty_document() -> DocumentModel {
    DocumentModel { version: FtaiVersion::V2_0, schema: None, blocks: Seq::empty() }
}

/// The lenient parse of a token stream: the document and the recoverable
/// errors recorded along the way; when parsing cannot go on, an empty
/// document and those errors followed by the one that stopped it.
pub open spec fn parse_lenient_spec(toks: Seq<TokenModel>) -> (DocumentModel, Seq<ErrorModel>) {
    let o = document(doc_ctx(toks), true);
    match o.res {
        Ok(d) => (d, o.errs),
        Err(e) => (empty_document(), o.errs.push(e)),
    }
}


/// A strict section body records no errors, and when it succeeds the lenient
/// body takes the same path to the same outcome.
pub proof fn lemma_strict_section_body(c: Ctx, p: int, o: Opened, b: Body, errs: Seq<ErrorModel>)
    ensures
        section_body(c, false, p, o, b, errs).errs == errs,
        section_body(c, false, p, o, b, errs).res is Ok ==> section_body(c, true, p, o, b, errs)
            == section_body(c, false, p, o, b, errs),
    decreases c.toks.len() - p, 1nat,
{
    let q = skip_newlines(c, p);
    if q < p || q >= c.toks.len() {
    } else {
        let k = kind_at(c, q);
        if k == TokenKind::Eof {
        } else if k == TokenKind::At {
            if is_end_marker(c, q) {
            } else {
                let children = flush(b.children, b.buf);
                lemma_strict_at_block(c, q, o.depth, errs);
                let child = at_block(c, false, q, o.depth, errs);
                match child.res {
                    Err(e) => {},
                    Ok(blk) => {
                        let b2 = Body { attrs: b.attrs, children: children.push(blk), buf: Seq::empty() };
                        if q < child.pos < c.toks.len() {
                            lemma_strict_section_body(c, child.pos, o, b2, child.errs);
                        }
                    },
                }
            }
        } else {
            let (b2, r, failed) = if k == TokenKind::Identifier && q + 1 < c.toks.len() && kind_at(
                c,
                q + 1,
            ) == TokenKind::Colon {
                let (a, r) = attribute(c, q);
                match a {
                    Err(e) => (b, r, Some(e)),
                    Ok(kv) => (Body { attrs: b.attrs.push(kv), ..b }, r, None),
                }
            } else if k == TokenKind::Identifier {
                let (line, r) = line_text(c, q);
                (Body { buf: b.buf.push(line), ..b }, r, None)
            } else if k == TokenKind::NarrativeSeparator {
                (Body { buf: b.buf.push("---"@), ..b }, skip_one_newline(c, q + 1), None)
            } else {
                let (line, r) = line_text(c, q);
                (
                    if line.len() > 0 {
                        Body { buf: b.buf.push(line), ..b }
                    } else {
                        b
                    },
                    r,
                    None,
                )
            };
            match failed {
                Some(e) => {},
                None => if q < r < c.toks.len() {
                    lemma_strict_section_body(c, r, o, b2, errs);
                },
            }
        }
    }
}

/// A strict `@tag` block records no errors, and when it succeeds the lenient
/// block is the same.
pub proof fn lemma_strict_at_block(c: Ctx, p: int, depth: int, errs: Seq<ErrorModel>)
    ensures
        at_block(c, false, p, depth, errs).errs == errs,
        at_block(c, false, p, depth, errs).res is Ok ==> at_block(c, true, p, depth, errs) == at_block(
            c,
            false,
            p,
            depth,
            errs,
        ),
    decreases c.toks.len() - p, 0nat,
{
    if p < 0 || p >= c.toks.len() - 1 || kind_at(c, p) != TokenKind::At {
    } else {
        let q1 = skip_ats(c, p + 1);
        match expect(c, q1, TokenKind::Identifier, "tag identifier"@) {
            Err(e) => {},
            Ok(_) => {
                let tag = text::ascii_lowercase(c.toks[q1].lexeme);
                let opening_line = line_at(c, p);
                let at_col = c.toks[p].span.start_col;
                let (parts, q2) = collect_values(c, q1 + 1);
                let q3 = skip_one_newline(c, q2);
                let buf0 = if parts.len() > 0 {
                    seq![text::join(parts, seq![' '])]
                } else {
                    Seq::empty()
                };
                let has_end = parts.len() == 0 && has_end_ahead(c, q3, 0);
                let next_is_attribute = kind_at(c, q3) == TokenKind::Identifier && q3 + 1
                    < c.toks.len() && kind_at(c, q3 + 1) == TokenKind::Colon;
                if !has_end && !next_is_attribute {
                } else if depth + 1 > c.limit {
                } else if p < q3 < c.toks.len() {
                    let o = Opened { tag, line: opening_line, col: at_col, depth: depth + 1 };
                    lemma_strict_section_body(
                        c,
                        q3,
                        o,
                        Body { attrs: Seq::empty(), children: Seq::empty(), buf: buf0 },
                        errs,
                    );
                }
            },
        }
    }
}

/// Strict top-level parsing records no errors, and when it succeeds lenient
/// parsing gives the same blocks.
pub proof fn lemma_strict_top_blocks(c: Ctx, p: int, blocks: Seq<BlockModel>, errs: Seq<ErrorModel>)
    ensures
        top_blocks(c, false, p, blocks, errs).errs == errs,
        top_blocks(c, false, p, blocks, errs).res is Ok ==> top_blocks(c, true, p, blocks, errs)
            == top_blocks(c, false, p, blocks, errs),
    decreases c.toks.len() - p,
{
    reveal(top_at_block);
    let q = skip_newlines(c, p);
    if q < p || q >= c.toks.len() || kind_at(c, q) == TokenKind::Eof {
    } else {
        let k = kind_at(c, q);
        if k == TokenKind::At {
            lemma_strict_at_block(c, q, 0, errs);
            let o = top_at_block(c, false, q, errs);
            match o.res {
                Err(e) => {},
                Ok(blk) => if q < o.pos < c.toks.len() {
                    lemma_strict_top_blocks(c, o.pos, blocks.push(blk), o.errs);
                },
            }
        } else if k == TokenKind::NarrativeSeparator {
            let (b, r) = narrative(c, q);
            if q < r < c.toks.len() {
                lemma_strict_top_blocks(c, r, blocks.push(b), errs);
            }
        } else {
        }
    }
}

/// Strict parsing records no errors, and a document that parses strictly
/// parses leniently to the same document.
pub proof fn lemma_strict_document(c: Ctx)
    ensures
        document(c, false).errs == Seq::<ErrorModel>::empty(),
        document(c, false).res is Ok ==> document(c, true) == document(c, false),
{
    let q0 = skip_newlines(c, 0);
    match expect(c, q0, TokenKind::At, seq!['@']) {
        Err(e) => {},
        Ok(q1) => match expect(c, q1, TokenKind::Identifier, "identifier 'ftai'"@) {
            Err(e) => {},
            Ok(_) => if !text::eq_ignore_ascii_case(c.toks[q1].lexeme, "ftai"@) {
            } else {
                let (parts, q2) = collect_values(c, q1 + 1);
                lemma_strict_top_blocks(c, skip_one_newline(c, q2), Seq::empty(), Seq::empty());
            },
        },
    }
}

/// How deeply sections nest in a block: none in a narrative, and a section
/// adds one level to its deepest child.
pub open spec fn block_depth(b: BlockModel) -> nat
    decreases b, 1nat,
{
    match b {
        BlockModel::Section(s) => section_depth(s),
        BlockModel::Narrative { .. } => 0,
    }
}

pub open spec fn section_depth(s: SectionModel) -> nat
    decreases s, 0nat,
{
    1 + blocks_depth(s.children)
}

/// The deepest nesting among blocks.
pub open spec fn blocks_depth(bs: Seq<BlockModel>) -> nat
    decreases bs, 0nat,
{
    if bs.len() == 0 {
        0
    } else {
        let a = blocks_depth(bs.drop_last());
        let b = block_depth(bs.last());
        if a >= b {
            a
        } else {
            b
        }
    }
}

proof fn lemma_blocks_depth_push(bs: Seq<BlockModel>, b: BlockModel, n: int)
    requires
        blocks_depth(bs) <= n,
        block_depth(b) <= n,
    ensures
        blocks_depth(bs.push(b)) <= n,
{
    assert(bs.push(b).drop_last() =~= bs);
}

proof fn lemma_flush_depth(children: Seq<BlockModel>, buf: Seq<Seq<char>>, n: int)
    requires
        blocks_depth(children) <= n,
        n >= 0,
    ensures
        blocks_depth(flush(children, buf)) <= n,
{
    if buf.len() > 0 {
        lemma_blocks_depth_push(children, narrative_child(buf), n);
    }
}

/// The sections of a body opened at depth `o.depth` nest within the limit,
/// with one level more for a section without `@end`.
proof fn lemma_depth_section_body(c: Ctx, l: bool, p: int, o: Opened, b: Body, errs: Seq<ErrorModel>)
    requires
        1 <= o.depth <= c.limit,
        blocks_depth(b.children) <= c.limit + 1 - o.depth,
    ensures
        section_body(c, l, p, o, b, errs).res matches Ok(sec) ==> section_depth(sec) <= c.limit + 2 - o.depth,
    decreases c.toks.len() - p, 1nat,
{
    let n = c.limit + 1 - o.depth;
    lemma_flush_depth(b.children, b.buf, n);
    let q = skip_newlines(c, p);
    if q < p || q >= c.toks.len() {
    } else {
        let k = kind_at(c, q);
        if k == TokenKind::Eof {
        } else if k == TokenKind::At {
            if is_end_marker(c, q) {
            } else {
                let children = flush(b.children, b.buf);
                lemma_depth_at_block(c, l, q, o.depth, errs);
                let child = at_block(c, l, q, o.depth, errs);
                match child.res {
                    Err(e) => {},
                    Ok(blk) => {
                        lemma_blocks_depth_push(children, blk, n);
                        let b2 = Body { attrs: b.attrs, children: children.push(blk), buf: Seq::empty() };
                        if q < child.pos < c.toks.len() {
                            lemma_depth_section_body(c, l, child.pos, o, b2, child.errs);
                        } else {
                            lemma_flush_depth(b2.children, b2.buf, n);
                        }
                    },
                }
            }
        } else {
            let (b2, r, failed) = if k == TokenKind::Identifier && q + 1 < c.toks.len() && kind_at(
                c,
                q + 1,
            ) == TokenKind::Colon {
                let (a, r) = attribute(c, q);
                match a {
                    Err(e) => (b, r, Some(e)),
                    Ok(kv) => (Body { attrs: b.attrs.push(kv), ..b }, r, None),
                }
            } else if k == TokenKind::Identifier {
                let (line, r) = line_text(c, q);
                (Body { buf: b.buf.push(line), ..b }, r, None)
            } else if k == TokenKind::NarrativeSeparator {
                (Body { buf: b.buf.push("---"@), ..b }, skip_one_newline(c, q + 1), None)
            } else {
                let (line, r) = line_text(c, q);
                (
                    if line.len() > 0 {
                        Body { buf: b.buf.push(line), ..b }
                    } else {
                        b
                    },
                    r,
                    None,
                )
            };
            match failed {
                Some(e) => {},
                None => if q < r < c.toks.len() {
                    lemma_depth_section_body(c, l, r, o, b2, errs);
                } else {
                    lemma_flush_depth(b2.children, b2.buf, n);
                },
            }
        }
    }
}

/// A block opened at `depth` (within the limit) nests at most to one level
/// past the limit.
proof fn lemma_depth_at_block(c: Ctx, l: bool, p: int, depth: int, errs: Seq<ErrorModel>)
    requires
        0 <= depth <= c.limit,
    ensures
        at_block(c, l, p, depth, errs).res matches Ok(blk) ==> block_depth(blk) <= c.limit + 1 - depth,
    decreases c.toks.len() - p, 0nat,
{
    if p < 0 || p >= c.toks.len() - 1 || kind_at(c, p) != TokenKind::At {
    } else {
        let q1 = skip_ats(c, p + 1);
        match expect(c, q1, TokenKind::Identifier, "tag identifier"@) {
            Err(e) => {},
            Ok(_) => {
                let tag = text::ascii_lowercase(c.toks[q1].lexeme);
                let opening_line = line_at(c, p);
                let at_col = c.toks[p].span.start_col;
                let (parts, q2) = collect_values(c, q1 + 1);
                let q3 = skip_one_newline(c, q2);
                let buf0 = if parts.len() > 0 {
                    seq![text::join(parts, seq![' '])]
                } else {
                    Seq::empty()
                };
                let has_end = parts.len() == 0 && has_end_ahead(c, q3, 0);
                let next_is_attribute = kind_at(c, q3) == TokenKind::Identifier && q3 + 1
                    < c.toks.len() && kind_at(c, q3 + 1) == TokenKind::Colon;
                if !has_end && !next_is_attribute {
                    let (buf, q4) = single_lines(c, q3, buf0);
                    lemma_flush_depth(Seq::empty(), buf, 0);
                } else if depth + 1 > c.limit {
                } else if p < q3 < c.toks.len() {
                    let o = Opened { tag, line: opening_line, col: at_col, depth: depth + 1 };
                    lemma_depth_section_body(
                        c,
                        l,
                        q3,
                        o,
                        Body { attrs: Seq::empty(), children: Seq::empty(), buf: buf0 },
                        errs,
                    );
                }
            },
        }
    }
}

proof fn lemma_depth_top_blocks(c: Ctx, l: bool, p: int, blocks: Seq<BlockModel>, errs: Seq<ErrorModel>)
    requires
        0 <= c.limit,
        blocks_depth(blocks) <= c.limit + 1,
    ensures
        top_blocks(c, l, p, blocks, errs).res matches Ok(bs) ==> blocks_depth(bs) <= c.limit + 1,
    decreases c.toks.len() - p,
{
    reveal(top_at_block);
    let n = c.limit + 1;
    let q = skip_newlines(c, p);
    if q < p || q >= c.toks.len() || kind_at(c, q) == TokenKind::Eof {
    } else {
        let k = kind_at(c, q);
        let (r, b, errs2) = if k == TokenKind::At {
            let o = top_at_block(c, l, q, errs);
            (o.pos, o.res, o.errs)
        } else if k == TokenKind::NarrativeSeparator {
            let (b, r) = narrative(c, q);
            (r, Ok(b), errs)
        } else if l {
            let (b, r) = narrative_line_run(c, q);
            (r, Ok(b), errs)
        } else {
            (
                q,
                Err(unexpected_at(c, q, "block start ('@' or '---')"@, kind_name(k))),
                errs,
            )
        };
        lemma_depth_at_block(c, l, q, 0, errs);
        match b {
            Err(e) => {},
            Ok(blk) => {
                lemma_blocks_depth_push(blocks, blk, n);
                if q < r < c.toks.len() {
                    lemma_depth_top_blocks(c, l, r, blocks.push(blk), errs2);
                }
            },
        }
    }
}

/// A parsed document's sections nest at most one level past the limit.
pub proof fn lemma_depth_document(c: Ctx, l: bool)
    requires
        0 <= c.limit,
    ensures
        document(c, l).res matches Ok(d) ==> blocks_depth(d.blocks) <= c.limit + 1,
{
    let q0 = skip_newlines(c, 0);
    match expect(c, q0, TokenKind::At, seq!['@']) {
        Err(e) => {},
        Ok(q1) => match expect(c, q1, TokenKind::Identifier, "identifier 'ftai'"@) {
            Err(e) => {},
            Ok(_) => if !text::eq_ignore_ascii_case(c.toks[q1].lexeme, "ftai"@) {
            } else {
                let (parts, q2) = collect_values(c, q1 + 1);
                lemma_depth_top_blocks(c, l, skip_one_newline(c, q2), Seq::empty(), Seq::empty());
            },
        },
    }
}

/// Every section in a block, at any depth, has a non-empty tag with no
/// ASCII uppercase letter.
pub open spec fn block_tags_lower(b: BlockModel) -> bool
    decreases b, 1nat,
{
    match b {
        BlockModel::Section(s) => section_tags_lower(s),
        BlockModel::Narrative { .. } => true,
    }
}

pub open spec fn section_tags_lower(s: SectionModel) -> bool
    decreases s, 0nat,
{
    &&& s.tag.len() > 0
    &&& text::ascii_lowercase(s.tag) == s.tag
    &&& blocks_tags_lower(s.children)
}

pub open spec fn blocks_tags_lower(bs: Seq<BlockModel>) -> bool
    decreases bs, 0nat,
{
    bs.len() == 0 || (blocks_tags_lower(bs.drop_last()) && block_tags_lower(bs.last()))
}

/// Every identifier token of the stream has a non-empty name.
pub open spec fn idents_nonempty(c: Ctx) -> bool {
    forall|k: int| 0 <= k < c.toks.len() && (#[trigger] c.toks[k]).kind == TokenKind::Identifier ==> c.toks[k].lexeme.len() > 0
}

proof fn lemma_blocks_lower_push(bs: Seq<BlockModel>, b: BlockModel)
    requires
        blocks_tags_lower(bs),
        block_tags_lower(b),
    ensures
        blocks_tags_lower(bs.push(b)),
{
    assert(bs.push(b).drop_last() =~= bs);
}

proof fn lemma_flush_lower(children: Seq<BlockModel>, buf: Seq<Seq<char>>)
    requires
        blocks_tags_lower(children),
    ensures
        blocks_tags_lower(flush(children, buf)),
{
    if buf.len() > 0 {
        lemma_blocks_lower_push(children, narrative_child(buf));
    }
}

/// A section body opened under a lowercase tag holds only lowercase tags.
proof fn lemma_lower_section_body(c: Ctx, l: bool, p: int, o: Opened, b: Body, errs: Seq<ErrorModel>)
    requires
        well_terminated(c.toks),
        idents_nonempty(c),
        o.tag.len() > 0,
        text::ascii_lowercase(o.tag) == o.tag,
        blocks_tags_lower(b.children),
    ensures
        section_body(c, l, p, o, b, errs).res matches Ok(sec) ==> section_tags_lower(sec),
    decreases c.toks.len() - p, 1nat,
{
    lemma_flush_lower(b.children, b.buf);
    let q = skip_newlines(c, p);
    if q < p || q >= c.toks.len() {
    } else {
        let k = kind_at(c, q);
        if k == TokenKind::Eof {
        } else if k == TokenKind::At {
            if is_end_marker(c, q) {
            } else {
                let children = flush(b.children, b.buf);
                lemma_lower_at_block(c, l, q, o.depth, errs);
                let child = at_block(c, l, q, o.depth, errs);
                match child.res {
                    Err(e) => {},
                    Ok(blk) => {
                        lemma_blocks_lower_push(children, blk);
                        let b2 = Body { attrs: b.attrs, children: children.push(blk), buf: Seq::empty() };
                        if q < child.pos < c.toks.len() {
                            lemma_lower_section_body(c, l, child.pos, o, b2, child.errs);
                        } else {
                            lemma_flush_lower(b2.children, b2.buf);
                        }
                    },
                }
            }
        } else {
            let (b2, r, failed) = if k == TokenKind::Identifier && q + 1 < c.toks.len() && kind_at(
                c,
                q + 1,
            ) == TokenKind::Colon {
                let (a, r) = attribute(c, q);
                match a {
                    Err(e) => (b, r, Some(e)),
                    Ok(kv) => (Body { attrs: b.attrs.push(kv), ..b }, r, None),
                }
            } else if k == TokenKind::Identifier {
                let (line, r) = line_text(c, q);
                (Body { buf: b.buf.push(line), ..b }, r, None)
            } else if k == TokenKind::NarrativeSeparator {
                (Body { buf: b.buf.push("---"@), ..b }, skip_one_newline(c, q + 1), None)
            } else {
                let (line, r) = line_text(c, q);
                (
                    if line.len() > 0 {
                        Body { buf: b.buf.push(line), ..b }
                    } else {
                        b
                    },
                    r,
                    None,
                )
            };
            match failed {
                Some(e) => {},
                None => if q < r < c.toks.len() {
                    lemma_lower_section_body(c, l, r, o, b2, errs);
                } else {
                    lemma_flush_lower(b2.children, b2.buf);
                },
            }
        }
    }
}

/// Skipping `@`s from inside a stream that ends in `Eof` stays inside it.
proof fn lemma_skip_ats_inside(c: Ctx, p: int)
    requires
        well_terminated(c.toks),
        0 <= p < c.toks.len(),
    ensures
        p <= skip_ats(c, p) < c.toks.len(),
    decreases c.toks.len() - p,
{
    if kind_at(c, p) == TokenKind::At {
        lemma_skip_ats_inside(c, p + 1);
    }
}

/// A `@tag` block is tagged with the ASCII lowercase form of its identifier.
proof fn lemma_lower_at_block(c: Ctx, l: bool, p: int, depth: int, errs: Seq<ErrorModel>)
    requires
        well_terminated(c.toks),
        idents_nonempty(c),
    ensures
        at_block(c, l, p, depth, errs).res matches Ok(blk) ==> block_tags_lower(blk),
    decreases c.toks.len() - p, 0nat,
{
    if p < 0 || p >= c.toks.len() - 1 || kind_at(c, p) != TokenKind::At {
    } else {
        let q1 = skip_ats(c, p + 1);
        match expect(c, q1, TokenKind::Identifier, "tag identifier"@) {
            Err(e) => {},
            Ok(_) => {
                let tag = text::ascii_lowercase(c.toks[q1].lexeme);
                lemma_skip_ats_inside(c, p + 1);
                assert(c.toks[q1].kind == TokenKind::Identifier);
                assert(c.toks[q1].lexeme.len() > 0);
                assert(tag.len() == c.toks[q1].lexeme.len());
                text::lemma_ascii_lowercase_idempotent(c.toks[q1].lexeme);
                let opening_line = line_at(c, p);
                let at_col = c.toks[p].span.start_col;
                let (parts, q2) = collect_values(c, q1 + 1);
                let q3 = skip_one_newline(c, q2);
                let buf0 = if parts.len() > 0 {
                    seq![text::join(parts, seq![' '])]
                } else {
                    Seq::empty()
                };
                let has_end = parts.len() == 0 && has_end_ahead(c, q3, 0);
                let next_is_attribute = kind_at(c, q3) == TokenKind::Identifier && q3 + 1
                    < c.toks.len() && kind_at(c, q3 + 1) == TokenKind::Colon;
                if !has_end && !next_is_attribute {
                    let (buf, q4) = single_lines(c, q3, buf0);
                    lemma_flush_lower(Seq::empty(), buf);
                } else if depth + 1 > c.limit {
                } else if p < q3 < c.toks.len() {
                    let o = Opened { tag, line: opening_line, col: at_col, depth: depth + 1 };
                    lemma_lower_section_body(
                        c,
                        l,
                        q3,
                        o,
                        Body { attrs: Seq::empty(), children: Seq::empty(), buf: buf0 },
                        errs,
                    );
                }
            },
        }
    }
}

proof fn lemma_lower_top_blocks(c: Ctx, l: bool, p: int, blocks: Seq<BlockModel>, errs: Seq<ErrorModel>)
    requires
        well_terminated(c.toks),
        idents_nonempty(c),
        blocks_tags_lower(blocks),
    ensures
        top_blocks(c, l, p, blocks, errs).res matches Ok(bs) ==> blocks_tags_lower(bs),
    decreases c.toks.len() - p,
{
    reveal(top_at_block);
    let q = skip_newlines(c, p);
    if q < p || q >= c.toks.len() || kind_at(c, q) == TokenKind::Eof {
    } else {
        let k = kind_at(c, q);
        let (r, b, errs2) = if k == TokenKind::At {
            let o = top_at_block(c, l, q, errs);
            (o.pos, o.res, o.errs)
        } else if k == TokenKind::NarrativeSeparator {
            let (b, r) = narrative(c, q);
            (r, Ok(b), errs)
        } else if l {
            let (b, r) = narrative_line_run(c, q);
            (r, Ok(b), errs)
        } else {
            (
                q,
                Err(unexpected_at(c, q, "block start ('@' or '---')"@, kind_name(k))),
                errs,
            )
        };
        lemma_lower_at_block(c, l, q, 0, errs);
        match b {
            Err(e) => {},
            Ok(blk) => {
                lemma_blocks_lower_push(blocks, blk);
                if q < r < c.toks.len() {
                    lemma_lower_top_blocks(c, l, r, blocks.push(blk), errs2);
                }
            },
        }
    }
}

/// A parsed document's sections all carry non-empty lowercase tags.
pub proof fn lemma_lower_document(c: Ctx, l: bool)
    requires
        well_terminated(c.toks),
        idents_nonempty(c),
    ensures
        document(c, l).res matches Ok(d) ==> blocks_tags_lower(d.blocks),
{
    let q0 = skip_newlines(c, 0);
    match expect(c, q0, TokenKind::At, seq!['@']) {
        Err(e) => {},
        Ok(q1) => match expect(c, q1, TokenKind::Identifier, "identifier 'ftai'"@) {
            Err(e) => {},
            Ok(_) => if !text::eq_ignore_ascii_case(c.toks[q1].lexeme, "ftai"@) {
            } else {
                let (parts, q2) = collect_values(c, q1 + 1);
                lemma_lower_top_blocks(c, l, skip_one_newline(c, q2), Seq::empty(), Seq::empty());
            },
        },
    }
}

/// Every narrative in a block, at any depth, carries exactly the inline
/// `[name:value]` tags found in its text.
pub open spec fn block_narratives_tagged(b: BlockModel) -> bool
    decreases b, 1nat,
{
    match b {
        BlockModel::Section(s) => section_narratives_tagged(s),
        BlockModel::Narrative { text, inline_tags: tags, .. } => tags == inline_tags(text),
    }
}

pub open spec fn section_narratives_tagged(s: SectionModel) -> bool
    decreases s, 0nat,
{
    blocks_narratives_tagged(s.children)
}

pub open spec fn blocks_narratives_tagged(bs: Seq<BlockModel>) -> bool
    decreases bs, 0nat,
{
    bs.len() == 0 || (blocks_narratives_tagged(bs.drop_last()) && block_narratives_tagged(bs.last()))
}

proof fn lemma_blocks_tagged_push(bs: Seq<BlockModel>, b: BlockModel)
    requires
        blocks_narratives_tagged(bs),
        block_narratives_tagged(b),
    ensures
        blocks_narratives_tagged(bs.push(b)),
{
    assert(bs.push(b).drop_last() =~= bs);
}

proof fn lemma_flush_tagged(children: Seq<BlockModel>, buf: Seq<Seq<char>>)
    requires
        blocks_narratives_tagged(children),
    ensures
        blocks_narratives_tagged(flush(children, buf)),
{
    if buf.len() > 0 {
        lemma_blocks_tagged_push(children, narrative_child(buf));
    }
}

/// A section body keeps the inline tags of every narrative in it.
proof fn lemma_tagged_section_body(c: Ctx, l: bool, p: int, o: Opened, b: Body, errs: Seq<ErrorModel>)
    requires
        blocks_narratives_tagged(b.children),
    ensures
        section_body(c, l, p, o, b, errs).res matches Ok(sec) ==> section_narratives_tagged(sec),
    decreases c.toks.len() - p, 1nat,
{
    lemma_flush_tagged(b.children, b.buf);
    let q = skip_newlines(c, p);
    if q < p || q >= c.toks.len() {
    } else {
        let k = kind_at(c, q);
        if k == TokenKind::Eof {
        } else if k == TokenKind::At {
            if is_end_marker(c, q) {
            } else {
                let children = flush(b.children, b.buf);
                lemma_tagged_at_block(c, l, q, o.depth, errs);
                let child = at_block(c, l, q, o.depth, errs);
                match child.res {
                    Err(e) => {},
                    Ok(blk) => {
                        lemma_blocks_tagged_push(children, blk);
                        let b2 = Body { attrs: b.attrs, children: children.push(blk), buf: Seq::empty() };
                        if q < child.pos < c.toks.len() {
                            lemma_tagged_section_body(c, l, child.pos, o, b2, child.errs);
                        } else {
                            lemma_flush_tagged(b2.children, b2.buf);
                        }
                    },
                }
            }
        } else {
            let (b2, r, failed) = if k == TokenKind::Identifier && q + 1 < c.toks.len() && kind_at(
                c,
                q + 1,
            ) == TokenKind::Colon {
                let (a, r) = attribute(c, q);
                match a {
                    Err(e) => (b, r, Some(e)),
                    Ok(kv) => (Body { attrs: b.attrs.push(kv), ..b }, r, None),
                }
            } else if k == TokenKind::Identifier {
                let (line, r) = line_text(c, q);
                (Body { buf: b.buf.push(line), ..b }, r, None)
            } else if k == TokenKind::NarrativeSeparator {
                (Body { buf: b.buf.push("---"@), ..b }, skip_one_newline(c, q + 1), None)
            } else {
                let (line, r) = line_text(c, q);
                (
                    if line.len() > 0 {
                        Body { buf: b.buf.push(line), ..b }
                    } else {
                        b
                    },
                    r,
                    None,
                )
            };
            match failed {
                Some(e) => {},
                None => if q < r < c.toks.len() {
                    lemma_tagged_section_body(c, l, r, o, b2, errs);
                } else {
                    lemma_flush_tagged(b2.children, b2.buf);
                },
            }
        }
    }
}

/// The narratives of a `@tag` block carry the inline tags of their text.
proof fn lemma_tagged_at_block(c: Ctx, l: bool, p: int, depth: int, errs: Seq<ErrorModel>)
    requires
    ensures
        at_block(c, l, p, depth, errs).res matches Ok(blk) ==> block_narratives_tagged(blk),
    decreases c.toks.len() - p, 0nat,
{
    if p < 0 || p >= c.toks.len() - 1 || kind_at(c, p) != TokenKind::At {
    } else {
        let q1 = skip_ats(c, p + 1);
        match expect(c, q1, TokenKind::Identifier, "tag identifier"@) {
            Err(e) => {},
            Ok(_) => {
                let tag = text::ascii_lowercase(c.toks[q1].lexeme);
                let opening_line = line_at(c, p);
                let at_col = c.toks[p].span.start_col;
                let (parts, q2) = collect_values(c, q1 + 1);
                let q3 = skip_one_newline(c, q2);
                let buf0 = if parts.len() > 0 {
                    seq![text::join(parts, seq![' '])]
                } else {
                    Seq::empty()
                };
                let has_end = parts.len() == 0 && has_end_ahead(c, q3, 0);
                let next_is_attribute = kind_at(c, q3) == TokenKind::Identifier && q3 + 1
                    < c.toks.len() && kind_at(c, q3 + 1) == TokenKind::Colon;
                if !has_end && !next_is_attribute {
                    let (buf, q4) = single_lines(c, q3, buf0);
                    lemma_flush_tagged(Seq::empty(), buf);
                } else if depth + 1 > c.limit {
                } else if p < q3 < c.toks.len() {
                    let o = Opened { tag, line: opening_line, col: at_col, depth: depth + 1 };
                    lemma_tagged_section_body(
                        c,
                        l,
                        q3,
                        o,
                        Body { attrs: Seq::empty(), children: Seq::empty(), buf: buf0 },
                        errs,
                    );
                }
            },
        }
    }
}

proof fn lemma_tagged_top_blocks(c: Ctx, l: bool, p: int, blocks: Seq<BlockModel>, errs: Seq<ErrorModel>)
    requires
        blocks_narratives_tagged(blocks),
    ensures
        top_blocks(c, l, p, blocks, errs).res matches Ok(bs) ==> blocks_narratives_tagged(bs),
    decreases c.toks.len() - p,
{
    reveal(top_at_block);
    let q = skip_newlines(c, p);
    if q < p || q >= c.toks.len() || kind_at(c, q) == TokenKind::Eof {
    } else {
        let k = kind_at(c, q);
        let (r, b, errs2) = if k == TokenKind::At {
            let o = top_at_block(c, l, q, errs);
            (o.pos, o.res, o.errs)
        } else if k == TokenKind::NarrativeSeparator {
            let (b, r) = narrative(c, q);
            (r, Ok(b), errs)
        } else if l {
            let (b, r) = narrative_line_run(c, q);
            (r, Ok(b), errs)
        } else {
            (
                q,
                Err(unexpected_at(c, q, "block start ('@' or '---')"@, kind_name(k))),
                errs,
            )
        };
        lemma_tagged_at_block(c, l, q, 0, errs);
        match b {
            Err(e) => {},
            Ok(blk) => {
                lemma_blocks_tagged_push(blocks, blk);
                if q < r < c.toks.len() {
                    lemma_tagged_top_blocks(c, l, r, blocks.push(blk), errs2);
                }
            },
        }
    }
}

/// Every narrative of a parsed document carries the inline tags of its text.
pub proof fn lemma_tagged_document(c: Ctx, l: bool)
    requires
    ensures
        document(c, l).res matches Ok(d) ==> blocks_narratives_tagged(d.blocks),
{
    let q0 = skip_newlines(c, 0);
    match expect(c, q0, TokenKind::At, seq!['@']) {
        Err(e) => {},
        Ok(q1) => match expect(c, q1, TokenKind::Identifier, "identifier 'ftai'"@) {
            Err(e) => {},
            Ok(_) => if !text::eq_ignore_ascii_case(c.toks[q1].lexeme, "ftai"@) {
            } else {
                let (parts, q2) = collect_values(c, q1 + 1);
                lemma_tagged_top_blocks(c, l, skip_one_newline(c, q2), Seq::empty(), Seq::empty());
            },
        },
    }
}

proof fn lemma_prefix_trans<A>(a: Seq<A>, b: Seq<A>, x: Seq<A>)
    requires
        a.is_prefix_of(b),
        b.is_prefix_of(x),
    ensures
        a.is_prefix_of(x),
{
    assert(a =~= x.subrange(0, a.len() as int));
}

proof fn lemma_prefix_push<A>(a: Seq<A>, v: A)
    ensures
        a.is_prefix_of(a.push(v)),
{
    assert(a =~= a.push(v).subrange(0, a.len() as int));
}

proof fn lemma_prefix_refl<A>(a: Seq<A>)
    ensures
        a.is_prefix_of(a),
{
    assert(a =~= a.subrange(0, a.len() as int));
}

/// A section's children start with those already read: flushing only appends.
proof fn lemma_flush_prefix(children: Seq<BlockModel>, buf: Seq<Seq<char>>)
    ensures
        children.is_prefix_of(flush(children, buf)),
{
    if buf.len() > 0 {
        lemma_prefix_push(children, narrative_child(buf));
    } else {
        lemma_prefix_refl(children);
    }
}

/// A section body keeps what it has read: the section it gives, wherever it
/// stops (at `@end`, or leniently at the end of input), starts with the
/// attributes and children read before, in order.
pub proof fn lemma_body_keeps_prefix(c: Ctx, l: bool, p: int, o: Opened, b: Body, errs: Seq<ErrorModel>)
    ensures
        section_body(c, l, p, o, b, errs).res matches Ok(sec) ==> b.attrs.is_prefix_of(sec.attributes)
            && b.children.is_prefix_of(sec.children),
    decreases c.toks.len() - p,
{
    lemma_prefix_refl(b.attrs);
    lemma_flush_prefix(b.children, b.buf);
    let q = skip_newlines(c, p);
    if q < p || q >= c.toks.len() {
    } else {
        let k = kind_at(c, q);
        if k == TokenKind::Eof {
        } else if k == TokenKind::At {
            if is_end_marker(c, q) {
            } else {
                let children = flush(b.children, b.buf);
                let child = at_block(c, l, q, o.depth, errs);
                match child.res {
                    Err(e) => {},
                    Ok(blk) => {
                        let b2 = Body { attrs: b.attrs, children: children.push(blk), buf: Seq::empty() };
                        lemma_prefix_push(children, blk);
                        lemma_prefix_trans(b.children, children, b2.children);
                        if q < child.pos < c.toks.len() {
                            lemma_body_keeps_prefix(c, l, child.pos, o, b2, child.errs);
                            let r = section_body(c, l, child.pos, o, b2, child.errs);
                            if r.res is Ok {
                                lemma_prefix_trans(b.attrs, b2.attrs, r.res->Ok_0.attributes);
                                lemma_prefix_trans(b.children, b2.children, r.res->Ok_0.children);
                            }
                        } else {
                            lemma_flush_prefix(b2.children, b2.buf);
                            lemma_prefix_trans(b.children, b2.children, flush(b2.children, b2.buf));
                        }
                    },
                }
            }
        } else {
            let (b2, r, failed) = if k == TokenKind::Identifier && q + 1 < c.toks.len() && kind_at(
                c,
                q + 1,
            ) == TokenKind::Colon {
                let (a, r) = attribute(c, q);
                match a {
                    Err(e) => (b, r, Some(e)),
                    Ok(kv) => (Body { attrs: b.attrs.push(kv), ..b }, r, None),
                }
            } else if k == TokenKind::Identifier {
                let (line, r) = line_text(c, q);
                (Body { buf: b.buf.push(line), ..b }, r, None)
            } else if k == TokenKind::NarrativeSeparator {
                (Body { buf: b.buf.push("---"@), ..b }, skip_one_newline(c, q + 1), None)
            } else {
                let (line, r) = line_text(c, q);
                (
                    if line.len() > 0 {
                        Body { buf: b.buf.push(line), ..b }
                    } else {
                        b
                    },
                    r,
                    None,
                )
            };
            match failed {
                Some(e) => {},
                None => {
                    if b2.attrs.len() > b.attrs.len() {
                        lemma_prefix_push(b.attrs, b2.attrs.last());
                        assert(b2.attrs == b.attrs.push(b2.attrs.last()));
                    } else {
                        lemma_prefix_refl(b.attrs);
                    }
                    lemma_flush_prefix(b2.children, b2.buf);
                    if q < r < c.toks.len() {
                        lemma_body_keeps_prefix(c, l, r, o, b2, errs);
                        let rr = section_body(c, l, r, o, b2, errs);
                        if rr.res is Ok {
                            lemma_prefix_trans(b.attrs, b2.attrs, rr.res->Ok_0.attributes);
                        }
                    }
                },
            }
        }
    }
}

proof fn lemma_join_push_prefix(parts: Seq<Seq<char>>, x: Seq<char>, sep: Seq<char>)
    requires
        parts.len() > 0,
    ensures
        text::join(parts, sep).is_prefix_of(text::join(parts.push(x), sep)),
{
    assert(parts.push(x).drop_last() =~= parts);
    let j = text::join(parts, sep);
    assert(text::join(parts.push(x), sep) == j + sep + x);
    assert(j =~= (j + sep + x).subrange(0, j.len() as int));
}

/// The narrative lines a section body has read are not lost: the section it
/// gives has, right after the children read before them, a narrative whose
/// text starts with those lines joined by newlines.
pub proof fn lemma_body_keeps_lines(c: Ctx, l: bool, p: int, o: Opened, b: Body, errs: Seq<ErrorModel>)
    ensures
        section_body(c, l, p, o, b, errs).res matches Ok(sec) ==> (b.buf.len() > 0 ==> {
            &&& b.children.len() < sec.children.len()
            &&& sec.children[b.children.len() as int] matches BlockModel::Narrative { text, .. }
                && text::join(b.buf, seq!['\n']).is_prefix_of(text)
        }),
    decreases c.toks.len() - p,
{
    if b.buf.len() > 0 {
        lemma_prefix_refl(text::join(b.buf, seq!['\n']));
        let nc = narrative_child(b.buf);
        assert(flush(b.children, b.buf) == b.children.push(nc));
        let q = skip_newlines(c, p);
        if q < p || q >= c.toks.len() {
        } else {
            let k = kind_at(c, q);
            if k == TokenKind::Eof {
            } else if k == TokenKind::At {
                if is_end_marker(c, q) {
                } else {
                    let children = flush(b.children, b.buf);
                    let child = at_block(c, l, q, o.depth, errs);
                    match child.res {
                        Err(e) => {},
                        Ok(blk) => {
                            let b2 = Body { attrs: b.attrs, children: children.push(blk), buf: Seq::empty() };
                            if q < child.pos < c.toks.len() {
                                lemma_body_keeps_prefix(c, l, child.pos, o, b2, child.errs);
                                let r = section_body(c, l, child.pos, o, b2, child.errs);
                                if r.res is Ok {
                                    assert(r.res->Ok_0.children[b.children.len() as int] == b2.children[b.children.len() as int]);
                                }
                            } else {
                                assert(flush(b2.children, b2.buf) == b2.children);
                            }
                        },
                    }
                }
            } else {
                let (b2, r, failed) = if k == TokenKind::Identifier && q + 1 < c.toks.len() && kind_at(
                    c,
                    q + 1,
                ) == TokenKind::Colon {
                    let (a, r) = attribute(c, q);
                    match a {
                        Err(e) => (b, r, Some(e)),
                        Ok(kv) => (Body { attrs: b.attrs.push(kv), ..b }, r, None),
                    }
                } else if k == TokenKind::Identifier {
                    let (line, r) = line_text(c, q);
                    (Body { buf: b.buf.push(line), ..b }, r, None)
                } else if k == TokenKind::NarrativeSeparator {
                    (Body { buf: b.buf.push("---"@), ..b }, skip_one_newline(c, q + 1), None)
                } else {
                    let (line, r) = line_text(c, q);
                    (
                        if line.len() > 0 {
                            Body { buf: b.buf.push(line), ..b }
                        } else {
                            b
                        },
                        r,
                        None,
                    )
                };
                match failed {
                    Some(e) => {},
                    None => {
                        if b2.buf.len() > b.buf.len() {
                            lemma_join_push_prefix(b.buf, b2.buf.last(), seq!['\n']);
                            assert(b2.buf == b.buf.push(b2.buf.last()));
                        } else {
                            assert(b2.buf == b.buf);
                        }
                        lemma_prefix_refl(text::join(b2.buf, seq!['\n']));
                        assert(flush(b2.children, b2.buf) == b2.children.push(narrative_child(b2.buf)));
                        if q < r < c.toks.len() {
                            lemma_body_keeps_lines(c, l, r, o, b2, errs);
                            let rr = section_body(c, l, r, o, b2, errs);
                            if rr.res is Ok {
                                let t = rr.res->Ok_0.children[b.children.len() as int]->Narrative_text;
                                lemma_prefix_trans(text::join(b.buf, seq!['\n']), text::join(b2.buf, seq!['\n']), t);
                            }
                        } else {
                            lemma_prefix_trans(
                                text::join(b.buf, seq!['\n']),
                                text::join(b2.buf, seq!['\n']),
                                text::join(b2.buf, seq!['\n']),
                            );
                        }
                    },
                }
            }
        }
    }
}

/// An attribute line read in a section body ends up in the section, after
/// the attributes read before it.
pub proof fn lemma_body_keeps_attribute(c: Ctx, l: bool, p: int, o: Opened, b: Body, errs: Seq<ErrorModel>)
    ensures
        ({
            let q = skip_newlines(c, p);
            p <= q < c.toks.len() && kind_at(c, q) == TokenKind::Identifier && q + 1 < c.toks.len() && kind_at(c, q + 1)
                == TokenKind::Colon && attribute(c, q).0 is Ok && section_body(c, l, p, o, b, errs).res is Ok
                ==> b.attrs.push(attribute(c, q).0->Ok_0).is_prefix_of(section_body(c, l, p, o, b, errs).res->Ok_0.attributes)
        }),
{
    let q = skip_newlines(c, p);
    if p <= q < c.toks.len() && kind_at(c, q) == TokenKind::Identifier && q + 1 < c.toks.len() && kind_at(c, q + 1)
        == TokenKind::Colon && attribute(c, q).0 is Ok {
        let kv = attribute(c, q).0->Ok_0;
        let r = attribute(c, q).1;
        let b2 = Body { attrs: b.attrs.push(kv), ..b };
        if q < r < c.toks.len() {
            lemma_body_keeps_prefix(c, l, r, o, b2, errs);
        } else {
            lemma_prefix_refl(b2.attrs);
        }
    }
}

/// A child block read in a section body ends up among the section's
/// children, after those read before it (and the narrative lines before it).
pub proof fn lemma_body_keeps_child(c: Ctx, l: bool, p: int, o: Opened, b: Body, errs: Seq<ErrorModel>)
    ensures
        ({
            let q = skip_newlines(c, p);
            p <= q < c.toks.len() && kind_at(c, q) == TokenKind::At && !is_end_marker(c, q) && at_block(c, l, q, o.depth, errs).res is Ok
                && section_body(c, l, p, o, b, errs).res is Ok
                ==> flush(b.children, b.buf).push(at_block(c, l, q, o.depth, errs).res->Ok_0).is_prefix_of(
                section_body(c, l, p, o, b, errs).res->Ok_0.children,
            )
        }),
{
    let q = skip_newlines(c, p);
    if p <= q < c.toks.len() && kind_at(c, q) == TokenKind::At && !is_end_marker(c, q) && at_block(c, l, q, o.depth, errs).res is Ok {
        let child = at_block(c, l, q, o.depth, errs);
        let b2 = Body { attrs: b.attrs, children: flush(b.children, b.buf).push(child.res->Ok_0), buf: Seq::empty() };
        if q < child.pos < c.toks.len() {
            lemma_body_keeps_prefix(c, l, child.pos, o, b2, child.errs);
        } else {
            lemma_flush_prefix(b2.children, b2.buf);
        }
    }
}

/// Every recorded error is an unclosed section.
pub open spec fn all_unclosed(errs: Seq<ErrorModel>) -> bool {
    forall|k: int| 0 <= k < errs.len() ==> (#[trigger] errs[k]) is UnterminatedBlock
}

proof fn lemma_unclosed_section_body(c: Ctx, l: bool, p: int, o: Opened, b: Body, errs: Seq<ErrorModel>)
    requires
        all_unclosed(errs),
    ensures
        all_unclosed(section_body(c, l, p, o, b, errs).errs),
    decreases c.toks.len() - p, 1nat,
{
    let q = skip_newlines(c, p);
    if q < p || q >= c.toks.len() {
    } else {
        let k = kind_at(c, q);
        if k == TokenKind::Eof {
            let err = ErrorModel::UnterminatedBlock { tag: o.tag, line: o.line };
            assert forall|m: int| 0 <= m < errs.push(err).len() implies (#[trigger] errs.push(err)[m]) is UnterminatedBlock by {
                if m < errs.len() {
                    assert(errs.push(err)[m] == errs[m]);
                }
            }
        } else if k == TokenKind::At {
            if is_end_marker(c, q) {
            } else {
                let children = flush(b.children, b.buf);
                lemma_unclosed_at_block(c, l, q, o.depth, errs);
                let child = at_block(c, l, q, o.depth, errs);
                match child.res {
                    Err(e) => {},
                    Ok(blk) => {
                        let b2 = Body { attrs: b.attrs, children: children.push(blk), buf: Seq::empty() };
                        if q < child.pos < c.toks.len() {
                            lemma_unclosed_section_body(c, l, child.pos, o, b2, child.errs);
                        }
                    },
                }
            }
        } else {
            let (b2, r, failed) = if k == TokenKind::Identifier && q + 1 < c.toks.len() && kind_at(
                c,
                q + 1,
            ) == TokenKind::Colon {
                let (a, r) = attribute(c, q);
                match a {
                    Err(e) => (b, r, Some(e)),
                    Ok(kv) => (Body { attrs: b.attrs.push(kv), ..b }, r, None),
                }
            } else if k == TokenKind::Identifier {
                let (line, r) = line_text(c, q);
                (Body { buf: b.buf.push(line), ..b }, r, None)
            } else if k == TokenKind::NarrativeSeparator {
                (Body { buf: b.buf.push("---"@), ..b }, skip_one_newline(c, q + 1), None)
            } else {
                let (line, r) = line_text(c, q);
                (
                    if line.len() > 0 {
                        Body { buf: b.buf.push(line), ..b }
                    } else {
                        b
                    },
                    r,
                    None,
                )
            };
            match failed {
                Some(e) => {},
                None => if q < r < c.toks.len() {
                    lemma_unclosed_section_body(c, l, r, o, b2, errs);
                },
            }
        }
    }
}

proof fn lemma_unclosed_at_block(c: Ctx, l: bool, p: int, depth: int, errs: Seq<ErrorModel>)
    requires
        all_unclosed(errs),
    ensures
        all_unclosed(at_block(c, l, p, depth, errs).errs),
    decreases c.toks.len() - p, 0nat,
{
    if p < 0 || p >= c.toks.len() - 1 || kind_at(c, p) != TokenKind::At {
    } else {
        let q1 = skip_ats(c, p + 1);
        match expect(c, q1, TokenKind::Identifier, "tag identifier"@) {
            Err(e) => {},
            Ok(_) => {
                let tag = text::ascii_lowercase(c.toks[q1].lexeme);
                let opening_line = line_at(c, p);
                let at_col = c.toks[p].span.start_col;
                let (parts, q2) = collect_values(c, q1 + 1);
                let q3 = skip_one_newline(c, q2);
                let buf0 = if parts.len() > 0 {
                    seq![text::join(parts, seq![' '])]
                } else {
                    Seq::empty()
                };
                let has_end = parts.len() == 0 && has_end_ahead(c, q3, 0);
                let next_is_attribute = kind_at(c, q3) == TokenKind::Identifier && q3 + 1
                    < c.toks.len() && kind_at(c, q3 + 1) == TokenKind::Colon;
                if !has_end && !next_is_attribute {
                } else if depth + 1 > c.limit {
                } else if p < q3 < c.toks.len() {
                    let o = Opened { tag, line: opening_line, col: at_col, depth: depth + 1 };
                    lemma_unclosed_section_body(
                        c,
                        l,
                        q3,
                        o,
                        Body { attrs: Seq::empty(), children: Seq::empty(), buf: buf0 },
                        errs,
                    );
                }
            },
        }
    }
}

proof fn lemma_unclosed_top_blocks(c: Ctx, l: bool, p: int, blocks: Seq<BlockModel>, errs: Seq<ErrorModel>)
    requires
        all_unclosed(errs),
    ensures
        all_unclosed(top_blocks(c, l, p, blocks, errs).errs),
    decreases c.toks.len() - p,
{
    reveal(top_at_block);
    let q = skip_newlines(c, p);
    if q < p || q >= c.toks.len() || kind_at(c, q) == TokenKind::Eof {
    } else {
        let k = kind_at(c, q);
        let (r, b, errs2) = if k == TokenKind::At {
            let o = top_at_block(c, l, q, errs);
            (o.pos, o.res, o.errs)
        } else if k == TokenKind::NarrativeSeparator {
            let (b, r) = narrative(c, q);
            (r, Ok(b), errs)
        } else if l {
            let (b, r) = narrative_line_run(c, q);
            (r, Ok(b), errs)
        } else {
            (
                q,
                Err(unexpected_at(c, q, "block start ('@' or '---')"@, kind_name(k))),
                errs,
            )
        };
        lemma_unclosed_at_block(c, l, q, 0, errs);
        match b {
            Err(e) => {},
            Ok(blk) => {
                if q < r < c.toks.len() {
                    lemma_unclosed_top_blocks(c, l, r, blocks.push(blk), errs2);
                }
            },
        }
    }
}

/// Every error a parse records is an unclosed section.
pub proof fn lemma_unclosed_document(c: Ctx, l: bool)
    ensures
        all_unclosed(document(c, l).errs),
{
    let q0 = skip_newlines(c, 0);
    match expect(c, q0, TokenKind::At, seq!['@']) {
        Err(e) => {},
        Ok(q1) => match expect(c, q1, TokenKind::Identifier, "identifier 'ftai'"@) {
            Err(e) => {},
            Ok(_) => if !text::eq_ignore_ascii_case(c.toks[q1].lexeme, "ftai"@) {
            } else {
                let (parts, q2) = collect_values(c, q1 + 1);
                lemma_unclosed_top_blocks(c, l, skip_one_newline(c, q2), Seq::empty(), Seq::empty());
            },
        },
    }
}

} // verus!
