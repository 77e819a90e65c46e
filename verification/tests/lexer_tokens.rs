use ftai::ast::Span;
use ftai::lexer::{tokenize, Token, TokenKind};

fn kinds(input: &str) -> Vec<TokenKind> {
    tokenize(input).unwrap().iter().map(|t| t.kind).collect()
}

#[test]
fn token_at_construct_carries_span() {
    let t = Token {
        kind: TokenKind::At,
        lexeme: "@".into(),
        span: Span {
            start_line: 1,
            start_col: 1,
            end_line: 1,
            end_col: 2,
        },
    };
    assert_eq!(t.kind, TokenKind::At);
    assert_eq!(t.span.start_line, 1);
}

#[test]
fn token_kind_eq_compares_variants() {
    assert_eq!(TokenKind::Identifier, TokenKind::Identifier);
    assert_ne!(TokenKind::At, TokenKind::Colon);
}

#[test]
fn lex_single_at_tag_followed_by_identifier() {
    assert_eq!(kinds("@document\n"), vec![TokenKind::At, TokenKind::Identifier, TokenKind::Newline, TokenKind::Eof]);
}

#[test]
fn lex_key_value_pair_with_quoted_string() {
    assert_eq!(kinds("title: \"Hi there\"\n"), vec![TokenKind::Identifier, TokenKind::Colon, TokenKind::QuotedString, TokenKind::Newline, TokenKind::Eof]);
}

#[test]
fn lex_narrative_separator_three_hyphens() {
    let tokens = tokenize("---\n").unwrap();
    assert_eq!(tokens[0].kind, TokenKind::NarrativeSeparator);
}

#[test]
fn lex_full_minimal_document() {
    let tokens = tokenize("@ftai v2.0\n@document\ntitle: \"Hi\"\n@end\n").unwrap();
    assert_eq!(tokens[0].kind, TokenKind::At);
    assert_eq!(tokens[1].kind, TokenKind::Identifier);
    assert_eq!(tokens[1].lexeme, "ftai");
    assert!(tokens.iter().any(|t| t.lexeme == "v2.0" && t.kind == TokenKind::UnquotedString));
}

#[test]
fn lex_quoted_string_resolves_escape_sequences() {
    let tokens = tokenize("k: \"a\\\"b\\\\c\\nd\\te\\rf\\qg\"\n").unwrap();
    let q = tokens.iter().find(|t| t.kind == TokenKind::QuotedString).unwrap();
    assert_eq!(q.lexeme, "a\"b\\c\nd\te\rf\\qg");
}

#[test]
fn lex_blank_lines_collapse_into_one_newline() {
    assert_eq!(kinds("a\n\n  \n\r\nb"), vec![TokenKind::Identifier, TokenKind::Newline, TokenKind::Identifier, TokenKind::Eof]);
}

#[test]
fn lex_spans_are_one_based_lines_and_columns() {
    let tokens = tokenize("@doc\n  key: \"v\"\n").unwrap();
    assert_eq!(tokens[0].span, Span { start_line: 1, start_col: 1, end_line: 1, end_col: 2 });
    assert_eq!(tokens[1].span, Span { start_line: 1, start_col: 2, end_line: 1, end_col: 5 });
    assert_eq!(tokens[3].span, Span { start_line: 2, start_col: 3, end_line: 2, end_col: 6 });
    assert_eq!(tokens[5].span, Span { start_line: 2, start_col: 8, end_line: 2, end_col: 11 });
    let eof = tokens.last().unwrap();
    assert_eq!(eof.kind, TokenKind::Eof);
    assert_eq!(eof.span, Span { start_line: 3, start_col: 1, end_line: 3, end_col: 1 });
}

#[test]
fn lex_separator_only_alone_on_its_line() {
    assert_eq!(kinds("--- x\n"), vec![TokenKind::UnquotedString, TokenKind::Identifier, TokenKind::Newline, TokenKind::Eof]);
    assert_eq!(kinds("a ---\n"), vec![TokenKind::Identifier, TokenKind::UnquotedString, TokenKind::Newline, TokenKind::Eof]);
    assert_eq!(kinds("---"), vec![TokenKind::NarrativeSeparator, TokenKind::Eof]);
}

#[test]
fn lex_punctuation_and_words() {
    assert_eq!(
        kinds("[a, b_2]:x.y"),
        vec![TokenKind::LeftBracket, TokenKind::Identifier, TokenKind::Comma, TokenKind::Identifier, TokenKind::RightBracket, TokenKind::Colon, TokenKind::UnquotedString, TokenKind::Eof]
    );
}

#[test]
fn lex_empty_input_is_just_eof() {
    let tokens = tokenize("").unwrap();
    assert_eq!(tokens.len(), 1);
    assert_eq!(tokens[0].kind, TokenKind::Eof);
    assert_eq!(tokens[0].lexeme, "");
}

#[test]
fn lex_tag_name_of_exactly_256_is_accepted() {
    let input = "@".to_string() + &"a".repeat(256);
    let tokens = tokenize(&input).unwrap();
    assert_eq!(tokens[1].lexeme.len(), 256);
}

#[test]
fn lex_long_word_not_after_at_is_accepted() {
    let input = "x".repeat(300);
    assert!(tokenize(&input).is_ok());
}

#[test]
fn tokens_start_at_line_and_column_one_and_blank_lines_collapse() {
    let toks = tokenize("@ftai v2.0\n\n\n@doc_2\n\n  k: v\n@end\n").unwrap();
    assert!(toks.iter().all(|t| t.span.start_line >= 1 && t.span.start_col >= 1));
    assert!(toks.windows(2).all(|w| !(w[0].kind == TokenKind::Newline && w[1].kind == TokenKind::Newline)));
    assert!(toks
        .iter()
        .filter(|t| t.kind == TokenKind::Identifier)
        .all(|t| t.lexeme.chars().next().map_or(false, |c| c.is_ascii_alphabetic())
            && t.lexeme.chars().all(|c| c.is_ascii_alphanumeric() || c == '_')));
}
