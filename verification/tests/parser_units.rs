use ftai::ast::{Block, FtaiVersion, InlineTag, Span, Value};
use ftai::error::Error;
use ftai::lexer::tokenize;
use ftai::parser::{parse_tokens, parse_tokens_lenient};

#[test]
fn parse_minimal_document() {
    let input = "@ftai v2.0\n@document\ntitle: \"Hi\"\n@end\n";
    let tokens = tokenize(input).unwrap();
    let doc = parse_tokens(&tokens).unwrap();
    assert_eq!(doc.version, FtaiVersion::V2_0);
    assert_eq!(doc.blocks.len(), 1);
}

#[test]
fn parse_section_with_attribute() {
    let input = "@ftai v2.0\n@document\ntitle: \"Hi\"\nauthor: Mike\n@end\n";
    let tokens = tokenize(input).unwrap();
    let doc = parse_tokens(&tokens).unwrap();
    if let Block::Section(s) = &doc.blocks[0] {
        assert_eq!(s.tag, "document");
        assert_eq!(s.attributes.len(), 2);
    } else {
        panic!("expected Section");
    }
}

#[test]
fn parse_unsupported_version_rejected() {
    let input = "@ftai v1.0\n";
    let tokens = tokenize(input).unwrap();
    let err = parse_tokens(&tokens).unwrap_err();
    assert!(matches!(err, Error::UnsupportedVersion(_)));
}

#[test]
fn parse_narrative_block_between_sections() {
    let input = "@ftai v2.0\n@document\n@end\n---\nHello world\n---\n@ai\n@end\n";
    let tokens = tokenize(input).unwrap();
    let doc = parse_tokens(&tokens).unwrap();
    assert_eq!(doc.blocks.len(), 3);
    assert!(matches!(doc.blocks[1], Block::Narrative { .. }));
}

#[test]
fn parse_unterminated_block_errors() {
    let input = "@ftai v2.0\n@document\ntitle: \"Hi\"\n";
    let tokens = tokenize(input).unwrap();
    let err = parse_tokens(&tokens).unwrap_err();
    assert!(matches!(err, Error::UnterminatedBlock { .. }));
}

#[test]
fn parse_attribute_values_exactly() {
    let input = "@ftai v2.0 notes\n@Doc\ntitle: \"Hi there\"\nauthor: Mike Smith\nempty:\nlist: [a, \"b c\", [x y], @ref]\n@end\n";
    let doc = ftai::parse(input).unwrap();
    assert_eq!(doc.schema, Some("notes".to_string()));
    let Block::Section(s) = &doc.blocks[0] else { panic!("expected Section") };
    assert_eq!(s.tag, "doc");
    assert_eq!(
        s.attributes,
        vec![
            ("title".to_string(), Value::Quoted("Hi there".into())),
            ("author".to_string(), Value::Unquoted("Mike Smith".into())),
            ("empty".to_string(), Value::Unquoted("".into())),
            (
                "list".to_string(),
                Value::List(vec![
                    Value::Unquoted("a".into()),
                    Value::Quoted("b c".into()),
                    Value::List(vec![Value::Unquoted("x y".into())]),
                    Value::Unquoted("@ref".into()),
                ])
            ),
        ]
    );
    assert_eq!(s.span, Span { start_line: 2, start_col: 1, end_line: 8, end_col: 1 });
}

#[test]
fn parse_tag_single_keeps_value_and_body_as_narrative() {
    let doc = ftai::parse("@ftai v2.0\n@status active now\nmore text\n@next\n").unwrap();
    assert_eq!(doc.blocks.len(), 2);
    let Block::Section(s) = &doc.blocks[0] else { panic!("expected Section") };
    assert_eq!(s.tag, "status");
    assert!(s.attributes.is_empty());
    assert_eq!(s.children.len(), 1);
    match &s.children[0] {
        Block::Narrative { text, .. } => assert_eq!(text, "active now\nmore text"),
        Block::Section(_) => panic!("expected Narrative"),
    }
}

#[test]
fn parse_narrative_inline_tags() {
    let doc = ftai::parse("@ftai v2.0\n---\nsee [tone: urgent] and [x] and [ :y] and [k:v]\n---\n").unwrap();
    let Block::Narrative { text, inline_tags, .. } = &doc.blocks[0] else { panic!("expected Narrative") };
    assert_eq!(text, "see [ tone : urgent ] and [ x ] and [ : y ] and [ k : v ]");
    assert_eq!(
        inline_tags,
        &vec![
            InlineTag { name: "tone".into(), value: "urgent".into() },
            InlineTag { name: "k".into(), value: "v".into() },
        ]
    );
}

#[test]
fn parse_header_errors() {
    assert!(matches!(
        ftai::parse("@ftai\n"),
        Err(Error::UnexpectedToken { line: 1, column: 1, .. })
    ));
    assert!(matches!(ftai::parse("@doc v2.0\n"), Err(Error::UnexpectedToken { .. })));
    assert!(matches!(ftai::parse(""), Err(Error::UnexpectedToken { .. })));
    assert!(ftai::parse("\n\n@FTAI V2.0\n").is_ok());
    assert!(matches!(ftai::parse("@ftai v3.1\n"), Err(Error::UnsupportedVersion(v)) if v == "v3.1"));
}

#[test]
fn parse_expect_error_describes_token() {
    match ftai::parse("@ftai v2.0\n@\"x\"\n") {
        Err(Error::UnexpectedToken { expected, found, line, column }) => {
            assert_eq!(expected, "tag identifier");
            assert_eq!(found, "QuotedString (\"x\")");
            assert_eq!((line, column), (2, 2));
        }
        other => panic!("unexpected {other:?}"),
    }
}

#[test]
fn parse_stray_top_level_line_is_an_error_strictly_and_narrative_leniently() {
    let input = "@ftai v2.0\nstray words here\n";
    assert!(matches!(ftai::parse(input), Err(Error::UnexpectedToken { .. })));
    let (doc, errors) = ftai::parse_lenient(input);
    assert!(errors.is_empty());
    match &doc.blocks[0] {
        Block::Narrative { text, .. } => assert_eq!(text, "stray words here"),
        Block::Section(_) => panic!("expected Narrative"),
    }
}

#[test]
fn parse_list_errors() {
    assert!(matches!(
        ftai::parse("@ftai v2.0\n@d\nk: [a, b\n@end\n"),
        Err(Error::UnexpectedToken { .. })
    ));
    assert!(matches!(
        ftai::parse("@ftai v2.0\n@d\nk: [a"),
        Err(Error::UnexpectedToken { .. })
    ));
}

#[test]
fn parse_tokens_lenient_matches_strict_on_valid_input() {
    let input = "@ftai v2.0\n@document\ntitle: \"Hi\"\n  @inner\n  k: v\n  @end\n@end\n---\ntext\n---\n";
    let tokens = tokenize(input).unwrap();
    let strict = parse_tokens(&tokens).unwrap();
    let (lenient, errors) = parse_tokens_lenient(&tokens);
    assert_eq!(strict, lenient);
    assert!(errors.is_empty());
}

#[test]
fn parsed_tags_are_stored_lowercase() {
    let doc = ftai::parse("@ftai v2.0\n@DOC\n  @Inner_X\n  k: v\n  @END\n@End\n").unwrap();
    match &doc.blocks[0] {
        Block::Section(s) => {
            assert_eq!(s.tag, "doc");
            assert!(matches!(&s.children[0], Block::Section(c) if c.tag == "inner_x"));
        }
        _ => panic!("expected a section"),
    }
}
