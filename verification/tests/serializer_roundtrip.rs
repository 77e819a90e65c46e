use ftai::ast::{Block, Document, FtaiVersion, Section, Span, Value};
use ftai::lexer::tokenize;
use ftai::parser::parse_tokens;
use ftai::serializer::serialize_document;

fn roundtrip(input: &str) {
    let tokens = tokenize(input).unwrap();
    let doc = parse_tokens(&tokens).unwrap();
    let text = serialize_document(&doc).unwrap();
    let tokens2 = tokenize(&text).unwrap();
    let doc2 = parse_tokens(&tokens2).unwrap();
    assert_eq!(doc, doc2, "round-trip should be structurally stable");
}

#[test]
fn roundtrip_minimal_document() {
    roundtrip("@ftai v2.0\n@document\ntitle: \"Hi\"\n@end\n");
}

#[test]
fn roundtrip_with_narrative() {
    roundtrip("@ftai v2.0\n@document\n@end\n---\nHello world\n---\n@ai\nmode: \"core_memory\"\n@end\n");
}

#[test]
fn roundtrip_nested_section() {
    roundtrip("@ftai v2.0\n@document\ntitle: \"x\"\n  @inner\n  k: v\n  @end\n@end\n");
}

#[test]
fn serialize_exact_text() {
    let doc = Document {
        version: FtaiVersion::V2_0,
        schema: Some("notes".into()),
        blocks: vec![
            Block::Section(Section {
                tag: "doc".into(),
                attributes: vec![
                    ("title".into(), Value::Quoted("a \"q\"\\\n\t\r".into())),
                    ("tags".into(), Value::List(vec![Value::Unquoted("x".into()), Value::Quoted("y".into())])),
                ],
                children: vec![Block::Section(Section {
                    tag: "inner".into(),
                    attributes: vec![("k".into(), Value::Unquoted("v".into()))],
                    children: vec![],
                    span: Span::synthetic(),
                })],
                span: Span::synthetic(),
            }),
            Block::Narrative { text: "line one\n".into(), inline_tags: vec![], span: Span::synthetic() },
            Block::Narrative { text: "line two".into(), inline_tags: vec![], span: Span::synthetic() },
        ],
    };
    let text = serialize_document(&doc).unwrap();
    assert_eq!(
        text,
        "@ftai v2.0 notes\n@doc\ntitle: \"a \\\"q\\\"\\\\\\n\\t\\r\"\ntags: [x, \"y\"]\n  @inner\n  k: v\n  @end\n@end\n---\nline one\n---\n---\nline two\n---\n"
    );
    assert_eq!(ftai::to_string_doc(&Document::default()).unwrap(), "@ftai v2.0\n");
}

#[test]
fn serialize_is_deterministic() {
    let doc = ftai::parse("@ftai v2.0\n@a\nk: [1, 2]\n@end\n").unwrap();
    assert_eq!(ftai::to_string_doc(&doc).unwrap(), ftai::to_string_doc(&doc).unwrap());
}

#[test]
fn quoted_escapes_survive_a_round_trip() {
    roundtrip("@ftai v2.0\n@d\nk: \"tab\\there \\\"quoted\\\" back\\\\slash\\nnewline\"\n@end\n");
}

fn span(a: usize, b: usize) -> Span {
    Span { start_line: a, start_col: b, end_line: a + 1, end_col: 1 }
}

fn erase_spans(blocks: &mut Vec<Block>) {
    for b in blocks.iter_mut() {
        match b {
            Block::Section(s) => {
                s.span = Span::synthetic();
                erase_spans(&mut s.children);
            }
            Block::Narrative { span, .. } => *span = Span::synthetic(),
        }
    }
}

#[test]
fn written_document_reads_back_up_to_spans() {
    let narrative = "Hello world : [ \"quoted text\" ] with @mention ,";
    let doc = Document {
        version: FtaiVersion::V2_0,
        schema: Some("notes".into()),
        blocks: vec![
            Block::Section(Section {
                tag: "document".into(),
                attributes: vec![
                    ("author".into(), Value::Unquoted("Mike Smith".into())),
                    ("empty".into(), Value::Unquoted(String::new())),
                    ("title".into(), Value::Quoted("line\nbreak \"q\"".into())),
                    (
                        "tags".into(),
                        Value::List(vec![
                            Value::Unquoted("a b".into()),
                            Value::Quoted("c, d".into()),
                            Value::List(vec![]),
                        ]),
                    ),
                ],
                children: vec![Block::Section(Section {
                    tag: "inner".into(),
                    attributes: vec![("k".into(), Value::Unquoted("v : w".into()))],
                    children: vec![],
                    span: span(7, 3),
                })],
                span: span(2, 1),
            }),
            Block::Narrative {
                text: narrative.into(),
                inline_tags: vec![],
                span: span(12, 1),
            },
            Block::Narrative { text: String::new(), inline_tags: vec![], span: span(15, 1) },
        ],
    };
    let text = ftai::to_string_doc(&doc).unwrap();
    let mut back = ftai::parse(&text).unwrap();
    let mut expected = doc.clone();
    erase_spans(&mut back.blocks);
    erase_spans(&mut expected.blocks);
    assert_eq!(back, expected);
    let (mut lenient, errors) = ftai::parse_lenient(&text);
    erase_spans(&mut lenient.blocks);
    assert!(errors.is_empty());
    assert_eq!(lenient, expected);
}

#[test]
fn uppercase_tag_does_not_read_back_unchanged() {
    let doc = Document {
        version: FtaiVersion::V2_0,
        schema: None,
        blocks: vec![Block::Section(Section {
            tag: "Doc".into(),
            attributes: vec![],
            children: vec![],
            span: Span::synthetic(),
        })],
    };
    let text = ftai::to_string_doc(&doc).unwrap();
    let back = ftai::parse(&text).unwrap();
    match &back.blocks[0] {
        Block::Section(s) => assert_eq!(s.tag, "doc"),
        Block::Narrative { .. } => panic!("expected Section"),
    }
}

#[test]
fn rarer_canonical_shapes_read_back_up_to_spans() {
    let doc = Document {
        version: FtaiVersion::V2_0,
        schema: Some(":".into()),
        blocks: vec![
            Block::Section(Section {
                tag: "d".into(),
                attributes: vec![(
                    "k".into(),
                    Value::List(vec![
                        Value::Unquoted(String::new()),
                        Value::Unquoted("a [ b".into()),
                        Value::Unquoted("x".into()),
                    ]),
                )],
                children: vec![],
                span: Span::synthetic(),
            }),
            Block::Narrative {
                text: "meet @ -noon or @ , later @ [".into(),
                inline_tags: vec![],
                span: Span::synthetic(),
            },
        ],
    };
    let text = ftai::to_string_doc(&doc).unwrap();
    assert_eq!(
        text,
        "@ftai v2.0 :\n@d\nk: [, a [ b, x]\n@end\n---\nmeet @ -noon or @ , later @ [\n---\n"
    );
    let mut back = ftai::parse(&text).unwrap();
    erase_spans(&mut back.blocks);
    assert_eq!(back, doc);
}

#[test]
fn spans_and_inline_tags_do_not_change_the_written_text() {
    let doc = ftai::parse("@ftai v2.0\n@doc\nk: v\n@end\n---\nsee @ref here\n---\n").unwrap();
    let mut other = doc.clone();
    for b in other.blocks.iter_mut() {
        match b {
            Block::Section(s) => s.span = Span { start_line: 40, start_col: 7, end_line: 41, end_col: 2 },
            Block::Narrative { inline_tags, span, .. } => {
                inline_tags.clear();
                *span = Span::synthetic();
            }
        }
    }
    assert_eq!(serialize_document(&doc).unwrap(), serialize_document(&other).unwrap());
}

#[test]
fn version_text_is_left_as_it_is_by_lowercasing() {
    assert!(ftai::version_text_is_lowercase());
}

#[test]
fn to_string_read_back_gives_text_that_parses_to_the_same_document() {
    let doc = Document {
        version: FtaiVersion::V2_0,
        schema: None,
        blocks: vec![Block::Section(Section {
            tag: "doc".into(),
            attributes: vec![("title".into(), Value::Quoted("a \"b\"\tc".into()))],
            children: vec![],
            span: Span::synthetic(),
        })],
    };
    let text = ftai::to_string_read_back(&doc).expect("version text is fixed by lowercasing");
    assert_eq!(text, "@ftai v2.0\n@doc\ntitle: \"a \\\"b\\\"\\tc\"\n@end\n");
    let back = ftai::parse(&text).unwrap();
    assert_eq!(back.blocks.len(), 1);
    match &back.blocks[0] {
        Block::Section(s) => {
            assert_eq!(s.tag, "doc");
            assert_eq!(s.attributes, vec![("title".to_string(), Value::Quoted("a \"b\"\tc".into()))]);
        }
        _ => panic!("expected a section"),
    }
}

#[test]
fn serialized_quoted_value_lexes_back_to_one_token() {
    let q = "quote \" backslash \\ newline \n cr \r tab \t end";
    let doc = Document {
        version: FtaiVersion::V2_0,
        schema: None,
        blocks: vec![Block::Section(Section {
            tag: "doc".into(),
            attributes: vec![("k".into(), Value::Quoted(q.into()))],
            children: vec![],
            span: Span::synthetic(),
        })],
    };
    let text = serialize_document(&doc).unwrap();
    let line = text.lines().find(|l| l.starts_with("k: ")).unwrap();
    let input = format!("{line}\n");
    let toks = tokenize(&input).unwrap();
    let quoted: Vec<_> = toks.iter().filter(|t| t.kind == ftai::lexer::TokenKind::QuotedString).collect();
    assert_eq!(toks.len(), 5);
    assert_eq!(quoted.len(), 1);
    assert_eq!(quoted[0].lexeme, q);
}
