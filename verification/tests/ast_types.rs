use ftai::ast::{Block, Document, FtaiVersion, InlineTag, Section, Span, Value};

#[test]
fn document_is_default_empty() {
    let d = Document::default();
    assert!(d.blocks.is_empty());
    assert_eq!(d.version, FtaiVersion::V2_0);
}

#[test]
fn section_block_round_trips_via_clone_eq() {
    let s = Block::Section(Section {
        tag: "document".into(),
        attributes: vec![("title".into(), Value::Quoted("Hi".into()))],
        children: vec![],
        span: Span::synthetic(),
    });
    assert_eq!(s, s.clone());
}

#[test]
fn narrative_block_preserves_text_verbatim() {
    let n = Block::Narrative {
        text: "  raw text with  spaces\n".into(),
        inline_tags: vec![],
        span: Span::synthetic(),
    };
    match n {
        Block::Narrative { text, .. } => {
            assert_eq!(text, "  raw text with  spaces\n");
        }
        Block::Section(_) => panic!("expected Narrative"),
    }
}

#[test]
fn inline_tag_parsed_form() {
    let it = InlineTag {
        name: "tone".into(),
        value: "urgent".into(),
    };
    assert_eq!(it.name, "tone");
}

#[test]
fn span_display_shows_line_col() {
    let s = Span {
        start_line: 10,
        start_col: 4,
        end_line: 10,
        end_col: 12,
    };
    let f = s.display();
    assert!(f.contains("10:4"));
}

#[test]
fn span_display_exact_text() {
    let s = Span {
        start_line: 3,
        start_col: 17,
        end_line: 120,
        end_col: 9,
    };
    assert_eq!(s.display(), "3:17-120:9");
    assert_eq!(Span::synthetic().display(), "0:0-0:0");
}

#[test]
fn nested_list_value_clone_is_equal() {
    let v = Value::List(vec![
        Value::Unquoted("a".into()),
        Value::List(vec![Value::Quoted("b c".into())]),
    ]);
    assert_eq!(v.clone(), v);
    let d = Document {
        version: FtaiVersion::V2_0,
        schema: Some("notes".into()),
        blocks: vec![Block::Section(Section {
            tag: "outer".into(),
            attributes: vec![("k".into(), v)],
            children: vec![Block::Narrative {
                text: "x".into(),
                inline_tags: vec![InlineTag { name: "a".into(), value: "b".into() }],
                span: Span::synthetic(),
            }],
            span: Span::synthetic(),
        })],
    };
    assert_eq!(d.clone(), d);
}
