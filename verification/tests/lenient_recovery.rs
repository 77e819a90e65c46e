#[test]
fn lenient_unknown_tag_is_ignored_with_error_logged() {
    let input = "@ftai v2.0\n@unknown_tag\nx: 1\n@end\n@document\ntitle: \"ok\"\n@end\n";
    let (doc, errors) = ftai::parse_lenient(input);
    assert!(doc.blocks.iter().any(
        |b| matches!(b, ftai::Block::Section(s) if s.tag == "document")
    ));
    let _ = errors;
}

#[test]
fn lenient_missing_end_marker_recovered_at_next_tag() {
    let input = "@ftai v2.0\n@document\ntitle: \"hi\"\n@ai\nmode: \"x\"\n@end\n";
    let (doc, errors) = ftai::parse_lenient(input);
    assert!(!doc.blocks.is_empty());
    assert!(!errors.is_empty(), "expected an error for missing @end");
}

#[test]
fn lenient_truncated_final_block_preserves_prefix() {
    let input = "@ftai v2.0\n@document\ntitle: \"hi\"";
    let (doc, errors) = ftai::parse_lenient(input);
    assert!(!doc.blocks.is_empty(), "partial document survived");
    assert!(!errors.is_empty(), "missing @end was logged");
}

#[test]
fn lenient_lexical_error_gives_empty_document_and_that_error() {
    let (doc, errors) = ftai::parse_lenient("@ftai v2.0\n@doc\0\n");
    assert!(doc.blocks.is_empty());
    assert_eq!(errors.len(), 1);
    assert_eq!(errors[0].category(), ftai::error::ErrorCategory::InputInjection);
}

#[test]
fn lenient_unterminated_error_names_the_open_tag() {
    let (doc, errors) = ftai::parse_lenient("@ftai v2.0\n@Document\ntitle: \"hi\"\n");
    assert_eq!(doc.blocks.len(), 1);
    assert_eq!(errors.len(), 1);
    assert!(matches!(&errors[0], ftai::Error::UnterminatedBlock { tag, line: 2 } if tag == "document"));
}

#[test]
fn lenient_errors_are_unterminated_sections_only() {
    let input = "@ftai v2.0\nstray line\n@a\nk: v\n@b\nx: 1\n";
    let (doc, errors) = ftai::parse_lenient(input);
    assert_eq!(errors.len(), 2);
    assert!(matches!(&errors[0], ftai::Error::UnterminatedBlock { tag, line: 5 } if tag == "b"));
    assert!(matches!(&errors[1], ftai::Error::UnterminatedBlock { tag, line: 3 } if tag == "a"));
    assert_eq!(doc.blocks.len(), 2);
    assert!(matches!(&doc.blocks[0], ftai::Block::Narrative { text, .. } if text == "stray line"));
    assert!(ftai::parse(input).is_err());
}

#[test]
fn lenient_unsupported_version_is_reported() {
    let (doc, errors) = ftai::parse_lenient("@ftai v1.0\n");
    assert!(doc.blocks.is_empty() && doc.schema.is_none());
    assert_eq!(errors.len(), 1);
    assert!(matches!(&errors[0], ftai::Error::UnsupportedVersion(v) if v == "v1.0"));
}

#[test]
fn lenient_unclosed_list_in_ai_block_is_reported_not_dropped() {
    let (doc, errors) = ftai::parse_lenient("@ftai v2.0\n@ai\nk: [a, b\n");
    assert!(doc.blocks.is_empty());
    assert!(!errors.is_empty());
    assert!(ftai::parse("@ftai v2.0\n@ai\nk: [a, b\n").is_err());
    let strict = ftai::parse("@ftai v2.0\n@ai\nk: [a, b\n").unwrap_err();
    assert_eq!(format!("{:?}", errors.last().unwrap()), format!("{:?}", strict));
}
