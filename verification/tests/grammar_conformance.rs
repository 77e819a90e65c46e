#[test]
fn ftai_file_minimal_header_only_accepts() {
    assert!(ftai::parse("@ftai v2.0\n").is_ok());
}

#[test]
fn ftai_file_missing_header_rejects() {
    assert!(ftai::parse("@document\n@end\n").is_err());
}

#[test]
fn ftai_header_v2_0_accepts() {
    assert!(ftai::parse("@ftai v2.0\n").is_ok());
}

#[test]
fn ftai_header_unknown_version_rejects() {
    assert!(ftai::parse("@ftai v9.9\n").is_err());
}

#[test]
fn tag_section_with_end_accepts() {
    assert!(ftai::parse("@ftai v2.0\n@doc\n@end\n").is_ok());
}

#[test]
fn tag_section_without_end_rejects() {
    assert!(ftai::parse("@ftai v2.0\n@doc\nk: v\n").is_err());
}

#[test]
fn tag_single_with_value_accepts() {
    assert!(ftai::parse("@ftai v2.0\n@status active\n").is_ok());
}

#[test]
fn tag_single_with_invalid_value_rejects() {
    assert!(ftai::parse("@ftai v2.0\n@status \x07active\n").is_err());
}

#[test]
fn key_value_indented_quoted_string_accepts() {
    assert!(ftai::parse("@ftai v2.0\n@doc\ntitle: \"hi\"\n@end\n").is_ok());
}

#[test]
fn key_value_missing_colon_rejects() {
    let doc =
        ftai::parse("@ftai v2.0\n@doc\ntitle \"hi\"\n@end\n").expect("forgiving parse OK");
    if let ftai::Block::Section(s) = &doc.blocks[0] {
        assert!(s.attributes.iter().all(|(k, _)| k != "title"));
    } else {
        panic!("expected Section");
    }
}

#[test]
fn quoted_string_with_escaped_quote_accepts() {
    assert!(ftai::parse("@ftai v2.0\n@doc\nk: \"a\\\"b\"\n@end\n").is_ok());
}

#[test]
fn quoted_string_unterminated_rejects() {
    assert!(ftai::parse("@ftai v2.0\n@doc\nk: \"unterminated\n@end\n").is_err());
}

#[test]
fn identifier_starts_with_letter_accepts() {
    assert!(ftai::parse("@ftai v2.0\n@doc_2\n@end\n").is_ok());
}

#[test]
fn identifier_starts_with_digit_rejects() {
    assert!(ftai::parse("@ftai v2.0\n@2doc\n@end\n").is_err());
}

#[test]
fn inner_block_nested_section_accepts() {
    assert!(ftai::parse("@ftai v2.0\n@outer\n  @inner\n  @end\n@end\n").is_ok());
}

#[test]
fn inner_block_unindented_does_not_panic() {
    let _ = ftai::parse("@ftai v2.0\n@outer\n@inner\n@end\n@end\n");
}

#[test]
fn inner_tag_single_stays_inside_its_section() {
    let doc = ftai::parse("@ftai v2.0\n@doc\n  @status active\n@end\n").expect("tag-single nested in a section");
    assert_eq!(doc.blocks.len(), 1);
    match &doc.blocks[0] {
        ftai::Block::Section(s) => {
            assert_eq!(s.tag, "doc");
            assert_eq!(s.children.len(), 1);
            assert!(matches!(&s.children[0], ftai::Block::Section(c) if c.tag == "status"));
        }
        _ => panic!("expected a section"),
    }
}

#[test]
fn at_sign_inside_a_line_does_not_open_a_section() {
    let doc = ftai::parse("@ftai v2.0\n@doc\nsee @ref here\n@end\n").expect("inline @ref is text");
    assert_eq!(doc.blocks.len(), 1);
    assert!(matches!(&doc.blocks[0], ftai::Block::Section(s) if s.tag == "doc" && s.children.len() == 1));
}

#[test]
fn end_marker_in_any_case_closes_its_section() {
    for end in ["@end", "@End", "@END", "@eNd", "@enD"] {
        let input = format!("@ftai v2.0\n@doc\n  @inner\n  {end}\n{end}\n");
        let doc = ftai::parse(&input).expect("any case of end closes");
        assert_eq!(doc.blocks.len(), 1);
        match &doc.blocks[0] {
            ftai::Block::Section(s) => {
                assert_eq!(s.tag, "doc");
                assert!(s.attributes.is_empty());
                assert_eq!(s.children.len(), 1);
                assert!(matches!(&s.children[0], ftai::Block::Section(c) if c.tag == "inner" && c.children.is_empty()));
            }
            _ => panic!("expected a section"),
        }
        let (_, errors) = ftai::parse_lenient(&input);
        assert!(errors.is_empty());
    }
}
