use ftai::error::{Error, ErrorCategory};

fn ftai_internal_tokenize(input: &str) -> Result<Vec<ftai::__testing::Token>, Error> {
    ftai::__testing::tokenize(input)
}

#[test]
fn red_null_byte_rejected() {
    let input = "@doc\0\n";
    let result = ftai_internal_tokenize(input);
    let err = result.expect_err("null byte must be rejected");
    assert_eq!(err.category(), ErrorCategory::InputInjection);
}

#[test]
fn red_oversize_tag_name_rejected() {
    let oversize_tag: String = "@".to_string() + &"a".repeat(257);
    let input = format!("{oversize_tag}\n");
    let err = ftai_internal_tokenize(&input).expect_err("oversize tag must be rejected");
    assert!(matches!(
        err.category(),
        ErrorCategory::InputInjection | ErrorCategory::LimitExceeded
    ));
}

#[test]
fn red_control_character_in_value_rejected() {
    let input = "k: ab\x07cd\n";
    let err = ftai_internal_tokenize(input).expect_err("control char must be rejected");
    assert_eq!(err.category(), ErrorCategory::InputInjection);
}

#[test]
fn red_malformed_utf8_rejected_at_str_boundary() {
    let bad: Vec<u8> = vec![b'@', 0xFF, 0xFE, b'\n'];
    let result = std::str::from_utf8(&bad);
    assert!(
        result.is_err(),
        "construction precondition: bad UTF-8 doesn't form &str"
    );
}

#[test]
fn red_nesting_depth_exceeded_returns_clean_error() {
    let mut s = String::from("@ftai v2.0\n");
    for i in 0..100 {
        s.push_str(&format!("@nest{i}\n"));
    }
    for _ in 0..100 {
        s.push_str("@end\n");
    }
    let err = ftai::parse(&s).expect_err("excessive nesting must be rejected");
    assert_eq!(err.category(), ErrorCategory::LimitExceeded);
}

#[test]
fn red_nesting_depth_in_lexer_path_does_not_panic_on_pathological_brackets() {
    let input = "[".repeat(10_000);
    let _ = ftai_internal_tokenize(&input);
}

#[test]
fn red_messages_name_the_position() {
    let err = ftai_internal_tokenize("ab\ncd\0").unwrap_err();
    assert_eq!(err.message(), "input injection: null byte at line 2, column 3");
    let err = ftai_internal_tokenize("k: \"a\x01\"").unwrap_err();
    assert_eq!(err.message(), "input injection: control character at line 1, column 6");
    let err = ftai_internal_tokenize(&("@".to_string() + &"b".repeat(300))).unwrap_err();
    assert_eq!(
        err.message(),
        "input injection: tag name longer than 256 characters at line 1, column 2"
    );
}

#[test]
fn red_lone_carriage_return_rejected_but_crlf_accepted() {
    assert!(ftai_internal_tokenize("a\rb").is_err());
    assert!(ftai_internal_tokenize("a\r\nb").is_ok());
    assert!(ftai_internal_tokenize("a\u{85}b").is_err());
    assert!(ftai_internal_tokenize("a\tb \"c\td\"").is_ok());
}

#[test]
fn red_nesting_at_the_limit_is_accepted() {
    let mut s = String::from("@ftai v2.0\n");
    for i in 0..64 {
        s.push_str(&format!("@nest{i}\n"));
    }
    for _ in 0..64 {
        s.push_str("@end\n");
    }
    assert!(ftai::parse(&s).is_ok());
    let mut t = String::from("@ftai v2.0\n");
    for i in 0..65 {
        t.push_str(&format!("@nest{i}\n"));
    }
    for _ in 0..65 {
        t.push_str("@end\n");
    }
    assert!(matches!(ftai::parse(&t), Err(Error::NestingTooDeep { limit: 64, line: 66 })));
}

#[test]
fn tag_single_may_sit_one_level_below_the_nesting_limit() {
    let mut s = String::from("@ftai v2.0\n");
    for i in 0..64 {
        s.push_str(&format!("@nest{i}\nk: v\n"));
    }
    s.push_str("@status active\n");
    let (doc, errors) = ftai::parse_lenient(&s);
    assert_eq!(errors.len(), 64);
    assert!(errors.iter().all(|e| matches!(e, Error::UnterminatedBlock { .. })));
    let mut depth = 0;
    let mut blocks = &doc.blocks;
    while let Some(ftai::Block::Section(sec)) = blocks.first() {
        depth += 1;
        blocks = &sec.children;
    }
    assert_eq!(depth, 65);
    let mut t = String::from("@ftai v2.0\n");
    for i in 0..65 {
        t.push_str(&format!("@nest{i}\nk: v\n"));
    }
    assert!(matches!(ftai::parse(&t), Err(Error::NestingTooDeep { limit: 64, line: 130 })));
    let (doc, errors) = ftai::parse_lenient(&t);
    assert!(doc.blocks.is_empty());
    assert_eq!(errors.len(), 1);
    assert!(matches!(errors[0], Error::NestingTooDeep { limit: 64, line: 130 }));
}

#[test]
fn strict_parse_can_hold_a_tag_single_one_level_below_the_limit() {
    let mut s = String::from("@ftai v2.0\n");
    for i in 0..64 {
        s.push_str(&format!("@nest{i}\nk: v\n"));
    }
    s.push_str("@status active\nnote");
    for _ in 0..64 {
        s.push_str(" @x");
    }
    s.push('\n');
    for _ in 0..64 {
        s.push_str("@end\n");
    }
    let doc = ftai::parse(&s).expect("sections closed by @end, a tag-single at the bottom");
    let mut depth = 0;
    let mut blocks = &doc.blocks;
    while let Some(ftai::Block::Section(sec)) = blocks.first() {
        depth += 1;
        blocks = &sec.children;
    }
    assert_eq!(depth, 65);
}
