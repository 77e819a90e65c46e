use ftai::error::{Error, ErrorCategory};

#[test]
fn unexpected_token_error_includes_location() {
    let e = Error::UnexpectedToken {
        expected: "@end".into(),
        found: "@document".into(),
        line: 14,
        column: 1,
    };
    let s = e.message();
    assert!(s.contains("line 14"));
    assert!(s.contains("column 1"));
    assert!(s.contains("@end"));
    assert!(s.contains("@document"));
}

#[test]
fn category_classifies_input_injection() {
    let e = Error::InputInjection("null byte at offset 7".into());
    assert_eq!(e.category(), ErrorCategory::InputInjection);
}

#[test]
fn determinism_io_error_round_trips_message() {
    let e = Error::Io("write failed: disk full".into());
    assert!(e.message().contains("disk full"));
}

#[test]
fn every_variant_has_its_category_and_message() {
    let cases: Vec<(Error, ErrorCategory, &str)> = vec![
        (
            Error::UnexpectedToken { expected: "a".into(), found: "b".into(), line: 2, column: 5 },
            ErrorCategory::Structure,
            "unexpected token at line 2, column 5: expected a, found b",
        ),
        (
            Error::UnterminatedBlock { tag: "doc".into(), line: 3 },
            ErrorCategory::Structure,
            "unterminated block opened at line 3: tag was 'doc'",
        ),
        (
            Error::UnsupportedVersion("v1.0".into()),
            ErrorCategory::Structure,
            "unsupported FTAI version: 'v1.0' (this crate supports v2.0 only)",
        ),
        (
            Error::InputInjection("null byte".into()),
            ErrorCategory::InputInjection,
            "input injection: null byte",
        ),
        (
            Error::NestingTooDeep { limit: 64, line: 70 },
            ErrorCategory::LimitExceeded,
            "nesting depth exceeded limit 64 at line 70",
        ),
        (Error::Io("x".into()), ErrorCategory::Io, "io: x"),
        (Error::Serde("y".into()), ErrorCategory::SerdeMapping, "serde: y"),
    ];
    for (e, cat, msg) in cases {
        assert_eq!(e.category(), cat);
        assert_eq!(e.message(), msg);
    }
}
