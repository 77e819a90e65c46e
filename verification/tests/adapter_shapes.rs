use ftai::adapter::{
    add_field, bool_of_text, bool_value, bytes_value, char_of_text, document_of_section, finish,
    first_section, fold_variant_case, into_outcome, is_none_value, key_of, new_section,
    newtype_value, newtype_variant_section, section_entries_of, signed_value, unsigned_value,
    unsupported_top_level, value_of, value_text, variant_section, FieldSource, Outcome,
};
use ftai::ast::{Block, Document, FtaiVersion, Section, Span, Value};
use ftai::Error;

fn unquoted(s: &str) -> Value {
    Value::Unquoted(s.to_string())
}

#[test]
fn numbers_and_booleans_are_written_as_unquoted_text() {
    assert_eq!(unsigned_value(0), unquoted("0"));
    assert_eq!(unsigned_value(18446744073709551615), unquoted("18446744073709551615"));
    assert_eq!(signed_value(-42), unquoted("-42"));
    assert_eq!(signed_value(i64::MIN), unquoted("-9223372036854775808"));
    assert_eq!(signed_value(7), unquoted("7"));
    assert_eq!(bool_value(true), unquoted("true"));
    assert_eq!(bool_value(false), unquoted("false"));
    assert_eq!(
        bytes_value(&[0, 255, 10]),
        Value::List(vec![unquoted("0"), unquoted("255"), unquoted("10")])
    );
}

#[test]
fn variant_sections_are_tagged_in_lowercase() {
    let s = variant_section("LogIn");
    assert_eq!(s.tag, "login");
    assert!(s.attributes.is_empty() && s.children.is_empty());
    assert_eq!(s.span, Span::synthetic());
    let n = newtype_variant_section("Wrapped", unquoted("5"));
    assert_eq!(n.tag, "wrapped");
    assert_eq!(n.attributes, vec![("value".to_string(), unquoted("5"))]);
}

#[test]
fn fields_are_added_as_attributes_or_child_sections() {
    let mut s = new_section("document".to_string());
    add_field(&mut s, "title".to_string(), Outcome::Value(Value::Quoted("Hi".into())));
    add_field(&mut s, "missing".to_string(), Outcome::Skipped);
    let inner = new_section("struct".to_string());
    add_field(&mut s, "Inner".to_string(), Outcome::SubSection(inner));
    add_field(&mut s, "count".to_string(), Outcome::Value(unquoted("3")));
    assert_eq!(
        s.attributes,
        vec![("title".to_string(), Value::Quoted("Hi".into())), ("count".to_string(), unquoted("3"))]
    );
    assert_eq!(s.children.len(), 1);
    match &s.children[0] {
        Block::Section(c) => assert_eq!(c.tag, "inner"),
        Block::Narrative { .. } => panic!("expected Section"),
    }
}

#[test]
fn written_fields_are_read_back_values_first_then_nested() {
    let mut s = new_section("document".to_string());
    let mut inner = new_section("struct".to_string());
    add_field(&mut inner, "x".to_string(), Outcome::Value(unquoted("1")));
    add_field(&mut s, "inner".to_string(), Outcome::SubSection(inner));
    add_field(&mut s, "a".to_string(), Outcome::Value(unquoted("A")));
    add_field(&mut s, "b".to_string(), Outcome::Value(Value::List(vec![])));
    s.children.push(Block::Narrative { text: "note".into(), inline_tags: vec![], span: Span::synthetic() });
    let entries = section_entries_of(s);
    let keys: Vec<&str> = entries.iter().map(|(k, _)| k.as_str()).collect();
    assert_eq!(keys, vec!["a", "b", "inner"]);
    assert!(matches!(&entries[0].1, FieldSource::Value(v) if *v == unquoted("A")));
    assert!(matches!(&entries[1].1, FieldSource::Value(Value::List(items)) if items.is_empty()));
    match &entries[2].1 {
        FieldSource::Section(c) => assert_eq!(c.attributes, vec![("x".to_string(), unquoted("1"))]),
        FieldSource::Value(_) => panic!("expected a section entry"),
    }
}

#[test]
fn written_fields_read_back_through_text() {
    let mut s = new_section("document".to_string());
    add_field(&mut s, "title".to_string(), Outcome::Value(Value::Quoted("Hi there".into())));
    let mut inner = new_section("struct".to_string());
    add_field(&mut inner, "count".to_string(), Outcome::Value(unquoted("42")));
    add_field(&mut s, "inner".to_string(), Outcome::SubSection(inner));
    let doc = document_of_section(s);
    let text = ftai::to_string_doc(&doc).unwrap();
    assert_eq!(text, "@ftai v2.0\n@document\ntitle: \"Hi there\"\n  @inner\n  count: 42\n  @end\n@end\n");
    let parsed = ftai::parse(&text).unwrap();
    let root = first_section(parsed, "no section").unwrap();
    let entries = section_entries_of(root);
    assert_eq!(entries.len(), 2);
    assert_eq!(entries[0].0, "title");
    assert!(matches!(&entries[0].1, FieldSource::Value(Value::Quoted(t)) if t == "Hi there"));
    assert_eq!(entries[1].0, "inner");
    match &entries[1].1 {
        FieldSource::Section(c) => assert_eq!(c.attributes, vec![("count".to_string(), unquoted("42"))]),
        FieldSource::Value(_) => panic!("expected a section entry"),
    }
}

#[test]
fn outcomes_become_values_or_errors() {
    assert_eq!(value_of(Outcome::Value(unquoted("v"))).unwrap(), unquoted("v"));
    assert_eq!(value_of(Outcome::Skipped).unwrap(), unquoted(""));
    match value_of(Outcome::SubSection(new_section("x".into()))) {
        Err(Error::Serde(m)) => assert_eq!(m, "expected scalar value, got struct"),
        other => panic!("unexpected {other:?}"),
    }
    assert!(matches!(into_outcome(None), Outcome::Skipped));
    assert!(matches!(into_outcome(Some(Outcome::Value(unquoted("1")))), Outcome::Value(_)));
    assert_eq!(key_of(Value::Quoted("k".into())).unwrap(), "k");
    assert_eq!(key_of(unquoted("k2")).unwrap(), "k2");
    match key_of(Value::List(vec![])) {
        Err(Error::Serde(m)) => assert_eq!(m, "map keys must be scalars, got list"),
        other => panic!("unexpected {other:?}"),
    }
    match unsupported_top_level("bool") {
        Error::Serde(m) => assert_eq!(
            m,
            "top-level FTAI value must be a struct, map, or named variant; got bool"
        ),
        other => panic!("unexpected {other:?}"),
    }
}

#[test]
fn scalar_text_is_read_back() {
    assert_eq!(value_text(&Value::Quoted("q".into())), "q");
    assert_eq!(value_text(&unquoted("u")), "u");
    assert_eq!(value_text(&Value::List(vec![unquoted("x")])), "");
    assert!(is_none_value(&unquoted("")));
    assert!(is_none_value(&Value::Quoted(String::new())));
    assert!(!is_none_value(&Value::List(vec![])));
    assert!(!is_none_value(&unquoted("x")));
    assert!(bool_of_text(" yes ").unwrap());
    assert!(bool_of_text("TRUE").unwrap());
    assert!(!bool_of_text("0").unwrap());
    assert!(!bool_of_text("False").unwrap());
    match bool_of_text(" maybe ") {
        Err(Error::Serde(m)) => assert_eq!(m, "not a bool: \"maybe\""),
        other => panic!("unexpected {other:?}"),
    }
    assert_eq!(char_of_text("é").unwrap(), 'é');
    match char_of_text("ab") {
        Err(Error::Serde(m)) => assert_eq!(m, "not a char: \"ab\""),
        other => panic!("unexpected {other:?}"),
    }
}

#[test]
fn newtype_variants_read_their_value_attribute() {
    let s = Section {
        tag: "wrapped".into(),
        attributes: vec![("other".into(), unquoted("1")), ("value".into(), unquoted("2")), ("value".into(), unquoted("3"))],
        children: vec![],
        span: Span::synthetic(),
    };
    assert_eq!(newtype_value(s).unwrap(), unquoted("2"));
    let empty = new_section("w".into());
    match newtype_value(empty) {
        Err(Error::Serde(m)) => assert_eq!(m, "newtype variant missing 'value' attribute"),
        other => panic!("unexpected {other:?}"),
    }
}

#[test]
fn the_first_top_level_section_is_the_root() {
    let doc = Document {
        version: FtaiVersion::V2_0,
        schema: None,
        blocks: vec![
            Block::Narrative { text: "intro".into(), inline_tags: vec![], span: Span::synthetic() },
            Block::Section(new_section("first".into())),
            Block::Section(new_section("second".into())),
        ],
    };
    assert_eq!(first_section(doc, "none").unwrap().tag, "first");
    match first_section(Document::default(), "FTAI document had no top-level section") {
        Err(Error::Serde(m)) => assert_eq!(m, "FTAI document had no top-level section"),
        other => panic!("unexpected {other:?}"),
    }
    assert_eq!(finish(None), Document::default());
}

#[test]
fn variant_names_are_matched_without_case() {
    assert_eq!(fold_variant_case("login", &["Login", "Logout"]), "Login");
    assert_eq!(fold_variant_case("LOGOUT", &["Login", "Logout"]), "Logout");
    assert_eq!(fold_variant_case("other", &["Login", "Logout"]), "other");
}
