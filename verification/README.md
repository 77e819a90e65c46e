# ftai

A parser and serializer for FTAI v2.0 documents, verified with Verus, plus a
`serde` adapter that reads and writes any `Serialize` / `Deserialize` type as
FTAI text.

## Layout

- `src/` — the verified library.
  - `lexer.rs`: text to tokens, specified as a state machine (`lex`); input
    validation (null bytes, control characters, tag names over 256 characters).
  - `grammar.rs`: the grammar as functions over token streams (`parse_spec`,
    `parse_lenient_spec`), with the nesting limit.
  - `parser.rs`: the executable parser, proved to compute exactly the grammar.
  - `serializer.rs`: a document to canonical text (`document_text`).
  - `ast.rs`, `error.rs`: the document and error types and their models.
  - `adapter.rs`: the document shapes behind the `serde` adapter.
  - `text.rs`: character and string helpers.
  - `roundtrip.rs`, `laws.rs`: properties of the library as a whole, among
    them that a canonical document written out as text parses back to itself.
- `app/` — the `serde` `Serializer` / `Deserializer` implementations, the
  error type with `Display`, and `serde`-enabled copies of the document types.
- `tests/` — unit, conformance and security tests.

## Use

```rust
let doc = ftai::parse("@ftai v2.0\n@document\ntitle: \"Hi\"\n@end\n")?;
let text = ftai::to_string_doc(&doc)?;
```
