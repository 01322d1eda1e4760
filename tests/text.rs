use deno_emit::text::{strip_bom, transform_json_source, trim, decimal_text, BOM_CHAR};

#[test]
fn strip_bom_with_bom() {
    let text = format!("{}text", BOM_CHAR);
    assert_eq!(strip_bom(&text), "text");
}

#[test]
fn strip_bom_without_bom() {
    let text = "text";
    assert_eq!(strip_bom(text), "text");
}

#[test]
fn transform_json_source_simple() {
    let text = r#"{"foo": "bar"}"#;
    assert_eq!(transform_json_source(text), r#"export default JSON.parse("{\"foo\": \"bar\"}");"#);
}

#[test]
fn transform_json_source_escape_newline() {
    let text = r#"{"foo": "bar\nbaz"}"#;
    assert_eq!(transform_json_source(text), r#"export default JSON.parse("{\"foo\": \"bar\\nbaz\"}");"#);
}

#[test]
fn transform_json_source_escape_quotes() {
    let text = r#"{"foo": "bar \"baz\" 'qux' `quaz`"}"#;
    assert_eq!(
        transform_json_source(text),
        r#"export default JSON.parse("{\"foo\": \"bar \\\"baz\\\" 'qux' `quaz`\"}");"#
    );
}

#[test]
fn transform_json_source_not_escape_string_interpolation() {
    let text = r#"{"foo": "bar ${baz}"}"#;
    assert_eq!(transform_json_source(text), r#"export default JSON.parse("{\"foo\": \"bar ${baz}\"}");"#);
}

#[test]
fn transform_json_source_trims_trailing_newlines_and_escapes_controls() {
    let text = "{\"a\": \"\u{1}\t\"}\n\n";
    assert_eq!(
        transform_json_source(text),
        "export default JSON.parse(\"{\\\"a\\\": \\\"\\u0001\\t\\\"}\");"
    );
}

#[test]
fn trim_removes_unicode_white_space() {
    assert_eq!(trim("\u{3000} a b \n\t"), "a b");
    assert_eq!(trim("   "), "");
}

#[test]
fn decimal_text_writes_numbers() {
    assert_eq!(decimal_text(0), "0");
    assert_eq!(decimal_text(907), "907");
}
