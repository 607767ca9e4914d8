use prompt_bom::error::AppError;
use prompt_bom::json::JsonValue;
use prompt_bom::repos::jsonl_reader::read_records;

fn number(n: &str) -> JsonValue {
    JsonValue::Number(n.to_string())
}

#[test]
fn skips_blank_lines_and_yields_parsed_values() {
    let input = "\n{\"a\":1}\n   \n{\"b\":2}\n";
    let values: Vec<JsonValue> = read_records(input.as_bytes())
        .into_iter()
        .collect::<Result<_, AppError>>()
        .unwrap();
    assert_eq!(values.len(), 2);
    assert_eq!(values[0].get("a"), Some(&number("1")));
    assert_eq!(values[1].get("b"), Some(&number("2")));
}

#[test]
fn malformed_line_surfaces_with_line_number() {
    let input = "{\"a\":1}\nnot-json\n{\"b\":2}\n";
    let results = read_records(input.as_bytes());
    assert_eq!(results.len(), 3);
    assert!(results[0].is_ok());
    let err = results[1].as_ref().unwrap_err().message();
    assert!(err.contains("line 2"), "expected line number in error: {err}");
    assert!(results[2].is_ok());
}

#[test]
fn invalid_utf8_line_is_an_io_error() {
    let input = b"{\"a\":1}\n\xff\xfe\n{\"b\":2}";
    let results = read_records(input);
    assert_eq!(results.len(), 3);
    assert_eq!(
        results[1].as_ref().unwrap_err(),
        &AppError::Io("stream did not contain valid UTF-8".to_string())
    );
    assert!(results[2].is_ok());
}

#[test]
fn crlf_and_unicode_white_space_are_trimmed() {
    let input = "\u{a0}{\"a\":true}\u{3000}\r\n\r\n";
    let results = read_records(input.as_bytes());
    assert_eq!(results.len(), 1);
    let v = results[0].as_ref().unwrap();
    assert_eq!(v.get_bool("a"), Some(true));
}

#[test]
fn line_numbers_count_blank_lines() {
    let input = "\n\n{oops\n";
    let results = read_records(input.as_bytes());
    assert_eq!(results.len(), 1);
    assert!(results[0].as_ref().unwrap_err().message().starts_with("parse: line 3: "));
}

#[test]
fn records_hold_the_parsed_tree() {
    let results = read_records(br#"{"s":"x","n":null,"a":[1,false],"o":{"k":"v"}}"#);
    assert_eq!(results.len(), 1);
    let v = results[0].as_ref().unwrap();
    assert_eq!(v.get_str("s").map(|s| s.as_str()), Some("x"));
    assert_eq!(v.get("n"), Some(&JsonValue::Null));
    let a = v.get_array("a").unwrap();
    assert_eq!(a.len(), 2);
    assert_eq!(a[1], JsonValue::Bool(false));
    assert_eq!(v.get("o").unwrap().get_str("k").map(|s| s.as_str()), Some("v"));
    assert_eq!(v.get("missing"), None);
    assert!(read_records(b"[1,")[0].is_err());
    assert_eq!(JsonValue::Str("x".into()).get("s"), None);
}
