use rust_json_parser::{parse_json, JsonError, JsonNumber, JsonObject, JsonParser, JsonValue};

type Result<T> = std::result::Result<T, JsonError>;

fn parser_num(x: f64) -> JsonNumber {
    JsonNumber::parse_literal(&format!("{}", x)).unwrap()
}

fn parser_f64(n: &JsonNumber) -> f64 {
    n.to_literal().parse().unwrap()
}

#[test]
fn test_parse_string() -> Result<()> {
    let result = parse_json(r#""hello world""#)?;
    assert_eq!(result, JsonValue::String("hello world".to_string()));
    Ok(())
}

#[test]
fn test_parse_number() -> Result<()> {
    let result = parse_json("42.5")?;
    assert_eq!(result, JsonValue::Number(parser_num(42.5)));

    let result = parse_json("0")?;
    assert_eq!(result, JsonValue::Number(parser_num(0.0)));

    let result = parse_json("-10")?;
    assert_eq!(result, JsonValue::Number(parser_num(-10.0)));
    Ok(())
}

#[test]
fn test_parse_boolean() -> Result<()> {
    let result = parse_json("true")?;
    assert_eq!(result, JsonValue::Boolean(true));

    let result = parse_json("false")?;
    assert_eq!(result, JsonValue::Boolean(false));
    Ok(())
}

#[test]
fn test_parse_null() -> Result<()> {
    let result = parse_json("null")?;
    assert_eq!(result, JsonValue::Null);
    Ok(())
}

#[test]
fn test_parse_error_empty() {
    let result = parse_json("");
    assert!(result.is_err());
    match result {
        Err(JsonError::UnexpectedEndOfInput { expected, position }) => {
            assert_eq!(expected, "JSON value");
            assert_eq!(position, 0);
        }
        _ => panic!("Expected UnexpectedEndOfInput error"),
    }
}

#[test]
fn test_parse_error_invalid_token() {
    let result = parse_json("@");
    assert!(result.is_err());
}

#[test]
fn test_parse_with_whitespace() -> Result<()> {
    let result = parse_json(" 42 ")?;
    assert_eq!(result, JsonValue::Number(parser_num(42.0)));

    let result = parse_json("\n\ttrue\n")?;
    assert_eq!(result, JsonValue::Boolean(true));
    Ok(())
}

#[test]
fn test_result_pattern_matching() {
    let result = parse_json("42");
    match result {
        Ok(JsonValue::Number(n)) => assert_eq!(parser_f64(&n), 42.0),
        _ => panic!("Expected successful number parse"),
    }

    let result = parse_json("@invalid@");
    match result {
        Err(JsonError::UnexpectedToken { .. }) => {}
        _ => panic!("Expected UnexpectedToken error"),
    }
}

#[test]
fn test_parse_string_with_newline() {
    let mut parser = JsonParser::new(r#""hello\nworld""#).unwrap();
    let result = parser.parse().unwrap();
    assert_eq!(result, JsonValue::String("hello\nworld".to_string()));
}

#[test]
fn test_parse_string_with_unicode() {
    let mut parser = JsonParser::new(r#""\u0048\u0069""#).unwrap();
    let result = parser.parse().unwrap();
    assert_eq!(result, JsonValue::String("Hi".to_string()));
}

#[test]
fn test_parse_complex_escapes() {
    let mut parser = JsonParser::new(r#""tab\there\nnewline""#).unwrap();
    let result = parser.parse().unwrap();
    assert_eq!(result, JsonValue::String("tab\there\nnewline".to_string()));
}

#[test]
fn test_parse_empty_array() {
    let value = parse_json("[]").unwrap();
    assert_eq!(value, JsonValue::Array(vec![]));
}

#[test]
fn test_parse_array_single() {
    let value = parse_json("[1]").unwrap();
    assert_eq!(value, JsonValue::Array(vec![JsonValue::Number(parser_num(1.0))]));
}

#[test]
fn test_parse_array_multiple() {
    let value = parse_json("[1, 2, 3]").unwrap();
    let arr = value.as_array().unwrap();
    assert_eq!(arr.len(), 3);
}

#[test]
fn test_parse_array_mixed_types() {
    let value = parse_json(r#"[1, "two", true, null]"#).unwrap();
    let arr = value.as_array().unwrap();
    assert_eq!(arr.len(), 4);
    assert_eq!(arr[0], JsonValue::Number(parser_num(1.0)));
    assert_eq!(arr[1], JsonValue::String("two".to_string()));
    assert_eq!(arr[2], JsonValue::Boolean(true));
    assert_eq!(arr[3], JsonValue::Null);
}

#[test]
fn test_parse_empty_object() {
    let value = parse_json("{}").unwrap();
    assert_eq!(value, JsonValue::Object(JsonObject::new()));
}

#[test]
fn test_parse_object_single_key() {
    let value = parse_json(r#"{"key": "value"}"#).unwrap();
    let mut expected = JsonObject::new();
    expected.insert("key".to_string(), JsonValue::String("value".to_string()));
    assert_eq!(value, JsonValue::Object(expected));
}

#[test]
fn test_parse_object_multiple_keys() {
    let value = parse_json(r#"{"name": "Alice", "age": 30}"#).unwrap();
    if let JsonValue::Object(obj) = value {
        assert_eq!(
            obj.get("name"),
            Some(&JsonValue::String("Alice".to_string()))
        );
        assert_eq!(obj.get("age"), Some(&JsonValue::Number(parser_num(30.0))));
    } else {
        panic!("Expected object");
    }
}

#[test]
fn test_parse_nested_object() {
    let value = parse_json(r#"{"outer": {"inner": 1}}"#).unwrap();
    if let JsonValue::Object(outer) = value {
        if let Some(JsonValue::Object(inner)) = outer.get("outer") {
            assert_eq!(inner.get("inner"), Some(&JsonValue::Number(parser_num(1.0))));
        } else {
            panic!("Expected nested object");
        }
    } else {
        panic!("Expected object");
    }
}

#[test]
fn test_parse_array_in_object() {
    let value = parse_json(r#"{"items": [1, 2, 3]}"#).unwrap();
    if let JsonValue::Object(obj) = value {
        if let Some(JsonValue::Array(arr)) = obj.get("items") {
            assert_eq!(arr.len(), 3);
        } else {
            panic!("Expected array");
        }
    } else {
        panic!("Expected object");
    }
}

#[test]
fn test_parse_object_in_array() {
    let value = parse_json(r#"[{"a": 1}, {"b": 2}]"#).unwrap();
    if let JsonValue::Array(arr) = value {
        assert_eq!(arr.len(), 2);
    } else {
        panic!("Expected array");
    }
}

#[test]
fn test_error_unclosed_array() {
    let result = parse_json("[1, 2");
    assert!(result.is_err());
}

#[test]
fn test_error_unclosed_object() {
    let result = parse_json(r#"{"key": 1"#);
    assert!(result.is_err());
}

#[test]
fn test_error_trailing_comma_array() {
    let result = parse_json("[1, 2,]");
    assert!(result.is_err());
}

#[test]
fn test_error_trailing_comma_object() {
    let result = parse_json(r#"{"a": 1,}"#);
    assert!(result.is_err());
}

#[test]
fn test_error_missing_colon() {
    let result = parse_json(r#"{"key" 1}"#);
    assert!(result.is_err());
}

#[test]
fn test_error_invalid_key() {
    let result = parse_json(r#"{123: "value"}"#);
    assert!(result.is_err());
}

#[test]
fn test_error_missing_comma_array() {
    let result = parse_json("[1 2 3]");
    assert!(result.is_err());
}

#[test]
fn test_error_missing_comma_object() {
    let result = parse_json(r#"{"a": 1 "b": 2}"#);
    assert!(result.is_err());
}

// Exact errors of each parser failure.

fn unexpected(expected: &str, found: &str, position: usize) -> JsonError {
    JsonError::UnexpectedToken {
        expected: expected.to_string(),
        found: found.to_string(),
        position,
    }
}

fn end_of_input(expected: &str, position: usize) -> JsonError {
    JsonError::UnexpectedEndOfInput { expected: expected.to_string(), position }
}

#[test]
fn exact_errors_of_arrays() {
    assert_eq!(parse_json("[1, 2").unwrap_err(), end_of_input("] or ,", 5));
    assert_eq!(parse_json("[1, 2,]").unwrap_err(), unexpected("JSON value", "]", 6));
    assert_eq!(parse_json("[1 2 3]").unwrap_err(), unexpected("] or ,", "2", 3));
    assert_eq!(parse_json("[,]").unwrap_err(), unexpected("JSON value", ",", 1));
    assert_eq!(parse_json("[").unwrap_err(), end_of_input("JSON value", 1));
    assert_eq!(parse_json("[1,   ").unwrap_err(), end_of_input("JSON value", 6));
}

#[test]
fn exact_errors_of_objects() {
    assert_eq!(parse_json(r#"{"key": 1"#).unwrap_err(), end_of_input("} or ,", 9));
    assert_eq!(parse_json(r#"{"a": 1,}"#).unwrap_err(), unexpected("string key", "}", 8));
    assert_eq!(parse_json(r#"{"key" 1}"#).unwrap_err(), unexpected(":", "1", 7));
    assert_eq!(parse_json(r#"{123: "value"}"#).unwrap_err(), unexpected("string key", "123", 1));
    assert_eq!(
        parse_json(r#"{"a": 1 "b": 2}"#).unwrap_err(),
        unexpected("} or ,", "\"b\"", 8)
    );
    assert_eq!(parse_json(r#"{"a""#).unwrap_err(), end_of_input(":", 4));
    assert_eq!(parse_json("{").unwrap_err(), end_of_input("string key", 1));
    assert_eq!(parse_json("}").unwrap_err(), unexpected("JSON value", "}", 0));
}

#[test]
fn errors_name_tokens_by_their_text_at_byte_offsets() {
    assert_eq!(parse_json(",").unwrap_err(), unexpected("JSON value", ",", 0));
    assert_eq!(parse_json("[\"é\" 1.50]").unwrap_err(), unexpected("] or ,", "1.50", 6));
    assert_eq!(
        parse_json(r#"{"k\n": true false}"#).unwrap_err(),
        unexpected("} or ,", "false", 13)
    );
    assert_eq!(parse_json("[\"é\",").unwrap_err(), end_of_input("JSON value", 6));
}

#[test]
fn duplicate_keys_keep_the_last_value() {
    let value = parse_json(r#"{"a": 1, "a": 2}"#).unwrap();
    let obj = value.as_object().unwrap();
    assert_eq!(obj.len(), 1);
    assert_eq!(obj.get("a"), Some(&JsonValue::Number(parser_num(2.0))));
}

#[test]
fn key_order_does_not_matter() {
    let a = parse_json(r#"{"x": 1, "y": [true, null]}"#).unwrap();
    let b = parse_json(r#"{"y": [true, null], "x": 1.0}"#).unwrap();
    assert_eq!(a, b);
}

#[test]
fn tokens_after_the_value_are_an_error() {
    assert_eq!(parse_json("1 2").unwrap_err(), unexpected("end of input", "2", 2));
    assert_eq!(parse_json("[1] ]").unwrap_err(), unexpected("end of input", "]", 4));
    let mut parser = JsonParser::new("true false").unwrap();
    assert_eq!(parser.parse().unwrap_err(), unexpected("end of input", "false", 5));
    assert_eq!(parse_json(" [1] \n").unwrap(), JsonValue::Array(vec![JsonValue::Number(parser_num(1.0))]));
}

#[test]
fn tokenizer_errors_reach_the_parser() {
    assert_eq!(
        parse_json("\"abc").unwrap_err(),
        JsonError::UnexpectedEndOfInput { expected: "closing quote".to_string(), position: 4 }
    );
    assert_eq!(
        JsonParser::new("[1.2.3]").err().unwrap(),
        JsonError::InvalidNumber { value: "1.2.3".to_string(), position: 1 }
    );
}

#[test]
fn nested_values() {
    let v = parse_json(r#"{"a": [1, {"b": [[], {}]}], "c": "d"}"#).unwrap();
    let a = v.get("a").unwrap();
    assert_eq!(a.get_index(0), Some(&JsonValue::Number(parser_num(1.0))));
    let inner = a.get_index(1).unwrap();
    let b = inner.get("b").unwrap();
    assert_eq!(b.get_index(0), Some(&JsonValue::Array(vec![])));
    assert_eq!(b.get_index(1), Some(&JsonValue::Object(JsonObject::new())));
    assert_eq!(v.get("c").unwrap().as_str(), Some("d"));
}

#[test]
fn whitespace_around_a_text_changes_nothing() {
    for text in ["42", "true", "null", "\"s\"", "[1, {\"a\": []}]", "-1.5e3"] {
        let plain = parse_json(text).unwrap();
        assert_eq!(parse_json(&format!(" \n\t{}\r\n ", text)).unwrap(), plain, "text {}", text);
    }
    assert_eq!(
        parse_json("  @").unwrap_err(),
        JsonError::UnexpectedToken {
            expected: "valid JSON token".to_string(),
            found: "@".to_string(),
            position: 2,
        }
    );
}

#[test]
fn leading_whitespace_moves_errors_by_its_bytes() {
    assert_eq!(parse_json("[1 2]").unwrap_err(), unexpected("] or ,", "2", 3));
    assert_eq!(parse_json("\u{a0}[1 2]").unwrap_err(), unexpected("] or ,", "2", 5));
    assert_eq!(parse_json("[1,").unwrap_err(), end_of_input("JSON value", 3));
    assert_eq!(parse_json("\u{3000}[1,").unwrap_err(), end_of_input("JSON value", 6));
    assert_eq!(
        parse_json("\u{3000}\"\\q\"").unwrap_err(),
        JsonError::InvalidEscape { char: 'q', position: 5 }
    );
}

#[test]
fn written_values_parse_to_what_they_denote() {
    let v = parse_json(r#"[{"a": [1, {"b": null}], "a": "x"}, [], {}, [[true]]]"#).unwrap();
    let mut inner = JsonObject::new();
    inner.insert("a".to_string(), JsonValue::String("x".to_string()));
    assert_eq!(
        v,
        JsonValue::Array(vec![
            JsonValue::Object(inner),
            JsonValue::Array(vec![]),
            JsonValue::Object(JsonObject::new()),
            JsonValue::Array(vec![JsonValue::Array(vec![JsonValue::Boolean(true)])]),
        ])
    );
}
