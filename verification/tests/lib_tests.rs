use rust_json_parser::{parse_json, JsonError, JsonNumber, JsonValue};

fn lib_num(x: f64) -> JsonNumber {
    JsonNumber::parse_literal(&format!("{}", x)).unwrap()
}

#[test]
fn test_integration() {
    assert_eq!(parse_json("42").unwrap(), JsonValue::Number(lib_num(42.0)));
    assert_eq!(parse_json("true").unwrap(), JsonValue::Boolean(true));
    assert_eq!(parse_json("null").unwrap(), JsonValue::Null);
    assert_eq!(
        parse_json(r#""hello""#).unwrap(),
        JsonValue::String("hello".to_string())
    );
}

#[test]
fn test_error_propagation() {
    let result = parse_json("@invalid@");
    assert!(result.is_err());

    match result {
        Err(JsonError::UnexpectedToken {
            expected,
            found,
            position,
        }) => {
            assert_eq!(expected, "valid JSON token");
            assert_eq!(found, "@");
            assert_eq!(position, 0);
        }
        _ => panic!("Expected UnexpectedToken error"),
    }
}

#[test]
fn doc_example_object_is_parsed() {
    let value = parse_json(r#"{"name": "Levi", "year": 2026}"#).unwrap();
    assert!(matches!(value, JsonValue::Object(_)));
}

#[test]
fn doc_example_bad_key_is_unexpected_token() {
    let err = parse_json("{bad}").unwrap_err();
    assert!(matches!(err, JsonError::UnexpectedToken { .. }));
}
