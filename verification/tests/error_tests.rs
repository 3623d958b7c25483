use rust_json_parser::JsonError;

#[test]
fn test_error_creation() {
    let error = JsonError::UnexpectedToken {
        expected: "number".to_string(),
        found: "@".to_string(),
        position: 5,
    };
    assert!(format!("{:?}", error).contains("UnexpectedToken"));
}

#[test]
fn test_error_display() {
    let error = JsonError::UnexpectedToken {
        expected: "valid JSON".to_string(),
        found: "@".to_string(),
        position: 0,
    };
    let message = error.message();
    assert!(message.contains("position 0"));
    assert!(message.contains("valid JSON"));
    assert!(message.contains("@"));
}

#[test]
fn test_error_variants() {
    let token_error = JsonError::UnexpectedToken {
        expected: "number".to_string(),
        found: "x".to_string(),
        position: 3,
    };
    let eof_error = JsonError::UnexpectedEndOfInput {
        expected: "closing quote".to_string(),
        position: 10,
    };
    let num_error = JsonError::InvalidNumber {
        value: "12.34.56".to_string(),
        position: 0,
    };
    let _ = format!("{:?}", token_error);
    let _ = format!("{:?}", eof_error);
    let _ = format!("{:?}", num_error);
}

#[test]
fn error_messages_of_each_variant() {
    let e = JsonError::UnexpectedToken {
        expected: "valid JSON".to_string(),
        found: "@".to_string(),
        position: 0,
    };
    assert_eq!(e.message(), "Unexpected token at position 0: expected valid JSON, found @");
    let e = JsonError::UnexpectedEndOfInput {
        expected: "closing quote".to_string(),
        position: 10,
    };
    assert_eq!(e.message(), "Unexpected end of input at position 10: expected closing quote");
    let e = JsonError::InvalidNumber { value: "12.34.56".to_string(), position: 123 };
    assert_eq!(e.message(), "Invalid number '12.34.56' at position 123");
    let e = JsonError::InvalidEscape { char: 'q', position: 2 };
    assert_eq!(e.message(), "Invalid escape '\\q' at position 2");
    let e = JsonError::InvalidUnicode { sequence: "12".to_string(), position: 7 };
    assert_eq!(e.message(), "Invalid unicode escape '12' at position 7");
    assert_eq!(e.position(), 7);
}

#[test]
fn error_message_of_large_position() {
    let e = JsonError::UnexpectedEndOfInput { expected: "x".to_string(), position: 1234567890 };
    assert_eq!(e.message(), "Unexpected end of input at position 1234567890: expected x");
}

#[test]
fn python_messages() {
    let e = JsonError::UnexpectedToken {
        expected: "valid JSON token".to_string(),
        found: "@".to_string(),
        position: 0,
    };
    assert_eq!(e.python_message(), "JSON parse error at position 0: expected valid JSON token, found '@'");
    let e = JsonError::InvalidNumber { value: "1e".to_string(), position: 12 };
    assert_eq!(e.python_message(), "Invalid number '1e' at position 12");
    assert_eq!(e.python_message(), e.message());
}
