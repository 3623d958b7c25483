use rust_json_parser::{JsonNumber, JsonObject, JsonValue};

fn val_num(x: f64) -> JsonNumber {
    JsonNumber::parse_literal(&format!("{}", x)).unwrap()
}

fn as_f64(v: &JsonValue) -> Option<f64> {
    v.as_number().map(|n| n.to_literal().parse().unwrap())
}

#[test]
fn test_json_value_creation() {
    let null_val = JsonValue::Null;
    let bool_val = JsonValue::Boolean(true);
    let num_val = JsonValue::Number(val_num(42.5));
    let str_val = JsonValue::String("hello".to_string());
    assert!(null_val.is_null());
    assert_eq!(bool_val.as_bool(), Some(true));
    assert_eq!(as_f64(&num_val), Some(42.5));
    assert_eq!(str_val.as_str(), Some("hello"));
}

#[test]
fn test_json_value_accessors() {
    let value = JsonValue::String("test".to_string());
    assert_eq!(value.as_str(), Some("test"));
    assert_eq!(as_f64(&value), None);
    assert_eq!(value.as_bool(), None);
    assert!(!value.is_null());
    let value = JsonValue::Number(val_num(42.0));
    assert_eq!(as_f64(&value), Some(42.0));
    assert_eq!(value.as_str(), None);
    let value = JsonValue::Boolean(true);
    assert_eq!(value.as_bool(), Some(true));
    let value = JsonValue::Null;
    assert!(value.is_null());
}

#[test]
fn test_json_value_equality() {
    assert_eq!(JsonValue::Null, JsonValue::Null);
    assert_eq!(JsonValue::Boolean(true), JsonValue::Boolean(true));
    assert_eq!(JsonValue::Number(val_num(42.0)), JsonValue::Number(val_num(42.0)));
    assert_eq!(
        JsonValue::String("test".to_string()),
        JsonValue::String("test".to_string())
    );
    assert_ne!(JsonValue::Null, JsonValue::Boolean(false));
    assert_ne!(JsonValue::Number(val_num(1.0)), JsonValue::Number(val_num(2.0)));
}

#[test]
fn test_array_accessor() {
    let value = JsonValue::Array(vec![
        JsonValue::Number(val_num(1.0)),
        JsonValue::Number(val_num(2.0)),
        JsonValue::Number(val_num(3.0)),
    ]);
    assert!(value.as_array().is_some());
    assert_eq!(value.as_array().unwrap().len(), 3);
    assert!(JsonValue::Null.as_array().is_none());
}

#[test]
fn test_array_get_index() {
    let value = JsonValue::Array(vec![
        JsonValue::Number(val_num(10.0)),
        JsonValue::Number(val_num(20.0)),
        JsonValue::Number(val_num(30.0)),
    ]);
    assert_eq!(value.get_index(1), Some(&JsonValue::Number(val_num(20.0))));
    assert_eq!(value.get_index(5), None);
}

#[test]
fn test_object_accessor() {
    let mut map = JsonObject::new();
    map.insert("name".to_string(), JsonValue::String("Alice".to_string()));
    let value = JsonValue::Object(map);
    assert!(value.as_object().is_some());
    assert_eq!(value.as_object().unwrap().len(), 1);
    assert!(JsonValue::Null.as_object().is_none());
}

#[test]
fn test_object_get() {
    let mut map = JsonObject::new();
    map.insert("name".to_string(), JsonValue::String("Alice".to_string()));
    map.insert("age".to_string(), JsonValue::Number(val_num(30.0)));
    let value = JsonValue::Object(map);
    assert_eq!(
        value.get("name"),
        Some(&JsonValue::String("Alice".to_string()))
    );
    assert_eq!(value.get("missing"), None);
    assert_eq!(JsonValue::Null.get("key"), None);
}

#[test]
fn object_insert_replaces_and_orders() {
    let mut a = JsonObject::new();
    a.insert("b".to_string(), JsonValue::Null);
    a.insert("a".to_string(), JsonValue::Boolean(true));
    a.insert("ab".to_string(), JsonValue::Boolean(false));
    a.insert("b".to_string(), JsonValue::Boolean(true));
    assert_eq!(a.len(), 3);
    assert!(!a.is_empty());
    assert!(a.contains_key("ab"));
    assert!(!a.contains_key("c"));
    let keys: Vec<&str> = a.entries().iter().map(|(k, _)| k.as_str()).collect();
    assert_eq!(keys, vec!["a", "ab", "b"]);
    assert_eq!(a.get("b"), Some(&JsonValue::Boolean(true)));
    let mut b = JsonObject::new();
    b.insert("ab".to_string(), JsonValue::Boolean(false));
    b.insert("b".to_string(), JsonValue::Boolean(true));
    b.insert("a".to_string(), JsonValue::Boolean(true));
    assert_eq!(a, b);
    assert_eq!(a.clone(), b);
}

#[test]
fn numbers_read_back() {
    let n = JsonNumber::parse_literal("-1.2300").unwrap();
    assert!(n.is_negative());
    assert_eq!(n.integer_digits(), &vec!['1']);
    assert_eq!(n.fraction_digits(), &vec!['2', '3']);
    assert_eq!(n.to_literal(), "-1.23");
    assert_eq!(n.to_debug_text(), "-1.23");
    assert_eq!(JsonNumber::parse_literal("-0.0").unwrap().to_literal(), "-0");
    assert_eq!(JsonNumber::parse_literal("-0").unwrap().to_debug_text(), "-0.0");
    assert_eq!(JsonNumber::parse_literal("0").unwrap().to_debug_text(), "0.0");
    assert_eq!(JsonNumber::parse_literal("7").unwrap().to_debug_text(), "7.0");
    assert!(JsonNumber::parse_literal("").is_none());
    assert!(JsonNumber::parse_literal(".").is_none());
    assert!(JsonNumber::parse_literal("-").is_none());
    assert!(JsonNumber::parse_literal("1-").is_none());
    assert!(JsonNumber::parse_literal("1.2.3").is_none());
    assert!(JsonNumber::parse_literal(".5").is_none());
    assert!(JsonNumber::parse_literal("5.").is_none());
    assert!(JsonNumber::parse_literal("01").is_none());
}

#[test]
fn accessors_on_wrong_kinds() {
    let v = JsonValue::Array(vec![JsonValue::Null]);
    assert_eq!(v.get("a"), None);
    assert_eq!(JsonValue::Boolean(true).get_index(0), None);
    assert_eq!(v.as_str(), None);
    assert!(v.as_number().is_none());
    assert!(v.as_object().is_none());
    assert_eq!(v.clone(), v);
}

#[test]
fn literal_round_trip() {
    for text in ["0", "-0", "-1.5", "120", "0.001", "-98765.4321"] {
        let n = JsonNumber::parse_literal(text).unwrap();
        assert_eq!(n.to_literal(), text);
        assert_eq!(JsonNumber::parse_literal(&n.to_literal()).unwrap(), n);
    }
}
