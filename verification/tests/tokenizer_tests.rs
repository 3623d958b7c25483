use rust_json_parser::{tokenize, JsonError, JsonNumber, Token, Tokenizer};

type Result<T> = std::result::Result<T, JsonError>;

fn tok_num(x: f64) -> Token {
    Token::Number(JsonNumber::parse_literal(&format!("{}", x)).unwrap())
}

#[test]
fn test_empty_braces() -> Result<()> {
    let tokens = tokenize("{}")?;
    assert_eq!(tokens.len(), 2);
    assert_eq!(tokens[0], Token::LeftBrace);
    assert_eq!(tokens[1], Token::RightBrace);
    Ok(())
}

#[test]
fn test_simple_string() -> Result<()> {
    let tokens = tokenize(r#""hello""#)?;
    assert_eq!(tokens.len(), 1);
    assert_eq!(tokens[0], Token::String("hello".to_string()));
    Ok(())
}

#[test]
fn test_number() -> Result<()> {
    let tokens = tokenize("42")?;
    assert_eq!(tokens.len(), 1);
    assert_eq!(tokens[0], tok_num(42.0));
    Ok(())
}

#[test]
fn test_tokenize_string() -> Result<()> {
    let tokens = tokenize(r#""hello world""#)?;
    assert_eq!(tokens.len(), 1);
    assert_eq!(tokens[0], Token::String("hello world".to_string()));
    Ok(())
}

#[test]
fn test_boolean_and_null() -> Result<()> {
    let tokens = tokenize("true false null")?;
    assert_eq!(tokens.len(), 3);
    assert_eq!(tokens[0], Token::Boolean(true));
    assert_eq!(tokens[1], Token::Boolean(false));
    assert_eq!(tokens[2], Token::Null);
    Ok(())
}

#[test]
fn test_simple_object() -> Result<()> {
    let tokens = tokenize(r#"{"name": "Alice"}"#)?;
    assert_eq!(tokens.len(), 5);
    assert_eq!(tokens[0], Token::LeftBrace);
    assert_eq!(tokens[1], Token::String("name".to_string()));
    assert_eq!(tokens[2], Token::Colon);
    assert_eq!(tokens[3], Token::String("Alice".to_string()));
    assert_eq!(tokens[4], Token::RightBrace);
    Ok(())
}

#[test]
fn test_multiple_values() -> Result<()> {
    let tokens = tokenize(r#"{"age": 30, "active": true}"#)?;
    assert!(tokens.contains(&Token::String("age".to_string())));
    assert!(tokens.contains(&tok_num(30.0)));
    assert!(tokens.contains(&Token::Comma));
    assert!(tokens.contains(&Token::String("active".to_string())));
    assert!(tokens.contains(&Token::Boolean(true)));
    Ok(())
}

#[test]
fn test_empty_string() -> Result<()> {
    let tokens = tokenize(r#""""#)?;
    assert_eq!(tokens.len(), 1);
    assert_eq!(tokens[0], Token::String("".to_string()));
    Ok(())
}

#[test]
fn test_string_containing_json_special_chars() -> Result<()> {
    let tokens = tokenize(r#""{key: value}""#)?;
    assert_eq!(tokens.len(), 1);
    assert_eq!(tokens[0], Token::String("{key: value}".to_string()));
    Ok(())
}

#[test]
fn test_string_with_keyword_like_content() -> Result<()> {
    let tokens = tokenize(r#""not true or false""#)?;
    assert_eq!(tokens.len(), 1);
    assert_eq!(tokens[0], Token::String("not true or false".to_string()));
    Ok(())
}

#[test]
fn test_string_with_number_like_content() -> Result<()> {
    let tokens = tokenize(r#""phone: 555-1234""#)?;
    assert_eq!(tokens.len(), 1);
    assert_eq!(tokens[0], Token::String("phone: 555-1234".to_string()));
    Ok(())
}

#[test]
fn test_negative_number() -> Result<()> {
    let tokens = tokenize("-42")?;
    assert_eq!(tokens.len(), 1);
    assert_eq!(tokens[0], tok_num(-42.0));
    Ok(())
}

#[test]
fn test_decimal_number() -> Result<()> {
    let tokens = tokenize("0.5")?;
    assert_eq!(tokens.len(), 1);
    assert_eq!(tokens[0], tok_num(0.5));
    Ok(())
}

#[test]
fn test_leading_decimal_not_a_number() {
    let result = tokenize(".5");
    assert!(result.is_err());
}

#[test]
fn test_invalid_keyword_error_position_points_to_start() {
    let input = "   xyz";
    let result = tokenize(input);
    assert!(result.is_err());
    if let Err(JsonError::UnexpectedToken { position, .. }) = result {
        assert_eq!(
            position, 3,
            "error position should point to the start of 'xyz' (index 3), not past it"
        );
    } else {
        panic!("expected UnexpectedToken error");
    }
}

// Each tokenizer error, exactly.

#[test]
fn exact_tokenizer_errors() {
    assert_eq!(
        tokenize(".5").unwrap_err(),
        JsonError::UnexpectedToken {
            expected: "valid JSON token".to_string(),
            found: ".".to_string(),
            position: 0,
        }
    );
    assert_eq!(
        tokenize("   xyz").unwrap_err(),
        JsonError::UnexpectedToken {
            expected: "true, false, or null".to_string(),
            found: "xyz".to_string(),
            position: 3,
        }
    );
    assert_eq!(
        tokenize("1.2.3").unwrap_err(),
        JsonError::InvalidNumber { value: "1.2.3".to_string(), position: 0 }
    );
    assert_eq!(
        tokenize("[-]").unwrap_err(),
        JsonError::InvalidNumber { value: "-".to_string(), position: 1 }
    );
    assert_eq!(
        tokenize(r#""a\qb""#).unwrap_err(),
        JsonError::InvalidEscape { char: 'q', position: 3 }
    );
    assert_eq!(
        tokenize(r#""a\"#).unwrap_err(),
        JsonError::UnexpectedEndOfInput { expected: "escape character".to_string(), position: 3 }
    );
    assert_eq!(
        tokenize(r#""abc"#).unwrap_err(),
        JsonError::UnexpectedEndOfInput { expected: "closing quote".to_string(), position: 4 }
    );
    assert_eq!(
        tokenize(r#""\u12"#).unwrap_err(),
        JsonError::InvalidUnicode { sequence: "12".to_string(), position: 1 }
    );
    assert_eq!(
        tokenize(r#""\u12zz""#).unwrap_err(),
        JsonError::InvalidUnicode { sequence: "12".to_string(), position: 1 }
    );
    assert_eq!(
        tokenize(r#""\ud800""#).unwrap_err(),
        JsonError::InvalidUnicode { sequence: "d800".to_string(), position: 1 }
    );
    assert_eq!(
        tokenize(r#""\uDE00""#).unwrap_err(),
        JsonError::InvalidUnicode { sequence: "DE00".to_string(), position: 1 }
    );
    assert_eq!(
        tokenize(r#""\uD83D\u0041""#).unwrap_err(),
        JsonError::InvalidUnicode { sequence: "D83D".to_string(), position: 1 }
    );
    assert_eq!(
        tokenize(r#""ab\uD83D\u12""#).unwrap_err(),
        JsonError::InvalidUnicode { sequence: "12".to_string(), position: 9 }
    );
    assert_eq!(
        tokenize(r#""x\u12""#).unwrap_err(),
        JsonError::InvalidUnicode { sequence: "12".to_string(), position: 2 }
    );
}

#[test]
fn surrogate_pairs_decode_to_one_char() -> Result<()> {
    let tokens = tokenize(r#""\uD83D\uDE00 \ud834\udd1e""#)?;
    assert_eq!(tokens, vec![Token::String("\u{1F600} \u{1D11E}".to_string())]);
    Ok(())
}

#[test]
fn escapes_decode() -> Result<()> {
    let tokens = tokenize(r#""\"\\\/\b\f\n\r\t\u00e9\u4EAC""#)?;
    assert_eq!(tokens, vec![Token::String("\"\\/\u{8}\u{c}\n\r\t\u{e9}\u{4eac}".to_string())]);
    Ok(())
}

#[test]
fn numbers_are_canonical() -> Result<()> {
    let tokens = tokenize("[7, 1.500, -0, 5.0, -0.25, 0.0]")?;
    assert_eq!(tokens[1], tok_num(7.0));
    assert_eq!(tokens[3], tok_num(1.5));
    assert_eq!(tokens[5], tok_num(-0.0));
    assert_eq!(tokens[5].debug_text(), "Number(-0.0)");
    assert_eq!(tokens[7], tok_num(5.0));
    assert_eq!(tokens[9], tok_num(-0.25));
    assert_eq!(tokens[11], tok_num(0.0));
    Ok(())
}

#[test]
fn literals_outside_the_json_grammar_are_invalid() {
    for bad in ["01", "007", "-01", "00", "1.", "-1.", "1.e5", "-.5", "-", "01e2"] {
        assert_eq!(
            tokenize(bad).unwrap_err(),
            JsonError::InvalidNumber { value: bad.to_string(), position: 0 },
            "literal {}",
            bad
        );
    }
    assert!(tokenize("0").is_ok());
    assert!(tokenize("-0.5e-2").is_ok());
    assert!(tokenize("10.01E2").is_ok());
}

#[test]
fn tokenizer_steps() {
    let mut t = Tokenizer::new("ab");
    assert_eq!(t.peek(), Some('a'));
    assert!(!t.is_at_end());
    assert_eq!(t.advance(), Some('a'));
    assert_eq!(t.advance(), Some('b'));
    assert!(t.is_at_end());
    assert_eq!(t.peek(), None);
    assert_eq!(t.advance(), None);
    assert_eq!(t.tokenize().unwrap(), vec![]);
}

#[test]
fn tokenize_reports_byte_offsets() {
    assert_eq!(
        tokenize("\"é\" @").unwrap_err(),
        JsonError::UnexpectedToken {
            expected: "valid JSON token".to_string(),
            found: "@".to_string(),
            position: 5,
        }
    );
    let mut t = Tokenizer::new("\"é\"@");
    assert_eq!(
        t.tokenize().unwrap_err(),
        JsonError::UnexpectedToken {
            expected: "valid JSON token".to_string(),
            found: "@".to_string(),
            position: 4,
        }
    );
    assert_eq!(
        tokenize("\"\u{4eac}\\q\"").unwrap_err(),
        JsonError::InvalidEscape { char: 'q', position: 5 }
    );
    assert_eq!(
        tokenize("\"\u{1F600}").unwrap_err(),
        JsonError::UnexpectedEndOfInput { expected: "closing quote".to_string(), position: 5 }
    );
}

#[test]
fn debug_text_of_tokens() {
    assert_eq!(Token::LeftBracket.debug_text(), "LeftBracket");
    assert_eq!(Token::String("a\"b\\\n\u{1}".to_string()).debug_text(), "String(\"a\\\"b\\\\\\n\\u{1}\")");
    assert_eq!(tok_num(-0.5).debug_text(), "Number(-0.5)");
    assert_eq!(tok_num(42.0).debug_text(), "Number(42.0)");
    assert_eq!(Token::Boolean(false).debug_text(), "Boolean(false)");
    assert_eq!(Token::Null.debug_text(), "Null");
    // The same text as the derived Debug of a `String`.
    assert_eq!(
        format!("{:?}", "a\"b\\\n\u{1}".to_string()),
        "\"a\\\"b\\\\\\n\\u{1}\""
    );
}

#[test]
fn leading_whitespace_moves_error_positions_only() {
    assert_eq!(tokenize(" \t\n[1]").unwrap(), tokenize("[1]").unwrap());
    assert_eq!(
        tokenize("  @").unwrap_err(),
        JsonError::UnexpectedToken {
            expected: "valid JSON token".to_string(),
            found: "@".to_string(),
            position: 2,
        }
    );
    assert_eq!(tokenize("\u{3000}\u{a0}").unwrap(), vec![]);
}

#[test]
fn plain_text_between_quotes_is_one_token() {
    let text = "{[ :, ]} true 12 null é";
    let tokens = tokenize(&format!("\"{}\"", text)).unwrap();
    assert_eq!(tokens, vec![Token::String(text.to_string())]);
}

#[test]
fn number_debug_text_reads_as_float_debug() {
    for x in [0.0, 42.0, -42.5, 0.5, 1e15, 1e16, 1.5e17, 0.0001, 1e-5, -2.5e-7, 123.456, 1e-4] {
        let literal = format!("{}", x);
        let token = Token::Number(JsonNumber::parse_literal(&literal).unwrap());
        assert_eq!(token.debug_text(), format!("Number({:?})", x), "literal {}", literal);
    }
}

#[test]
fn exponents_scale_the_decimal() -> Result<()> {
    assert_eq!(tokenize("1e5")?, vec![tok_num(100000.0)]);
    assert_eq!(tokenize("1.5E-3")?, vec![tok_num(0.0015)]);
    assert_eq!(tokenize("-2e+2")?, vec![tok_num(-200.0)]);
    assert_eq!(tokenize("25e-1")?, vec![tok_num(2.5)]);
    assert_eq!(tokenize("0.00012e4")?, vec![tok_num(1.2)]);
    assert_eq!(tokenize("0e99999999999999999999")?, vec![tok_num(0.0)]);
    assert_eq!(tokenize("-0.0e-7")?, vec![tok_num(-0.0)]);
    assert_eq!(tokenize("[1e2,2]")?, vec![Token::LeftBracket, tok_num(100.0), Token::Comma, tok_num(2.0), Token::RightBracket]);
    let n = JsonNumber::parse_literal("1e308").unwrap();
    assert_eq!(n.integer_digits().len(), 309);
    Ok(())
}

#[test]
fn malformed_exponents_are_invalid_numbers() {
    for bad in ["1e", "1E+", "1e-", "1e5.5", "1e5e5", "e5x", "1.e", "-e1"] {
        if bad.starts_with('e') {
            continue;
        }
        assert_eq!(
            tokenize(bad).unwrap_err(),
            JsonError::InvalidNumber { value: bad.to_string(), position: 0 },
            "literal {}",
            bad
        );
    }
    assert_eq!(
        tokenize("[1e]").unwrap_err(),
        JsonError::InvalidNumber { value: "1e".to_string(), position: 1 }
    );
}

#[test]
fn numbers_outside_the_f64_range_are_invalid() {
    let max = "179769313486231570814527423731704356798070567525844996598917476803157260780028538760589558632766878171540458953514382464234321326889464182768467546703537516986049910576551282076245490090389328944075868508455133942304583236903222948165808559332123348274797826204144723168738177180919299881250404026184124858368";
    assert_eq!(max.parse::<f64>().unwrap(), f64::MAX);
    assert!(tokenize(max).is_ok());
    assert!(tokenize(&format!("-{}", max)).is_ok());
    let above = "179769313486231570814527423731704356798070567525844996598917476803157260780028538760589558632766878171540458953514382464234321326889464182768467546703537516986049910576551282076245490090389328944075868508455133942304583236903222948165808559332123348274797826204144723168738177180919299881250404026184124858369";
    for bad in [
        "1".to_string() + &"0".repeat(400),
        format!("{}.5", max),
        above.to_string(),
        "2e308".to_string(),
        "1e99999999999999999999".to_string(),
        "-1e400".to_string(),
    ] {
        assert_eq!(
            tokenize(&bad).unwrap_err(),
            JsonError::InvalidNumber { value: bad.clone(), position: 0 },
            "literal {}",
            bad
        );
    }
    assert!(tokenize("1e308").is_ok());
    assert!(tokenize("1e-324").is_ok());
    assert!(tokenize("1.5e-324").is_ok());
}

#[test]
fn numbers_below_f64_read_as_zero_of_their_sign() -> Result<()> {
    for (text, x) in [("1e-400", 0.0), ("9e-325", 0.0), ("0.1e-324", 0.0), ("-1e-400", -0.0), ("1e-99999999999999999999", 0.0)] {
        assert_eq!(text.parse::<f64>().unwrap().to_bits(), f64::to_bits(x), "literal {}", text);
        assert_eq!(tokenize(text)?, vec![tok_num(x)], "literal {}", text);
    }
    let long_zero = format!("0.{}1", "0".repeat(400));
    assert_eq!(tokenize(&long_zero)?, vec![tok_num(0.0)]);
    Ok(())
}

#[test]
fn escaped_text_reads_back() -> Result<()> {
    for s in ["", "plain", "a\\b", "say \"hi\"", "\\\"\\\"", "é\u{1F600}\n", "\\u0041"] {
        let escaped = s.replace('\\', "\\\\").replace('"', "\\\"");
        let mut t = Tokenizer::new(&format!("\"{}\"", escaped));
        assert_eq!(t.tokenize()?, vec![Token::String(s.to_string())], "text {:?}", s);
        assert!(t.is_at_end());
    }
    Ok(())
}

#[test]
fn joined_texts_give_joined_tokens() -> Result<()> {
    let a = "[1, true]";
    let b = "{\"a\": null} 2.5e1";
    let mut expected = tokenize(a)?;
    expected.extend(tokenize(b)?);
    assert_eq!(tokenize(&format!("{} {}", a, b))?, expected);
    assert_eq!(tokenize(&format!("{}\n{}", "false", "null"))?, vec![Token::Boolean(false), Token::Null]);
    Ok(())
}

#[test]
fn trailing_whitespace_adds_no_token() -> Result<()> {
    assert_eq!(tokenize("true \t\r\n\u{a0}")?, tokenize("true")?);
    assert_eq!(tokenize("12 ")?, tokenize("12")?);
    Ok(())
}

#[test]
fn alphabetic_agrees_with_std() {
    for n in 0u32..0x3000 {
        if let Some(c) = char::from_u32(n) {
            assert_eq!(rust_json_parser::text::is_alphabetic(c), c.is_alphabetic(), "char {:?}", c);
        }
    }
    assert_eq!(
        tokenize("éa").unwrap_err(),
        JsonError::UnexpectedToken {
            expected: "true, false, or null".to_string(),
            found: "éa".to_string(),
            position: 0,
        }
    );
    assert_eq!(tokenize("true false null").unwrap(), vec![Token::Boolean(true), Token::Boolean(false), Token::Null]);
}

#[test]
fn plus_belongs_to_a_number_only_after_an_exponent_mark() -> Result<()> {
    assert_eq!(
        tokenize("1+").unwrap_err(),
        JsonError::UnexpectedToken {
            expected: "valid JSON token".to_string(),
            found: "+".to_string(),
            position: 1,
        }
    );
    assert_eq!(tokenize("2E+3")?, vec![tok_num(2000.0)]);
    assert_eq!(tokenize("1e+5")?, vec![tok_num(100000.0)]);
    assert_eq!(
        tokenize("1-2").unwrap_err(),
        JsonError::InvalidNumber { value: "1-2".to_string(), position: 0 }
    );
    Ok(())
}
