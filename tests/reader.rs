use json_parser::{
    from_str, from_str_with_max_depth, Decimal, Error, LexError, Number, ParseError, Value,
};

fn float(negative: bool, whole: &str, fraction: &str) -> Value {
    Value::Number(Number::Float(Decimal {
        negative,
        whole: whole.to_string(),
        fraction: fraction.to_string(),
    }))
}

fn as_f64(v: &Value) -> f64 {
    match v {
        Value::Number(Number::Float(d)) => {
            let text = format!("{}.{}", d.whole, d.fraction);
            let x: f64 = text.parse().unwrap();
            if d.negative {
                -x
            } else {
                x
            }
        }
        _ => panic!("not a float"),
    }
}

#[test]
fn test_from_str() {
    assert_eq!(
        from_str(r#"["hello", 123, ["hello", 123]]"#).ok().unwrap(),
        Value::Array(vec![
            Value::String("hello".to_string()),
            Value::Number(Number::Integer(123)),
            Value::Array(vec![
                Value::String("hello".to_string()),
                Value::Number(Number::Integer(123))
            ])
        ])
    );

    assert_eq!(
        from_str(r#""hello""#).ok().unwrap(),
        Value::String("hello".to_string())
    );

    assert_eq!(
        from_str("123").ok().unwrap(),
        Value::Number(Number::Integer(123))
    );
    assert_eq!(from_str("123.456").ok().unwrap(), float(false, "123", "456"));
    assert_eq!(as_f64(&from_str("123.456").unwrap()), 123.456);
    assert_eq!(from_str("-123.456").ok().unwrap(), float(true, "123", "456"));
    assert_eq!(as_f64(&from_str("-123.456").unwrap()), -123.456);

    assert_eq!(from_str("true").ok().unwrap(), Value::Bool(true));
    assert_eq!(from_str("false").ok().unwrap(), Value::Bool(false));

    assert_eq!(from_str("null").ok().unwrap(), Value::Null);

    assert!(from_str("invalid").is_err());
}

#[test]
fn keyword_literals() {
    assert_eq!(from_str(" true ").unwrap(), Value::Bool(true));
    assert_eq!(from_str("false\n").unwrap(), Value::Bool(false));
    assert_eq!(from_str("\rnull").unwrap(), Value::Null);
}

#[test]
fn integer_literals() {
    assert_eq!(from_str("0").unwrap(), Value::Number(Number::Integer(0)));
    assert_eq!(from_str("-42").unwrap(), Value::Number(Number::Integer(-42)));
    assert_eq!(
        from_str("9007199254740993").unwrap(),
        Value::Number(Number::Integer(9007199254740993))
    );
    assert_eq!(from_str("1.0").unwrap(), float(false, "1", "0"));
}

#[test]
fn string_literals_verbatim() {
    assert_eq!(
        from_str(r#""a \t\u0041 {x}""#).unwrap(),
        Value::String("a \\t\\u0041 {x}".to_string())
    );
    assert_eq!(from_str(r#""""#).unwrap(), Value::String(String::new()));
}

#[test]
fn empty_containers() {
    assert_eq!(from_str("[]").unwrap(), Value::Array(vec![]));
    assert_eq!(from_str("{}").unwrap(), Value::Object(vec![]));
    assert_eq!(from_str("[ ]").unwrap(), Value::Array(vec![]));
}

#[test]
fn nested_arrays_keep_order() {
    let one = Value::Number(Number::Integer(1));
    let two = Value::Number(Number::Integer(2));
    let three = Value::Number(Number::Integer(3));
    let four = Value::Number(Number::Integer(4));
    assert_eq!(
        from_str("[[1,2],[3,4]]").unwrap(),
        Value::Array(vec![
            Value::Array(vec![one, two]),
            Value::Array(vec![three, four])
        ])
    );
}

#[test]
fn duplicate_keys_last_write_wins() {
    assert_eq!(
        from_str(r#"{"a":1,"a":2}"#).unwrap(),
        Value::Object(vec![("a".to_string(), Value::Number(Number::Integer(2)))])
    );
    assert_eq!(
        from_str(r#"{"a":1,"b":true,"a":null}"#).unwrap(),
        Value::Object(vec![
            ("a".to_string(), Value::Null),
            ("b".to_string(), Value::Bool(true))
        ])
    );
}

#[test]
fn malformed_inputs_fail() {
    assert_eq!(
        from_str("invalid"),
        Err(Error::Lex(LexError::UnexpectedCharacter('i')))
    );
    assert_eq!(from_str("["), Err(Error::Parse(ParseError::UnexpectedEof)));
    assert_eq!(
        from_str("{\"a\":}"),
        Err(Error::Parse(ParseError::UnexpectedToken))
    );
    assert_eq!(
        from_str("\"unterminated"),
        Err(Error::Lex(LexError::UnterminatedString))
    );
    assert_eq!(
        from_str("[1,]"),
        Err(Error::Parse(ParseError::UnexpectedToken))
    );
    assert_eq!(from_str(""), Err(Error::Parse(ParseError::UnexpectedEof)));
}

#[test]
fn object_with_array_and_null() {
    assert_eq!(
        from_str(r#"{"hello": [12, "abc"], "world": null}"#).unwrap(),
        Value::Object(vec![
            (
                "hello".to_string(),
                Value::Array(vec![
                    Value::Number(Number::Integer(12)),
                    Value::String("abc".to_string())
                ])
            ),
            ("world".to_string(), Value::Null)
        ])
    );
}

#[test]
fn negative_float() {
    let v = from_str("-123.456").unwrap();
    assert_eq!(v, float(true, "123", "456"));
    assert_eq!(as_f64(&v), -123.456);
}

#[test]
fn error_messages_name_the_stage() {
    let lex = from_str("@").unwrap_err();
    assert_eq!(lex.message(), "lexer: unexpected character");
    let parse = from_str("[1,]").unwrap_err();
    assert_eq!(parse.message(), "parser: unexpected token");
    assert_eq!(
        Error::Parse(ParseError::MissingColon).message(),
        "parser: missing colon after key"
    );
    assert_eq!(
        Error::Lex(LexError::InvalidNumber).message(),
        "lexer: invalid number"
    );
}

#[test]
fn nesting_limit_is_configurable() {
    assert_eq!(
        from_str_with_max_depth("[[1]]", 1),
        Err(Error::Parse(ParseError::NestingTooDeep))
    );
    assert_eq!(
        from_str_with_max_depth("[[1]]", 2).unwrap(),
        Value::Array(vec![Value::Array(vec![Value::Number(Number::Integer(1))])])
    );
}
