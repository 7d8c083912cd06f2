use json_parser::{
    parse, parse_with_max_depth, tokenize, Decimal, Number, ParseError, Token, Value,
};

#[test]
fn test_parse() {
    assert_eq!(
        parse(tokenize(r#"{"hello": [12, "abc"], "world": null}"#).unwrap())
            .ok()
            .unwrap(),
        Value::Object(vec![
            (
                "hello".to_string(),
                Value::Array(vec![
                    Value::Number(Number::Integer(12)),
                    Value::String("abc".to_string())
                ])
            ),
            ("world".to_string(), Value::Null)
        ])
    );

    assert_eq!(
        parse(tokenize(r#"["hello", 123, ["hello", 123]]"#).unwrap())
            .ok()
            .unwrap(),
        Value::Array(vec![
            Value::String("hello".to_string()),
            Value::Number(Number::Integer(123)),
            Value::Array(vec![
                Value::String("hello".to_string()),
                Value::Number(Number::Integer(123))
            ])
        ])
    );

    assert_eq!(
        parse(tokenize(r#""hello""#).unwrap()).ok().unwrap(),
        Value::String("hello".to_string())
    );

    assert_eq!(
        parse(tokenize("123").unwrap()).ok().unwrap(),
        Value::Number(Number::Integer(123))
    );
    assert_eq!(
        parse(tokenize("123.456").unwrap()).ok().unwrap(),
        Value::Number(Number::Float(Decimal {
            negative: false,
            whole: "123".to_string(),
            fraction: "456".to_string(),
        }))
    );

    assert_eq!(
        parse(tokenize("true").unwrap()).ok().unwrap(),
        Value::Bool(true)
    );
    assert_eq!(
        parse(tokenize("false").unwrap()).ok().unwrap(),
        Value::Bool(false)
    );

    assert_eq!(parse(tokenize("null").unwrap()).ok().unwrap(), Value::Null);
}

#[test]
fn parse_empty_token_sequence() {
    assert_eq!(parse(vec![]), Err(ParseError::UnexpectedEof));
}

#[test]
fn parse_rejects_misplaced_tokens() {
    assert_eq!(parse(vec![Token::Comma]), Err(ParseError::UnexpectedToken));
    assert_eq!(parse(vec![Token::RightBracket]), Err(ParseError::UnexpectedToken));
    assert_eq!(
        parse(tokenize("[1 2]").unwrap()),
        Err(ParseError::UnexpectedToken)
    );
    assert_eq!(
        parse(tokenize("[,1]").unwrap()),
        Err(ParseError::UnexpectedToken)
    );
    assert_eq!(
        parse(tokenize("{1: 2}").unwrap()),
        Err(ParseError::UnexpectedToken)
    );
    assert_eq!(
        parse(tokenize("{\"a\": 1,}").unwrap()),
        Err(ParseError::UnexpectedToken)
    );
    assert_eq!(
        parse(tokenize("[1}").unwrap()),
        Err(ParseError::UnexpectedToken)
    );
}

#[test]
fn parse_rejects_tokens_after_the_value() {
    assert_eq!(
        parse(tokenize("1 2").unwrap()),
        Err(ParseError::UnexpectedToken)
    );
    assert_eq!(
        parse(tokenize("[] ]").unwrap()),
        Err(ParseError::UnexpectedToken)
    );
}

#[test]
fn parse_reports_missing_colon() {
    assert_eq!(
        parse(tokenize("{\"a\" 1}").unwrap()),
        Err(ParseError::MissingColon)
    );
    assert_eq!(
        parse(tokenize("{\"a\"").unwrap()),
        Err(ParseError::MissingColon)
    );
}

#[test]
fn parse_reports_early_end() {
    assert_eq!(parse(tokenize("[").unwrap()), Err(ParseError::UnexpectedEof));
    assert_eq!(parse(tokenize("[1,").unwrap()), Err(ParseError::UnexpectedEof));
    assert_eq!(parse(tokenize("{").unwrap()), Err(ParseError::UnexpectedEof));
    assert_eq!(
        parse(tokenize("{\"a\": 1").unwrap()),
        Err(ParseError::UnexpectedEof)
    );
    assert_eq!(
        parse(tokenize("{\"a\":").unwrap()),
        Err(ParseError::UnexpectedEof)
    );
}

#[test]
fn parse_limits_nesting() {
    let tokens = tokenize("[[[]]]").unwrap();
    assert_eq!(
        parse_with_max_depth(&tokens, 2),
        Err(ParseError::NestingTooDeep)
    );
    assert_eq!(
        parse_with_max_depth(&tokens, 3).unwrap(),
        Value::Array(vec![Value::Array(vec![Value::Array(vec![])])])
    );
    assert_eq!(
        parse_with_max_depth(&tokenize("{}").unwrap(), 0),
        Err(ParseError::NestingTooDeep)
    );
    assert_eq!(
        parse_with_max_depth(&tokenize("7").unwrap(), 0).unwrap(),
        Value::Number(Number::Integer(7))
    );
    let deep = format!("{}{}", "[".repeat(200), "]".repeat(200));
    assert_eq!(
        parse(tokenize(&deep).unwrap()),
        Err(ParseError::NestingTooDeep)
    );
}
