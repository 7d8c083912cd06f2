use json_parser::{tokenize, Decimal, LexError, Number, Token};

fn float(negative: bool, whole: &str, fraction: &str) -> Number {
    Number::Float(Decimal {
        negative,
        whole: whole.to_string(),
        fraction: fraction.to_string(),
    })
}

#[test]
fn test_tokenize() {
    assert_eq!(
        tokenize(r#""hello""#).ok().unwrap(),
        vec![Token::String("hello".to_string())]
    );

    assert_eq!(
        tokenize("123").ok().unwrap(),
        vec![Token::Number(Number::Integer(123))]
    );
    assert_eq!(
        tokenize("123.456").ok().unwrap(),
        vec![Token::Number(float(false, "123", "456"))]
    );

    assert_eq!(tokenize("true").ok().unwrap(), vec![Token::True]);
    assert_eq!(tokenize("false").ok().unwrap(), vec![Token::False]);

    assert_eq!(tokenize("null").ok().unwrap(), vec![Token::Null]);

    assert!(tokenize("invalid").is_err());
}

#[test]
fn tokenize_structural_marks_and_whitespace() {
    assert_eq!(
        tokenize("{ \"a\" :\n[1,\r2] }").unwrap(),
        vec![
            Token::LeftBrace,
            Token::String("a".to_string()),
            Token::Colon,
            Token::LeftBracket,
            Token::Number(Number::Integer(1)),
            Token::Comma,
            Token::Number(Number::Integer(2)),
            Token::RightBracket,
            Token::RightBrace,
        ]
    );
}

#[test]
fn tokenize_empty_input() {
    assert_eq!(tokenize("").unwrap(), vec![]);
    assert_eq!(tokenize(" \n\r ").unwrap(), vec![]);
}

#[test]
fn tokenize_integer_limits() {
    assert_eq!(
        tokenize("9223372036854775807").unwrap(),
        vec![Token::Number(Number::Integer(i64::MAX))]
    );
    assert_eq!(
        tokenize("-9223372036854775808").unwrap(),
        vec![Token::Number(Number::Integer(i64::MIN))]
    );
    assert_eq!(
        tokenize("-007").unwrap(),
        vec![Token::Number(Number::Integer(-7))]
    );
    assert_eq!(tokenize("9223372036854775808"), Err(LexError::InvalidNumber));
    assert_eq!(tokenize("-9223372036854775809"), Err(LexError::InvalidNumber));
    assert_eq!(tokenize("123456789012345678901234"), Err(LexError::InvalidNumber));
}

#[test]
fn tokenize_floats_keep_their_digits() {
    assert_eq!(
        tokenize("-0.50").unwrap(),
        vec![Token::Number(float(true, "0", "50"))]
    );
    assert_eq!(
        tokenize("123456789012345678901234.5").unwrap(),
        vec![Token::Number(float(false, "123456789012345678901234", "5"))]
    );
}

#[test]
fn tokenize_malformed_numbers() {
    assert_eq!(tokenize("-"), Err(LexError::InvalidNumber));
    assert_eq!(tokenize("-x"), Err(LexError::InvalidNumber));
    assert_eq!(tokenize("1."), Err(LexError::InvalidNumber));
    assert_eq!(tokenize("1.x"), Err(LexError::InvalidNumber));
    assert_eq!(tokenize("1.2.3"), Err(LexError::UnexpectedCharacter('.')));
}

#[test]
fn tokenize_string_without_escapes() {
    assert_eq!(
        tokenize(r#""a\nb é""#).unwrap(),
        vec![Token::String("a\\nb é".to_string())]
    );
    assert_eq!(
        tokenize(r#""""#).unwrap(),
        vec![Token::String(String::new())]
    );
}

#[test]
fn tokenize_errors() {
    assert_eq!(tokenize("\"open"), Err(LexError::UnterminatedString));
    assert_eq!(tokenize("tru"), Err(LexError::InvalidLiteral));
    assert_eq!(tokenize("fals e"), Err(LexError::InvalidLiteral));
    assert_eq!(tokenize("nul"), Err(LexError::InvalidLiteral));
    assert_eq!(tokenize("invalid"), Err(LexError::UnexpectedCharacter('i')));
    assert_eq!(tokenize("[1]\t"), Err(LexError::UnexpectedCharacter('\t')));
}
