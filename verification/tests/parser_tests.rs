use jsonish::parser::parse;
use jsonish::scanner::Token;
use jsonish::Object;
use jsonish::Value;

#[test]
fn parser_test_parse_null() {
    let tokens = vec![Token::Null];
    assert_eq!(parse(&tokens), Some(Value::Null));
}

#[test]
fn parser_test_parse_boolean() {
    let tokens = vec![Token::Boolean(true)];
    assert_eq!(parse(&tokens), Some(Value::Boolean(true)));
}

#[test]
fn parser_test_parse_number() {
    let tokens = vec![Token::Number("42".to_string())];
    assert_eq!(parse(&tokens), Some(Value::Number("42".to_string())));
}

#[test]
fn parser_test_parse_string() {
    let tokens = vec![Token::String("hello".to_string())];
    assert_eq!(parse(&tokens), Some(Value::String("hello".to_string())));
}

#[test]
fn test_parse_empty_array() {
    let tokens = vec![Token::LeftBracket, Token::RightBracket];
    assert_eq!(parse(&tokens), Some(Value::Array(vec![])));
}

#[test]
fn test_parse_array_with_values() {
    let tokens = vec![
        Token::LeftBracket,
        Token::Number("1".to_string()),
        Token::Comma,
        Token::Number("2".to_string()),
        Token::Comma,
        Token::Number("3".to_string()),
        Token::RightBracket,
    ];
    assert_eq!(
        parse(&tokens),
        Some(Value::Array(vec![
            Value::Number("1".to_string()),
            Value::Number("2".to_string()),
            Value::Number("3".to_string())
        ]))
    );
}

#[test]
fn test_parse_empty_object() {
    let tokens = vec![Token::LeftBrace, Token::RightBrace];
    assert_eq!(parse(&tokens), Some(Value::Object(Object::new())));
}

#[test]
fn test_parse_object_with_values() {
    let tokens = vec![
        Token::LeftBrace,
        Token::String("key".to_string()),
        Token::Colon,
        Token::Number("42".to_string()),
        Token::RightBrace,
    ];
    let mut expected = Object::new();
    expected.insert("key".to_string(), Value::Number("42".to_string()));
    assert_eq!(parse(&tokens), Some(Value::Object(expected)));
}

#[test]
fn test_parse_nested_object() {
    let tokens = vec![
        Token::LeftBrace,
        Token::String("outer".to_string()),
        Token::Colon,
        Token::LeftBrace,
        Token::String("inner".to_string()),
        Token::Colon,
        Token::Number("1".to_string()),
        Token::RightBrace,
        Token::RightBrace,
    ];
    let mut inner = Object::new();
    inner.insert("inner".to_string(), Value::Number("1".to_string()));
    let mut outer = Object::new();
    outer.insert("outer".to_string(), Value::Object(inner));
    assert_eq!(parse(&tokens), Some(Value::Object(outer)));
}

#[test]
fn test_parse_nested_array() {
    let tokens = vec![
        Token::LeftBracket,
        Token::LeftBracket,
        Token::Number("1".to_string()),
        Token::Comma,
        Token::Number("2".to_string()),
        Token::RightBracket,
        Token::Comma,
        Token::LeftBracket,
        Token::Number("3".to_string()),
        Token::RightBracket,
        Token::RightBracket,
    ];
    assert_eq!(
        parse(&tokens),
        Some(Value::Array(vec![
            Value::Array(vec![
                Value::Number("1".to_string()),
                Value::Number("2".to_string())
            ]),
            Value::Array(vec![Value::Number("3".to_string())])
        ]))
    );
}

#[test]
fn test_parse_mixed_nested_structure() {
    let tokens = vec![
        Token::LeftBrace,
        Token::String("array".to_string()),
        Token::Colon,
        Token::LeftBracket,
        Token::Number("1".to_string()),
        Token::Comma,
        Token::String("text".to_string()),
        Token::Comma,
        Token::Null,
        Token::RightBracket,
        Token::Comma,
        Token::String("object".to_string()),
        Token::Colon,
        Token::LeftBrace,
        Token::String("key".to_string()),
        Token::Colon,
        Token::Boolean(false),
        Token::RightBrace,
        Token::RightBrace,
    ];
    let mut obj = Object::new();
    obj.insert(
        "array".to_string(),
        Value::Array(vec![
            Value::Number("1".to_string()),
            Value::String("text".to_string()),
            Value::Null,
        ]),
    );
    let mut inner_obj = Object::new();
    inner_obj.insert("key".to_string(), Value::Boolean(false));
    obj.insert("object".to_string(), Value::Object(inner_obj));

    assert_eq!(parse(&tokens), Some(Value::Object(obj)));
}

#[test]
fn test_parse_trailing_comma_array() {
    let tokens = vec![
        Token::LeftBracket,
        Token::Number("1".to_string()),
        Token::Comma,
        Token::RightBracket,
    ];
    assert_eq!(parse(&tokens), None);
}

#[test]
fn test_parse_trailing_comma_object() {
    let tokens = vec![
        Token::LeftBrace,
        Token::String("key".to_string()),
        Token::Colon,
        Token::Number("42".to_string()),
        Token::Comma,
        Token::RightBrace,
    ];
    assert_eq!(parse(&tokens), None);
}

#[test]
fn test_parse_unclosed_array() {
    let tokens = vec![Token::LeftBracket, Token::Number("1".to_string())];
    assert_eq!(parse(&tokens), None);
}

#[test]
fn test_parse_unclosed_object() {
    let tokens = vec![
        Token::LeftBrace,
        Token::String("key".to_string()),
        Token::Colon,
        Token::Number("42".to_string()),
    ];
    assert_eq!(parse(&tokens), None);
}

#[test]
fn test_parse_unexpected_token() {
    let tokens = vec![Token::Comma];
    assert_eq!(parse(&tokens), None);
}
