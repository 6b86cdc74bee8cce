use jsonish::scanner::tokenize;
use jsonish::scanner::Token;

#[test]
fn test_empty_object() {
    let input = "{}";
    let tokens = tokenize(input).unwrap();
    assert_eq!(tokens, vec![Token::LeftBrace, Token::RightBrace]);
}

#[test]
fn test_empty_array() {
    let input = "[]";
    let tokens = tokenize(input).unwrap();
    assert_eq!(tokens, vec![Token::LeftBracket, Token::RightBracket]);
}

#[test]
fn test_simple_string() {
    let input = "\"hello\"";
    let tokens = tokenize(input).unwrap();
    assert_eq!(tokens, vec![Token::String("hello".to_string())]);
}

#[test]
fn test_boolean_true() {
    let input = "true";
    let tokens = tokenize(input).unwrap();
    assert_eq!(tokens, vec![Token::Boolean(true)]);
}

#[test]
fn test_boolean_false() {
    let input = "false";
    let tokens = tokenize(input).unwrap();
    assert_eq!(tokens, vec![Token::Boolean(false)]);
}

#[test]
fn test_null() {
    let input = "null";
    let tokens = tokenize(input).unwrap();
    assert_eq!(tokens, vec![Token::Null]);
}

#[test]
fn test_number() {
    let input = "42.5";
    let tokens = tokenize(input).unwrap();
    assert_eq!(tokens, vec![Token::Number("42.5".to_string())]);
}

#[test]
fn test_complex_json() {
    let input = "{\"key\": 123, \"flag\": true}";
    let tokens = tokenize(input).unwrap();
    assert_eq!(
        tokens,
        vec![
            Token::LeftBrace,
            Token::String("key".to_string()),
            Token::Colon,
            Token::Number("123".to_string()),
            Token::Comma,
            Token::String("flag".to_string()),
            Token::Colon,
            Token::Boolean(true),
            Token::RightBrace,
        ]
    );
}
