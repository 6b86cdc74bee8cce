use jsonish::parser::parse;
use jsonish::scanner::check_number;
use jsonish::scanner::tokenize;
use jsonish::scanner::Token;
use jsonish::Object;
use jsonish::Value;

#[test]
fn test_empty_input_scans_to_no_tokens() {
    assert_eq!(tokenize(""), Some(vec![]));
    assert_eq!(Value::from_str(""), None);
}

#[test]
fn test_literal_scenarios() {
    assert_eq!(Value::from_str("{}"), Some(Value::Object(Object::new())));
    assert_eq!(Value::from_str("[]"), Some(Value::Array(vec![])));
    assert_eq!(
        Value::from_str("\"hello\""),
        Some(Value::String("hello".to_string()))
    );
    assert_eq!(
        Value::from_str("42.5"),
        Some(Value::Number("42.5".to_string()))
    );
    assert_eq!(Value::from_str("true"), Some(Value::Boolean(true)));
    assert_eq!(Value::from_str("false"), Some(Value::Boolean(false)));
    assert_eq!(Value::from_str("null"), Some(Value::Null));
}

#[test]
fn test_object_with_two_entries() {
    let mut expected = Object::new();
    expected.insert("key".to_string(), Value::Number("123".to_string()));
    expected.insert("flag".to_string(), Value::Boolean(true));
    let parsed = Value::from_str("{\"key\": 123, \"flag\": true}");
    assert_eq!(parsed, Some(Value::Object(expected)));
}

#[test]
fn test_round_trip_of_built_tree() {
    let mut inner = Object::new();
    inner.insert(
        "xs".to_string(),
        Value::Array(vec![
            Value::Number("1".to_string()),
            Value::String("a\nb".to_string()),
            Value::Boolean(true),
            Value::Null,
        ]),
    );
    inner.insert("n".to_string(), Value::Number("-2.5e3".to_string()));
    let tree = Value::Object(inner);
    let text = "{ \"xs\" : [ 1 , \"a\\nb\" , true , null ] , \"n\" : -2.5e3 }";
    assert_eq!(Value::from_str(text), Some(tree));
}

#[test]
fn test_whitespace_between_tokens_is_immaterial() {
    let tight = Value::from_str("{\"a\":[1,2],\"b\":null}");
    let airy = Value::from_str(" {\t\"a\" :\n [ 1 ,\r 2 ] , \"b\" : null } ");
    assert!(tight.is_some());
    assert_eq!(tight, airy);
}

#[test]
fn test_trailing_comma_rejected() {
    assert_eq!(Value::from_str("[1, 2,]"), None);
    assert_eq!(Value::from_str("{\"key\": 1,}"), None);
}

#[test]
fn test_unterminated_constructs_fail() {
    assert_eq!(Value::from_str("\"unterminated"), None);
    assert_eq!(Value::from_str("[1, 2"), None);
    assert_eq!(Value::from_str("{\"key\": 1"), None);
}

#[test]
fn test_duplicate_keys_last_write_wins() {
    let mut expected = Object::new();
    expected.insert("a".to_string(), Value::Number("2".to_string()));
    assert_eq!(
        Value::from_str("{\"a\": 1, \"a\": 2}"),
        Some(Value::Object(expected))
    );
}

#[test]
fn test_insert_overwrites_in_place() {
    let mut built_twice = Object::new();
    built_twice.insert("a".to_string(), Value::Number("1".to_string()));
    built_twice.insert("a".to_string(), Value::Number("2".to_string()));
    let mut built_once = Object::new();
    built_once.insert("a".to_string(), Value::Number("2".to_string()));
    assert_eq!(built_twice, built_once);
    assert_eq!(built_twice.len(), 1);
}

#[test]
fn test_get_finds_the_bound_value() {
    let mut obj = Object::new();
    obj.insert("a".to_string(), Value::Number("1".to_string()));
    obj.insert("b".to_string(), Value::Null);
    assert_eq!(obj.get(&"a".to_string()), Some(&Value::Number("1".to_string())));
    assert_eq!(obj.get(&"b".to_string()), Some(&Value::Null));
    assert_eq!(obj.get(&"c".to_string()), None);
    assert_eq!(obj.entries().len(), 2);
    assert_eq!(obj.entries()[0].0, "a".to_string());
}

#[test]
fn test_number_grammar_accepts() {
    assert!(check_number("0"));
    assert!(check_number("-0"));
    assert!(check_number("12.50"));
    assert!(check_number("1e5"));
    assert!(check_number("1E5"));
    assert!(check_number("1."));
    assert!(check_number("1.e2"));
    assert!(check_number("-.5"));
    assert_eq!(
        Value::from_str("1e5"),
        Some(Value::Number("1e5".to_string()))
    );
    assert_eq!(Value::from_str("1."), Some(Value::Number("1.".to_string())));
}

#[test]
fn test_number_grammar_rejects() {
    assert!(!check_number(""));
    assert!(!check_number("-"));
    assert!(!check_number("."));
    assert!(!check_number("1e"));
    assert!(!check_number("1.2.3"));
    assert!(!check_number("1e5e5"));
    assert_eq!(Value::from_str("-"), None);
    assert_eq!(Value::from_str("1e"), None);
    assert_eq!(Value::from_str("1.2.3"), None);
    // A signed exponent splits into two literals, the first of which is bad.
    assert_eq!(Value::from_str("1e-10"), None);
    // A leading dot never begins a number.
    assert_eq!(Value::from_str(".5"), None);
}

#[test]
fn test_string_escapes_decode() {
    assert_eq!(
        Value::from_str("\"a\\tb\\\\c\\\"d\\ne\\rf\""),
        Some(Value::String("a\tb\\c\"d\ne\rf".to_string()))
    );
    assert_eq!(Value::from_str("\"bad\\xescape\""), None);
    assert_eq!(Value::from_str("\"ends with backslash\\"), None);
}

#[test]
fn test_keyword_fragments_fail() {
    assert_eq!(Value::from_str("tru"), None);
    assert_eq!(Value::from_str("fals"), None);
    assert_eq!(Value::from_str("nul"), None);
    assert_eq!(Value::from_str("truex"), None);
}

#[test]
fn test_trailing_tokens_are_not_rejected() {
    // Parsing stops once one complete value has been recognized.
    assert_eq!(
        Value::from_str("42 true"),
        Some(Value::Number("42".to_string()))
    );
    let tokens = vec![Token::Null, Token::Comma];
    assert_eq!(parse(&tokens), Some(Value::Null));
}

#[test]
fn test_empty_containers_nest() {
    // The closing delimiter of an empty container is consumed, so what
    // follows it still belongs to the enclosing container.
    assert_eq!(
        Value::from_str("[[], 5]"),
        Some(Value::Array(vec![
            Value::Array(vec![]),
            Value::Number("5".to_string())
        ]))
    );
    let mut expected = Object::new();
    expected.insert("a".to_string(), Value::Object(Object::new()));
    expected.insert("b".to_string(), Value::Array(vec![]));
    assert_eq!(
        Value::from_str("{\"a\": {}, \"b\": []}"),
        Some(Value::Object(expected))
    );
}

#[test]
fn test_missing_colon_fails() {
    assert_eq!(Value::from_str("{\"a\" 1}"), None);
    assert_eq!(Value::from_str("{\"a\", 1}"), None);
}
