use minirt::json::{string_to_literal, JsonError, JsonValue};
use minirt::lexer::{tokenize, Token};

fn number_value(v: &JsonValue) -> f64 {
    match v {
        JsonValue::Number(text) => text.parse().unwrap(),
        _ => panic!("not a number"),
    }
}

#[test]
fn test_tokenize() {
    let input = "{ \"t\\u0065st\": [true, 42e-1] }";
    let tokens = tokenize(input).unwrap();

    assert_eq!(
        tokens,
        vec![
            Token::BraceOpen,
            Token::String("test".to_string()),
            Token::Colon,
            Token::BracketOpen,
            Token::True,
            Token::Comma,
            Token::Number("42e-1".to_string()),
            Token::BracketClose,
            Token::BraceClose
        ]
    );
    match &tokens[6] {
        Token::Number(text) => assert_eq!(text.parse::<f64>().unwrap(), 4.2f64),
        _ => panic!("not a number"),
    }
}

#[test]
fn test_parse() {
    let input = "{ \"t\\u0065st\": [true, 42e-1] }";
    let result = JsonValue::new(input).unwrap();

    assert_eq!(
        result,
        JsonValue::Dict(vec![(
            "t\u{0065}st".to_string(),
            JsonValue::List(vec![JsonValue::Boolean(true), JsonValue::Number("42e-1".to_string())])
        )])
    );
    match &result {
        JsonValue::Dict(entries) => match &entries[0].1 {
            JsonValue::List(items) => assert_eq!(number_value(&items[1]), 4.2),
            _ => panic!("not a list"),
        },
        _ => panic!("not a dict"),
    }
}

#[test]
fn test_serialize() {
    let input = JsonValue::Dict(vec![(
        "t\u{0065}st".to_string(),
        JsonValue::List(vec![JsonValue::Boolean(true), JsonValue::Number("4.2".to_string())]),
    )]);
    let result = JsonValue::new(JsonValue::serialize(&input).as_str()).unwrap();

    assert_eq!(result, input);
}

#[test]
fn serialize_writes_compact_text() {
    let input = JsonValue::Dict(vec![
        ("a".to_string(), JsonValue::Null),
        (
            "b".to_string(),
            JsonValue::List(vec![JsonValue::Boolean(false), JsonValue::Number("-1.5e3".to_string())]),
        ),
        ("c".to_string(), JsonValue::String("x\"y".to_string())),
    ]);
    assert_eq!(input.serialize(), "{\"a\":null,\"b\":[false,-1.5e3],\"c\":\"x\\\"y\"}");
}

#[test]
fn string_literal_escapes_controls_and_non_ascii() {
    assert_eq!(string_to_literal("a\\b\n\t\u{8}\u{c}\r"), "\"a\\\\b\\n\\t\\b\\f\\r\"");
    assert_eq!(string_to_literal("é x"), "\"\\u00E9\\u0020x\"");
    assert_eq!(string_to_literal("\u{1F600}"), "\"\\u1F600\"");
}

#[test]
fn numbers_follow_the_float_grammar() {
    for ok in ["0", "1.", ".5", "+2", "-3e10", "1E+2", "inf", "-Infinity", "NaN", "007"] {
        let text = format!("[{}]", ok);
        assert!(JsonValue::new(&text).is_ok(), "{}", ok);
        assert!(ok.parse::<f64>().is_ok());
    }
    for bad in [".", "1e", "e5", "1.2.3", "--1", "0x10", "infinit", "1e+"] {
        let text = format!("[{}]", bad);
        assert_eq!(JsonValue::new(&text), Err(JsonError::InvalidKeywordOrNumber), "{}", bad);
        assert!(bad.parse::<f64>().is_err());
    }
}

#[test]
fn unicode_escapes_decode_or_fail() {
    assert_eq!(JsonValue::new("\"\\u00e9\\u004A\""), Ok(JsonValue::String("éJ".to_string())));
    assert_eq!(JsonValue::new("\"\\u+041\""), Ok(JsonValue::String("A".to_string())));
    assert_eq!(JsonValue::new("\"\\ud800\""), Err(JsonError::InvalidEscapeSequence));
    assert_eq!(JsonValue::new("\"\\u00g0\""), Err(JsonError::InvalidEscapeSequence));
    assert_eq!(JsonValue::new("\"\\x\""), Err(JsonError::InvalidEscapeSequence));
    assert_eq!(JsonValue::new("\"abc"), Err(JsonError::InvalidEndOfInput));
}

#[test]
fn parse_errors_name_what_is_missing() {
    assert_eq!(JsonValue::new(""), Err(JsonError::ExpectedValue));
    assert_eq!(JsonValue::new("{\"a\" 1}"), Err(JsonError::ExtraToken));
    assert_eq!(JsonValue::new("{\"a\" 1"), Err(JsonError::ExpectedColon));
    assert_eq!(JsonValue::new("{\"a\":1,\"a\":2}"), Err(JsonError::ExtraToken));
    assert_eq!(JsonValue::new("{\"a\":1,\"a\":"), Err(JsonError::DuplicateKey));
    assert_eq!(JsonValue::new("[1 2"), Err(JsonError::ExpectedCommaOrBracket));
    assert_eq!(JsonValue::new("{1:2"), Err(JsonError::ExtraToken));
    assert_eq!(JsonValue::new("{1"), Err(JsonError::ExpectedKeyOrBrace));
    assert_eq!(JsonValue::new("[1,]"), Err(JsonError::ExpectedValue));
    assert_eq!(JsonValue::new("1 2"), Err(JsonError::ExtraToken));
    assert_eq!(JsonValue::new("nul"), Err(JsonError::InvalidKeywordOrNumber));
}

#[test]
fn objects_accept_a_trailing_comma_and_keep_order() {
    assert_eq!(
        JsonValue::new("{\"z\":1,\"a\":[],}"),
        Ok(JsonValue::Dict(vec![
            ("z".to_string(), JsonValue::Number("1".to_string())),
            ("a".to_string(), JsonValue::List(vec![])),
        ]))
    );
    assert_eq!(JsonValue::new(" {} "), Ok(JsonValue::Dict(vec![])));
}

#[test]
fn string_literal_reads_back_as_the_string() {
    for text in ["", "plain", "q\"b\\s/", "tab\tnl\ncr\r", "é ü ✓ \u{7f}", "\u{0}\u{1f}"] {
        let literal = string_to_literal(text);
        assert_eq!(JsonValue::new(&literal), Ok(JsonValue::String(text.to_string())), "{}", literal);
    }
}

#[test]
fn string_literal_of_a_character_beyond_four_hex_digits_reads_back_otherwise() {
    let literal = string_to_literal("\u{1F600}");
    assert_eq!(JsonValue::new(&literal), Ok(JsonValue::String("\u{1F60}0".to_string())));
}

#[test]
fn written_values_read_back_as_themselves() {
    let value = JsonValue::Dict(vec![
        ("n".to_string(), JsonValue::Null),
        ("t".to_string(), JsonValue::Boolean(true)),
        (
            "nums".to_string(),
            JsonValue::List(vec![
                JsonValue::Number("-0.5e3".to_string()),
                JsonValue::Number("inf".to_string()),
                JsonValue::Number("7".to_string()),
            ]),
        ),
        ("empty".to_string(), JsonValue::List(vec![])),
        ("obj".to_string(), JsonValue::Dict(vec![])),
        ("é\n".to_string(), JsonValue::String("\"q\" \u{2713}".to_string())),
    ]);
    let text = value.serialize();
    assert_eq!(JsonValue::new(&text), Ok(value));
}
