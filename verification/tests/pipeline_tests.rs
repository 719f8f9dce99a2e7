use crusty_json::lexer::{check_end_of_token_value, is_number_char, lexer, JsonToken, JsonTokenError};
use crusty_json::parser::{is_valid_number, parser, JsonParseError, JsonValue};
use crusty_json::utils::{parse_json, JsonError};

#[test]
fn test_flat_pairs_empty_object() {
    let tokens = lexer("{}".to_string()).unwrap();
    assert_eq!(parser(&tokens), Ok(JsonValue::Object(vec![])));
}

#[test]
fn test_flat_pairs_empty_array() {
    let tokens = lexer("[]".to_string()).unwrap();
    assert_eq!(parser(&tokens), Ok(JsonValue::Array(vec![])));
}

#[test]
fn test_flat_pairs_trailing_pairs_ignored() {
    // the parser stops after the root value; the remaining pair is ignored
    let tokens = lexer("{}[]".to_string()).unwrap();
    assert_eq!(tokens.len(), 4);
    assert_eq!(parser(&tokens), Ok(JsonValue::Object(vec![])));
}

#[test]
fn test_lexing_is_repeatable() {
    let first = lexer("[{\"a\": 1}, null]".to_string());
    let second = lexer("[{\"a\": 1}, null]".to_string());
    assert_eq!(first, second);
}

#[test]
fn test_quoted_text_comes_back_verbatim() {
    let tokens = lexer("\"fulano de tal\\\"".to_string()).unwrap();
    assert_eq!(tokens, vec![JsonToken::String("fulano de tal\\".into())]);
}

#[test]
fn test_number_twenty_parses_to_twenty() {
    let tokens = lexer("[20]".to_string()).unwrap();
    assert_eq!(
        tokens,
        vec![
            JsonToken::OpenSquareBracket,
            JsonToken::Number("20".into()),
            JsonToken::CloseSquareBracket,
        ]
    );
    let json = parser(&tokens).unwrap();
    match json {
        JsonValue::Array(items) => match &items[0] {
            JsonValue::Number(text) => assert_eq!(text.parse::<f64>().unwrap(), 20.0),
            other => panic!("expected a number, got {:?}", other),
        },
        other => panic!("expected an array, got {:?}", other),
    }
}

#[test]
fn test_number_merge_with_delimiter() {
    let tokens = lexer("1,2]".to_string()).unwrap();
    assert_eq!(
        tokens,
        vec![
            JsonToken::Number("1".into()),
            JsonToken::Comma,
            JsonToken::Number("2".into()),
            JsonToken::CloseSquareBracket,
        ]
    );
}

#[test]
fn test_number_followed_by_whitespace_fails() {
    assert_eq!(
        lexer("20 ".to_string()),
        Err(JsonTokenError::InvalidToken(' '))
    );
}

#[test]
fn test_carriage_return_is_not_whitespace() {
    assert_eq!(
        lexer("\r".to_string()),
        Err(JsonTokenError::InvalidToken('\r'))
    );
}

#[test]
fn test_whitespace_only_input() {
    assert_eq!(lexer(" \n\t".to_string()), Ok(vec![]));
}

#[test]
fn test_truea_fails_lexing() {
    // the boolean capture takes exactly four characters, then `a` is a new,
    // unrecognized character
    assert_eq!(
        lexer("truea".to_string()),
        Err(JsonTokenError::InvalidToken('a'))
    );
}

#[test]
fn test_truncated_literal_fails_parsing() {
    let tokens = lexer("[tru".to_string()).unwrap();
    assert_eq!(
        tokens,
        vec![
            JsonToken::OpenSquareBracket,
            JsonToken::Boolean("tru".into()),
        ]
    );
    assert_eq!(
        parser(&tokens),
        Err(JsonParseError::InvalidBooleanValue("tru".into()))
    );
}

#[test]
fn test_end_to_end_scenario() {
    let (tokens, json) =
        parse_json("[{\"money\": null, \"age\": 20}, true, false]".to_string()).unwrap();
    assert_eq!(tokens.len(), 15);

    let expected = JsonValue::Array(vec![
        JsonValue::Object(vec![
            ("money".into(), JsonValue::Null),
            ("age".into(), JsonValue::Number("20".into())),
        ]),
        JsonValue::Boolean(true),
        JsonValue::Boolean(false),
    ]);
    assert_eq!(json, expected);
}

#[test]
fn test_pipeline_empty_input() {
    assert_eq!(
        parse_json("".to_string()),
        Err(JsonError::Parse(JsonParseError::NoTokens))
    );
}

#[test]
fn test_pipeline_lex_failure_stops_parsing() {
    assert_eq!(
        parse_json("\"name".to_string()),
        Err(JsonError::Lex(JsonTokenError::ExpectedEndOfString))
    );
}

#[test]
fn test_pipeline_bare_root_rejected() {
    assert_eq!(
        parse_json("\"fulano\"".to_string()),
        Err(JsonError::Parse(JsonParseError::ExpectedObjectOrArrayAsRoot(
            JsonToken::String("fulano".into())
        )))
    );
}

#[test]
fn test_duplicate_key_last_write_wins() {
    let (_, json) = parse_json("{\"a\": 1, \"a\": 2}".to_string()).unwrap();
    assert_eq!(
        json,
        JsonValue::Object(vec![("a".into(), JsonValue::Number("2".into()))])
    );
}

#[test]
fn test_nested_structures() {
    let (_, json) = parse_json("{\"a\": [{\"b\": []}]}".to_string()).unwrap();
    let expected = JsonValue::Object(vec![(
        "a".into(),
        JsonValue::Array(vec![JsonValue::Object(vec![(
            "b".into(),
            JsonValue::Array(vec![]),
        )])]),
    )]);
    assert_eq!(json, expected);
}

#[test]
fn test_colon_after_key_with_wrong_token() {
    let input = vec![
        JsonToken::OpenCurlyBracket,
        JsonToken::String("name".into()),
        JsonToken::Comma,
    ];
    assert_eq!(
        parser(&input),
        Err(JsonParseError::ExpectedColonAfterKey(Some(JsonToken::Comma)))
    );
}

#[test]
fn test_object_separator_with_wrong_token() {
    let input = vec![
        JsonToken::OpenCurlyBracket,
        JsonToken::String("name".into()),
        JsonToken::Colon,
        JsonToken::Null("null".into()),
        JsonToken::Colon,
    ];
    assert_eq!(
        parser(&input),
        Err(JsonParseError::ExpectedCommaOrEndOfObject(Some(
            JsonToken::Colon
        )))
    );
}

#[test]
fn test_array_separator_with_wrong_token() {
    let input = vec![
        JsonToken::OpenSquareBracket,
        JsonToken::Null("null".into()),
        JsonToken::Colon,
    ];
    assert_eq!(
        parser(&input),
        Err(JsonParseError::ExpectedCommaOrEndOfArray(Some(
            JsonToken::Colon
        )))
    );
}

#[test]
fn test_number_grammar_agrees_with_float_parsing() {
    let cases = [
        "20", "4-.5", "-5", "+5", ".5", "5.", "5.25", ".", "-", "", "--1", "1.2.3", "1e5",
        "1E+10", "2e-3", "1e", "1e+", "inf", "Inf", "INF", "infinity", "Infinity", "nan", "NaN",
        "+nan", "-inf", "nan0", "infx", "e5", "1 ", "0.0e0", "1.e5", "1.E5", ".e5", "+.5",
        "-.5e-2", "1e05", "007", "  5", "5  ", "iNfInItY", "NAN", "nAn", "1_000", "1.5e", ".E3",
        "+", "++1", "1e1.5",
    ];
    for text in cases {
        let s = text.to_string();
        assert_eq!(
            is_valid_number(&s),
            text.parse::<f64>().is_ok(),
            "disagreement on {:?}",
            text
        );
    }
}

#[test]
fn test_number_validity_decides_parsing() {
    let ok = parser(&vec![
        JsonToken::OpenSquareBracket,
        JsonToken::Number("-12.5".into()),
        JsonToken::CloseSquareBracket,
    ]);
    assert_eq!(
        ok,
        Ok(JsonValue::Array(vec![JsonValue::Number("-12.5".into())]))
    );

    let bad = parser(&vec![
        JsonToken::OpenSquareBracket,
        JsonToken::Number("..".into()),
        JsonToken::CloseSquareBracket,
    ]);
    assert_eq!(bad, Err(JsonParseError::InvalidNumberValue("..".into())));
}

#[test]
fn test_helper_character_classes() {
    assert!(is_number_char('-'));
    assert!(is_number_char('.'));
    assert!(is_number_char('7'));
    assert!(!is_number_char('e'));
    assert_eq!(check_end_of_token_value(','), Some(JsonToken::Comma));
    assert_eq!(
        check_end_of_token_value('}'),
        Some(JsonToken::CloseCurlyBracket)
    );
    assert_eq!(
        check_end_of_token_value(']'),
        Some(JsonToken::CloseSquareBracket)
    );
    assert_eq!(check_end_of_token_value(':'), None);
}
