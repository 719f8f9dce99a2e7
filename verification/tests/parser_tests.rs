use crusty_json::lexer::JsonToken;
use crusty_json::parser::{parser, JsonParseError, JsonValue};

#[test]
fn parser_test_empty_input() {
    let input = vec![];
    assert_eq!(parser(&input), Err(JsonParseError::NoTokens));
}

#[test]
fn test_invalid_root() {
    let invalid_token = JsonToken::String("fulano".into());
    let input = vec![invalid_token.to_owned()];

    assert_eq!(
        parser(&input),
        Err(JsonParseError::ExpectedObjectOrArrayAsRoot(invalid_token))
    );
}

#[test]
fn test_missing_object_close() {
    let input = vec![JsonToken::OpenCurlyBracket];
    assert_eq!(parser(&input), Err(JsonParseError::ExpectedEndOfObject));
}

#[test]
fn test_missing_array_close() {
    let input = vec![JsonToken::OpenSquareBracket];
    assert_eq!(parser(&input), Err(JsonParseError::ExpectedEndOfArray));
}

#[test]
fn test_missing_object_key() {
    let invalid_token = JsonToken::Number("360".into());

    let input = vec![
        JsonToken::OpenCurlyBracket,
        invalid_token.to_owned(),
        JsonToken::CloseCurlyBracket,
    ];

    assert_eq!(
        parser(&input),
        Err(JsonParseError::ExpectedObjectKey(invalid_token))
    );
}

#[test]
fn test_missing_colon_after_object_key() {
    let input = vec![
        JsonToken::OpenCurlyBracket,
        JsonToken::String("name".into()),
    ];

    assert_eq!(
        parser(&input),
        Err(JsonParseError::ExpectedColonAfterKey(None))
    );
}

#[test]
fn test_missing_object_value_after_colon() {
    let input = vec![
        JsonToken::OpenCurlyBracket,
        JsonToken::String("name".into()),
        JsonToken::Colon,
    ];

    assert_eq!(parser(&input), Err(JsonParseError::InvalidValue(None)));
}

#[test]
fn test_invalid_object_value_after_colon() {
    let invalid_token = JsonToken::CloseCurlyBracket;

    let input = vec![
        JsonToken::OpenCurlyBracket,
        JsonToken::String("name".into()),
        JsonToken::Colon,
        invalid_token.to_owned(),
    ];

    assert_eq!(
        parser(&input),
        Err(JsonParseError::InvalidValue(Some(invalid_token)))
    );
}

#[test]
fn test_invalid_array_value() {
    let invalid_token = JsonToken::Colon;

    let input = vec![JsonToken::OpenSquareBracket, invalid_token.to_owned()];

    assert_eq!(
        parser(&input),
        Err(JsonParseError::InvalidValue(Some(invalid_token)))
    );
}

#[test]
fn test_missing_end_after_object_value() {
    let input = vec![
        JsonToken::OpenCurlyBracket,
        JsonToken::String("name".into()),
        JsonToken::Colon,
        JsonToken::String("fulano".into()),
    ];

    assert_eq!(
        parser(&input),
        Err(JsonParseError::ExpectedCommaOrEndOfObject(None))
    );
}

#[test]
fn test_missing_end_after_array_value() {
    let input = vec![
        JsonToken::OpenSquareBracket,
        JsonToken::String("name".into()),
    ];

    assert_eq!(
        parser(&input),
        Err(JsonParseError::ExpectedCommaOrEndOfArray(None))
    );
}

#[test]
fn test_invalid_number() {
    let invalid_number = String::from("4-.5");

    let input = vec![
        JsonToken::OpenSquareBracket,
        JsonToken::Number(invalid_number.to_owned()),
    ];

    assert_eq!(
        parser(&input),
        Err(JsonParseError::InvalidNumberValue(invalid_number))
    );
}

#[test]
fn test_invalid_true() {
    let invalid_true = String::from("trua");

    let input = vec![
        JsonToken::OpenSquareBracket,
        JsonToken::Boolean(invalid_true.to_owned()),
    ];

    assert_eq!(
        parser(&input),
        Err(JsonParseError::InvalidBooleanValue(invalid_true))
    );
}

#[test]
fn test_invalid_false() {
    let invalid_false = String::from("falso");

    let input = vec![
        JsonToken::OpenSquareBracket,
        JsonToken::Boolean(invalid_false.to_owned()),
    ];

    assert_eq!(
        parser(&input),
        Err(JsonParseError::InvalidBooleanValue(invalid_false))
    );
}

#[test]
fn test_invalid_null() {
    let invalid_null = String::from("nulo");

    let input = vec![
        JsonToken::OpenSquareBracket,
        JsonToken::Null(invalid_null.to_owned()),
    ];

    assert_eq!(
        parser(&input),
        Err(JsonParseError::InvalidNullValue(invalid_null))
    );
}

#[test]
fn test_trailing_comma_in_object() {
    let input = vec![
        JsonToken::OpenSquareBracket,
        JsonToken::Null("null".into()),
        JsonToken::Comma,
        JsonToken::CloseSquareBracket,
    ];

    assert_eq!(parser(&input), Err(JsonParseError::TrailingComma));
}

#[test]
fn test_trailing_comma_in_array() {
    let input = vec![
        JsonToken::OpenCurlyBracket,
        JsonToken::String("name".into()),
        JsonToken::Colon,
        JsonToken::String("fulano".into()),
        JsonToken::Comma,
        JsonToken::CloseCurlyBracket,
    ];

    assert_eq!(parser(&input), Err(JsonParseError::TrailingComma));
}

#[test]
fn test_parser() -> Result<(), JsonParseError> {
    let input = vec![
        JsonToken::OpenSquareBracket,
        JsonToken::OpenCurlyBracket,
        JsonToken::String("money".into()),
        JsonToken::Colon,
        JsonToken::Null("null".into()),
        JsonToken::Comma,
        JsonToken::String("age".into()),
        JsonToken::Colon,
        JsonToken::Number("20".into()),
        JsonToken::CloseCurlyBracket,
        JsonToken::Comma,
        JsonToken::Boolean("true".into()),
        JsonToken::Comma,
        JsonToken::Boolean("false".into()),
        JsonToken::CloseSquareBracket,
    ];

    let obj: Vec<(String, JsonValue)> = vec![
        ("money".into(), JsonValue::Null),
        ("age".into(), JsonValue::Number("20".into())),
    ];

    let arr = vec![
        JsonValue::Object(obj),
        JsonValue::Boolean(true),
        JsonValue::Boolean(false),
    ];

    let expected = JsonValue::Array(arr);

    let json = parser(&input)?;

    assert_eq!(json, expected);

    // the number entry carries the raw text of the double 20.0
    assert_eq!("20".parse::<f64>().unwrap(), 20.0);

    Ok(())
}
