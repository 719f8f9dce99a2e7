use crusty_json::lexer::{lexer, JsonToken, JsonTokenError};

#[test]
fn lexer_test_empty_input() -> Result<(), JsonTokenError> {
    let input = "".to_string();

    let tokens = lexer(input)?;
    let expected = vec![];

    assert_eq!(tokens, expected);

    Ok(())
}

#[test]
fn test_curly_bracket_tokens() -> Result<(), JsonTokenError> {
    let input = "{}".to_string();

    let tokens = lexer(input)?;
    let expected = vec![JsonToken::OpenCurlyBracket, JsonToken::CloseCurlyBracket];

    assert_eq!(tokens, expected);

    Ok(())
}

#[test]
fn test_square_bracket_tokens() -> Result<(), JsonTokenError> {
    let input = "[]".to_string();

    let tokens = lexer(input)?;
    let expected = vec![JsonToken::OpenSquareBracket, JsonToken::CloseSquareBracket];

    assert_eq!(tokens, expected);

    Ok(())
}

#[test]
fn test_string_token() -> Result<(), JsonTokenError> {
    let input = "\"name\"".to_string();

    let tokens = lexer(input)?;
    let expected = vec![JsonToken::String("name".into())];

    assert_eq!(tokens, expected);

    Ok(())
}

#[test]
fn test_missing_string_token_end() {
    let input = "\"name".to_string();
    assert_eq!(lexer(input), Err(JsonTokenError::ExpectedEndOfString));
}

#[test]
fn test_true_token() -> Result<(), JsonTokenError> {
    let input = "true".to_string();

    let tokens = lexer(input.to_owned())?;
    let expected = vec![JsonToken::Boolean(input)];

    assert_eq!(tokens, expected);

    Ok(())
}

#[test]
fn test_invalid_true_token() {
    let input = "truea".to_string();
    assert_eq!(lexer(input), Err(JsonTokenError::InvalidToken('a')));
}

#[test]
fn test_false_token() -> Result<(), JsonTokenError> {
    let input = "false".to_string();

    let tokens = lexer(input)?;
    let expected = vec![JsonToken::Boolean("false".into())];

    assert_eq!(tokens, expected);

    Ok(())
}

#[test]
fn test_invalid_false_token() {
    let input = "falseo".to_string();
    assert_eq!(lexer(input), Err(JsonTokenError::InvalidToken('o')));
}

#[test]
fn test_null_token() -> Result<(), JsonTokenError> {
    let input = "null".to_string();

    let tokens = lexer(input)?;
    let expected = vec![JsonToken::Null("null".into())];

    assert_eq!(tokens, expected);

    Ok(())
}

#[test]
fn test_invalid_null_token() {
    let input = "Null".to_string();
    assert_eq!(lexer(input), Err(JsonTokenError::InvalidToken('N')));
}

#[test]
fn test_number_token() -> Result<(), JsonTokenError> {
    let input = "360".to_string();

    let tokens = lexer(input)?;
    let expected = vec![JsonToken::Number("360".into())];

    assert_eq!(tokens, expected);

    Ok(())
}

#[test]
fn test_invalid_number_token() {
    let input = "360f".to_string();
    assert_eq!(lexer(input), Err(JsonTokenError::InvalidToken('f')));
}

#[test]
fn test_comma_token() -> Result<(), JsonTokenError> {
    let input = ",".to_string();

    let tokens = lexer(input)?;
    let expected = vec![JsonToken::Comma];

    assert_eq!(tokens, expected);

    Ok(())
}

#[test]
fn test_colon_token() -> Result<(), JsonTokenError> {
    let input = ":".to_string();

    let tokens = lexer(input)?;
    let expected = vec![JsonToken::Colon];

    assert_eq!(tokens, expected);

    Ok(())
}

#[test]
fn test_json_tokens() -> Result<(), JsonTokenError> {
    let input = "[{\"money\": null, \"age\": 20}, true, false]".to_string();

    let tokens = lexer(input)?;
    let expected = vec![
        JsonToken::OpenSquareBracket,
        JsonToken::OpenCurlyBracket,
        JsonToken::String("money".into()),
        JsonToken::Colon,
        JsonToken::Null("null".into()),
        JsonToken::Comma,
        JsonToken::String("age".into()),
        JsonToken::Colon,
        JsonToken::Number("20".into()),
        JsonToken::CloseCurlyBracket,
        JsonToken::Comma,
        JsonToken::Boolean("true".into()),
        JsonToken::Comma,
        JsonToken::Boolean("false".into()),
        JsonToken::CloseSquareBracket,
    ];

    assert_eq!(tokens, expected);

    Ok(())
}
