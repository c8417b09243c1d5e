use risp::tokenize::{tokenize, Token, TokenizeError};

#[test]
fn tokenize_number() {
    let result = tokenize("123".to_string()).unwrap();

    assert_eq!(result, vec![Token::Number("123".to_string())]);
}

#[test]
fn tokenize_multiple_number() {
    let result = tokenize("123 456".to_string()).unwrap();

    assert_eq!(
        result,
        vec![
            Token::Number("123".to_string()),
            Token::WhiteSpace,
            Token::Number("456".to_string())
        ]
    );
}

#[test]
fn tokenize_quote() {
    let result = tokenize("'atom".to_string()).unwrap();

    assert_eq!(
        result,
        vec![Token::Quote, Token::Identifier("atom".to_string())]
    );
}

#[test]
fn tokenize_float() {
    let result = tokenize("123.456".to_string()).unwrap();

    assert_eq!(
        result,
        vec![
            Token::Number("123".to_string()),
            Token::Dot,
            Token::Number("456".to_string())
        ]
    );
}

#[test]
fn tokenize_bool() {
    let result = tokenize("#t".to_string()).unwrap();

    assert_eq!(result, vec![Token::Bool(true)]);
}

#[test]
fn tokenize_string() {
    let result = tokenize("\"hello\"".to_string()).unwrap();

    assert_eq!(result, vec![Token::String("hello".to_string())]);
}

#[test]
fn tokenize_bool_false() {
    let result = tokenize("#f".to_string()).unwrap();

    assert_eq!(result, vec![Token::Bool(false)]);
}

#[test]
fn tokenize_bool_prefix_leaves_rest() {
    // The boolean rule matches the two-character prefix; what follows
    // is scanned separately.
    let result = tokenize("#true".to_string()).unwrap();

    assert_eq!(
        result,
        vec![Token::Bool(true), Token::Identifier("rue".to_string())]
    );
}

#[test]
fn tokenize_empty_input() {
    let result = tokenize(String::new()).unwrap();

    assert_eq!(result, vec![]);
}

#[test]
fn tokenize_empty_string_literal() {
    let result = tokenize("\"\"".to_string()).unwrap();

    assert_eq!(result, vec![Token::String(String::new())]);
}

#[test]
fn tokenize_unknown_char_at_start() {
    let result = tokenize("@".to_string());

    assert!(matches!(
        result,
        Err(TokenizeError::UnknownChar { ch: '@', pos: 0 })
    ));
}

#[test]
fn tokenize_unknown_char_position() {
    let result = tokenize("ab%".to_string());

    assert!(matches!(
        result,
        Err(TokenizeError::UnknownChar { ch: '%', pos: 2 })
    ));
}

#[test]
fn tokenize_lone_marker_is_unknown() {
    let result = tokenize("#".to_string());

    assert!(matches!(
        result,
        Err(TokenizeError::UnknownChar { ch: '#', pos: 0 })
    ));
}

#[test]
fn tokenize_unterminated_string() {
    let result = tokenize("\"hello".to_string());

    assert!(matches!(
        result,
        Err(TokenizeError::UnterminatedString { pos: 0 })
    ));
}

#[test]
fn tokenize_each_space_is_a_token() {
    let result = tokenize("  ".to_string()).unwrap();

    assert_eq!(result, vec![Token::WhiteSpace, Token::WhiteSpace]);
}

#[test]
fn token_display_text() {
    assert_eq!(Token::Number("12".to_string()).to_text(), "12");
    assert_eq!(Token::Quote.to_text(), "quote");
    assert_eq!(Token::Identifier("ab".to_string()).to_text(), "ab");
    assert_eq!(Token::WhiteSpace.to_text(), "space");
    assert_eq!(Token::Dot.to_text(), "dot");
    assert_eq!(Token::Bool(true).to_text(), "true");
    assert_eq!(Token::Bool(false).to_text(), "false");
    assert_eq!(Token::String("hi".to_string()).to_text(), "hi");
}
