use risp::parse::{parse, ParseError};
use risp::tokenize::TokenizeError;
use risp::Expr;

#[test]
fn parse_integer() {
    let result = parse("123".to_string()).unwrap();

    assert_eq!(result, vec![Expr::Integer(123)]);
}

#[test]
fn parse_multiple_integer() {
    let result = parse("123 456".to_string()).unwrap();

    assert_eq!(result, vec![Expr::Integer(123), Expr::Integer(456)]);
}

#[test]
fn parse_atom() {
    let result = parse("'atom".to_string()).unwrap();

    assert_eq!(result, vec![Expr::Atom("atom".to_string())]);
}

#[test]
fn parse_float() {
    let result = parse("123.456".to_string()).unwrap();

    assert_eq!(result, vec![Expr::Float(123, "456".to_string())]);
}

#[test]
fn parse_lack_float() {
    let result = parse("123. 3".to_string()).unwrap();

    assert_eq!(
        result,
        vec![Expr::Float(123, String::new()), Expr::Integer(3)]
    );
}

#[test]
fn parse_trailing_dot_float() {
    let result = parse("123.".to_string()).unwrap();

    assert_eq!(result, vec![Expr::Float(123, String::new())]);
}

#[test]
fn parse_zero() {
    let result = parse("0".to_string()).unwrap();

    assert_eq!(result, vec![Expr::Integer(0)]);
}

#[test]
fn parse_largest_integer() {
    let result = parse("9223372036854775807".to_string()).unwrap();

    assert_eq!(result, vec![Expr::Integer(i64::MAX)]);
}

#[test]
fn parse_overflowing_integer() {
    let result = parse("9223372036854775808".to_string());

    assert!(matches!(result, Err(ParseError::Overflow)));
}

#[test]
fn parse_leading_zeros() {
    let result = parse("007".to_string()).unwrap();

    assert_eq!(result, vec![Expr::Integer(7)]);
}

#[test]
fn parse_unterminated_quote() {
    let result = parse("'".to_string());

    assert!(matches!(result, Err(ParseError::UnterminatedQuote)));
}

#[test]
fn parse_quote_of_number_is_not_atom() {
    let result = parse("'1".to_string());

    assert!(matches!(result, Err(ParseError::NotAtom)));
}

#[test]
fn parse_stray_dot_is_unexpected() {
    let result = parse(".".to_string());

    assert!(matches!(
        result,
        Err(ParseError::UnexpectedToken(risp::Token::Dot))
    ));
}

#[test]
fn parse_bare_identifier_is_unexpected() {
    let result = parse("atom".to_string());

    assert!(matches!(result, Err(ParseError::UnexpectedToken(_))));
}

#[test]
fn parse_stray_bool_is_unexpected() {
    let result = parse("#t".to_string());

    assert!(matches!(
        result,
        Err(ParseError::UnexpectedToken(risp::Token::Bool(true)))
    ));
}

#[test]
fn parse_stray_string_is_unexpected() {
    let result = parse("\"text\"".to_string());

    assert!(matches!(
        result,
        Err(ParseError::UnexpectedToken(risp::Token::String(_)))
    ));
}

#[test]
fn parse_empty_input() {
    let result = parse(String::new()).unwrap();

    assert_eq!(result, vec![]);
}

#[test]
fn parse_whitespace_only_expects_expression() {
    let result = parse(" ".to_string());

    assert!(matches!(result, Err(ParseError::EndOfInput)));
}

#[test]
fn parse_reports_scan_errors() {
    let result = parse("12 @".to_string());

    assert!(matches!(
        result,
        Err(ParseError::Tokenize(TokenizeError::UnknownChar {
            ch: '@',
            pos: 3
        }))
    ));
}

#[test]
fn parsed_floats_compare_by_value() {
    assert_eq!(
        parse("1.5".to_string()).unwrap(),
        parse("1.50".to_string()).unwrap()
    );
    assert_eq!(
        parse("123.".to_string()).unwrap(),
        parse("123.0".to_string()).unwrap()
    );
    assert_ne!(
        parse("1.5".to_string()).unwrap(),
        parse("1.51".to_string()).unwrap()
    );
}

#[test]
fn parse_concatenation_with_space() {
    let left = parse("123.".to_string()).unwrap();
    let right = parse("'atom 45".to_string()).unwrap();
    let combined = parse("123. 'atom 45".to_string()).unwrap();

    assert_eq!(combined.len(), left.len() + right.len());
    assert_eq!(combined[0], left[0]);
    assert_eq!(combined[1], right[0]);
    assert_eq!(combined[2], right[1]);
}

#[test]
fn round_trip_integer() {
    let parsed = parse("123".to_string()).unwrap();
    let text = parsed[0].to_text();
    assert_eq!(text, "123");

    let reparsed = parse(text).unwrap();
    assert_eq!(reparsed, parsed);
}

#[test]
fn round_trip_float() {
    let parsed = parse("45.670".to_string()).unwrap();
    let text = parsed[0].to_text();
    assert_eq!(text, "45.670");

    let reparsed = parse(text).unwrap();
    assert_eq!(reparsed, parsed);
}

#[test]
fn round_trip_float_without_fraction() {
    let parsed = parse("123.".to_string()).unwrap();
    let text = parsed[0].to_text();
    assert_eq!(text, "123.");

    let reparsed = parse(text).unwrap();
    assert_eq!(reparsed, parsed);
}
