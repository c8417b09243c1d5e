use risp::eval;
use risp::Expr::{self, Atom, Integer};

#[test]
fn expr_display_integer() {
    let value = Integer(10);

    assert_eq!(value.to_text(), "10");
}

#[test]
fn display_atom() {
    let value = Atom("example".to_string());

    assert_eq!(value.to_text(), "example");
}

#[test]
fn expr_eq_integer() {
    assert_eq!(Integer(32), Integer(32));
}

#[test]
fn expr_not_eq_intger() {
    assert_ne!(Integer(1), Integer(2));
}

#[test]
fn eq_atom() {
    assert_eq!(Atom("test".to_string()), Atom("test".to_string()));
}

#[test]
fn no_eq_atom() {
    assert_ne!(Atom("test".to_string()), Atom("example".to_string()));
}

#[test]
fn not_eq_atom_and_integer() {
    assert_ne!(Atom("test".to_string()), Integer(10));
}

#[test]
fn display_negative_integer() {
    assert_eq!(Integer(-5).to_text(), "-5");
    assert_eq!(Integer(i64::MIN).to_text(), "-9223372036854775808");
}

#[test]
fn display_float() {
    assert_eq!(Expr::Float(123, "456".to_string()).to_text(), "123.456");
    assert_eq!(Expr::Float(123, String::new()).to_text(), "123.");
}

#[test]
fn display_bool_and_string() {
    assert_eq!(Expr::Bool(true).to_text(), "true");
    assert_eq!(Expr::Bool(false).to_text(), "false");
    assert_eq!(Expr::String("raw text".to_string()).to_text(), "raw text");
}

#[test]
fn eq_float_by_decimal_value() {
    assert_eq!(
        Expr::Float(1, "50".to_string()),
        Expr::Float(1, "50".to_string())
    );
    assert_eq!(
        Expr::Float(1, "5".to_string()),
        Expr::Float(1, "50".to_string())
    );
    assert_eq!(
        Expr::Float(123, String::new()),
        Expr::Float(123, "00".to_string())
    );
    assert_ne!(
        Expr::Float(1, "5".to_string()),
        Expr::Float(1, "51".to_string())
    );
    assert_ne!(
        Expr::Float(1, "5".to_string()),
        Expr::Float(2, "5".to_string())
    );
}

#[test]
fn eval_is_identity() {
    let expr = Atom("example".to_string());

    assert_eq!(eval(&expr), expr);
}
