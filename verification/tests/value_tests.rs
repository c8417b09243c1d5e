use risp::Value::Integer;

#[test]
fn value_display_integer() {
    let value = Integer(10);

    assert_eq!(value.to_text(), "10");
}

#[test]
fn value_eq_integer() {
    assert_eq!(Integer(32), Integer(32));
}

#[test]
fn value_not_eq_intger() {
    assert_ne!(Integer(1), Integer(2));
}

#[test]
fn value_display_negative_integer() {
    assert_eq!(Integer(-42).to_text(), "-42");
}
