use matchstick::value::{same_text, Value};

#[test]
fn renders_scalars() {
    assert_eq!(Value::Null.render(), "null");
    assert_eq!(Value::Bool(true).render(), "true");
    assert_eq!(Value::Bool(false).render(), "false");
    assert_eq!(Value::Int(0).render(), "0");
    assert_eq!(Value::Int(-42).render(), "-42");
    assert_eq!(Value::Int(i32::MIN).render(), "-2147483648");
    assert_eq!(Value::Int(i32::MAX).render(), "2147483647");
    assert_eq!(Value::BigInt("123456789012345678901234567890".to_string()).render(), "123456789012345678901234567890");
    assert_eq!(Value::BigDecimal("1.5".to_string()).render(), "1.5");
    assert_eq!(Value::String("Alice".to_string()).render(), "Alice");
}

#[test]
fn renders_bytes_as_hex() {
    assert_eq!(Value::Bytes(vec![0xab, 0x01, 0x00, 0xff]).render(), "0xab0100ff");
    assert_eq!(Value::Bytes(vec![]).render(), "0x");
}

#[test]
fn renders_lists_in_order() {
    let v = Value::List(vec![
        Value::String("a".to_string()),
        Value::Int(1),
        Value::List(vec![Value::Bool(true), Value::Null]),
        Value::List(vec![]),
    ]);
    assert_eq!(v.render(), "[a, 1, [true, null], []]");
    let w = Value::List(vec![Value::Int(1), Value::String("a".to_string())]);
    assert_eq!(w.render(), "[1, a]");
}

#[test]
fn compares_texts() {
    assert!(same_text("abc", "abc"));
    assert!(!same_text("abc", "abd"));
    assert!(!same_text("", "a"));
}
