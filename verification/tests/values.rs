use simple_query_engine::decimal::decimal_string;
use simple_query_engine::value::{text_equal, text_order, NumberError, Place, Value};
use std::cmp::Ordering;

#[test]
fn digits_parse_as_integer() {
    assert_eq!(Value::parse_value("42".to_string()), Ok(Value::Integer(42)));
    assert_eq!(Value::parse_value("0".to_string()), Ok(Value::Integer(0)));
    assert_eq!(Value::parse_value("7".to_string()), Ok(Value::Integer(7)));
}

#[test]
fn largest_integer_parses() {
    assert_eq!(
        Value::parse_value("18446744073709551615".to_string()),
        Ok(Value::Integer(u64::MAX))
    );
}

#[test]
fn number_beyond_64_bits_is_out_of_range() {
    assert_eq!(
        Value::parse_value("18446744073709551616".to_string()),
        Err(NumberError::OutOfRange)
    );
    assert_eq!(
        Value::parse_value("99999999999999999999999999".to_string()),
        Err(NumberError::OutOfRange)
    );
}

#[test]
fn leading_zero_is_an_error() {
    assert_eq!(Value::parse_value("007".to_string()), Err(NumberError::LeadingZero));
    assert_eq!(Value::parse_value("00".to_string()), Err(NumberError::LeadingZero));
    assert_eq!(
        Value::parse_value("099999999999999999999999999".to_string()),
        Err(NumberError::LeadingZero)
    );
}

#[test]
fn empty_text_is_text() {
    assert_eq!(Value::parse_value(String::new()), Ok(Value::Text(String::new())));
}

#[test]
fn other_text_is_kept_verbatim() {
    assert_eq!(Value::parse_value("12a".to_string()), Ok(Value::Text("12a".to_string())));
    assert_eq!(Value::parse_value("-5".to_string()), Ok(Value::Text("-5".to_string())));
    assert_eq!(Value::parse_value(" 5".to_string()), Ok(Value::Text(" 5".to_string())));
    assert_eq!(Value::parse_value("٣".to_string()), Ok(Value::Text("٣".to_string())));
    assert_eq!(
        Value::parse_value("99999999999999999999999999x".to_string()),
        Ok(Value::Text("99999999999999999999999999x".to_string()))
    );
}

#[test]
fn integers_order_by_magnitude() {
    assert_eq!(Value::Integer(9).cmp(&Value::Integer(10)), Ordering::Less);
    assert_eq!(Value::Integer(10).cmp(&Value::Integer(10)), Ordering::Equal);
    assert_eq!(Value::Integer(11).cmp(&Value::Integer(10)), Ordering::Greater);
    assert!(Value::Integer(9) < Value::Integer(10));
}

#[test]
fn texts_order_lexicographically() {
    let text = |s: &str| Value::Text(s.to_string());
    assert_eq!(text("aaa").cmp(&text("bbb")), Ordering::Less);
    assert_eq!(text("b").cmp(&text("bbb")), Ordering::Less);
    assert_eq!(text("bbb").cmp(&text("b")), Ordering::Greater);
    assert_eq!(text("10").cmp(&text("9")), Ordering::Less);
    assert_eq!(text("").cmp(&text("")), Ordering::Equal);
    assert_eq!(text("").cmp(&text("a")), Ordering::Less);
    assert_eq!(text("abc").cmp(&text("abc")), Ordering::Equal);
    assert_eq!(text("é").cmp(&text("z")), Ordering::Greater);
    assert_eq!(text("\u{ff5e}").cmp(&text("\u{10000}")), Ordering::Less);
    assert!(text("ccc") > text("bbb"));
    assert!(text("ccc") >= text("ccc"));
}

#[test]
fn text_order_agrees_with_the_standard_order() {
    let samples = ["", "a", "ab", "abc", "b", "B", "é", "z", "\u{ff5e}", "\u{10000}", "10", "9"];
    for x in samples.iter() {
        for y in samples.iter() {
            assert_eq!(text_order(x, y), x.cmp(y));
            assert_eq!(text_equal(x, y), x == y);
        }
    }
}

#[test]
fn every_integer_comes_before_every_text() {
    let text = Value::Text("".to_string());
    let digits = Value::Text("0".to_string());
    assert_eq!(Value::Integer(u64::MAX).cmp(&text), Ordering::Less);
    assert_eq!(text.cmp(&Value::Integer(0)), Ordering::Greater);
    assert_eq!(Value::Integer(5).cmp(&digits), Ordering::Less);
    assert_eq!(Value::Integer(5).place(&digits), Place::Before);
    assert_eq!(digits.place(&Value::Integer(5)), Place::After);
    assert_eq!(digits.place(&digits), Place::Same);
    assert!(Value::Integer(5).less_than(&digits));
    assert!(!digits.less_than(&Value::Integer(5)));
    assert!(digits.greater_than(&Value::Integer(5)));
}

#[test]
fn equality_is_structural() {
    assert_eq!(Value::Integer(3), Value::Integer(3));
    assert_ne!(Value::Integer(3), Value::Integer(4));
    assert_ne!(Value::Integer(3), Value::Text("3".to_string()));
    assert_eq!(Value::Text("x".to_string()), Value::Text("x".to_string()));
    assert_ne!(Value::Text("x".to_string()), Value::Text("y".to_string()));
    let value = Value::Text("copy".to_string());
    assert_eq!(value.clone(), value);
}

#[test]
fn values_display_without_quotes() {
    assert_eq!(Value::Integer(0).display(), "0");
    assert_eq!(Value::Integer(42).display(), "42");
    assert_eq!(Value::Integer(u64::MAX).display(), "18446744073709551615");
    assert_eq!(Value::Text("a, b".to_string()).display(), "a, b");
    assert_eq!(Value::Text(String::new()).display(), "");
}

#[test]
fn digits_of_a_number() {
    assert_eq!(decimal_string(0), "0");
    assert_eq!(decimal_string(9), "9");
    assert_eq!(decimal_string(10), "10");
    assert_eq!(decimal_string(1234567890), "1234567890");
    for n in [0u64, 1, 9, 10, 99, 100, 12345, u64::MAX] {
        assert_eq!(decimal_string(n), n.to_string());
        assert_eq!(Value::parse_value(decimal_string(n)), Ok(Value::Integer(n)));
    }
}

#[test]
fn number_errors_have_messages() {
    assert_eq!(NumberError::OutOfRange.message(), "number too large to fit in target type");
    assert_eq!(NumberError::LeadingZero.message(), "number has a leading zero");
}
