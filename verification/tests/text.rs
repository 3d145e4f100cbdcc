use lisp0::memory::{Primitive, Value};
use lisp0::text::{hex_lower, int_to_string, parse_i64, str_order, usize_to_string, utf8_length};

#[test]
fn integers_in_decimal() {
    assert_eq!(int_to_string(0), "0");
    assert_eq!(int_to_string(-45), "-45");
    assert_eq!(int_to_string(i64::MIN), "-9223372036854775808");
    assert_eq!(int_to_string(i64::MAX), "9223372036854775807");
    assert_eq!(usize_to_string(1200), "1200");
}

#[test]
fn hexadecimal_lower_case() {
    assert_eq!(hex_lower(0xa0), "a0");
    assert_eq!(hex_lower(0), "0");
    assert_eq!(hex_lower(0xfeff), "feff");
}

#[test]
fn parsing_integers() {
    assert_eq!(parse_i64(&"12".to_string()), Some(12));
    assert_eq!(parse_i64(&"+7".to_string()), Some(7));
    assert_eq!(parse_i64(&"-9223372036854775808".to_string()), Some(i64::MIN));
    assert_eq!(parse_i64(&"9223372036854775808".to_string()), None);
    assert_eq!(parse_i64(&"".to_string()), None);
    assert_eq!(parse_i64(&"-".to_string()), None);
    assert_eq!(parse_i64(&"1x".to_string()), None);
    assert_eq!(parse_i64(&" 1".to_string()), None);
}

#[test]
fn string_order_by_code_point() {
    assert_eq!(str_order(&"a".to_string(), &"b".to_string()), -1);
    assert_eq!(str_order(&"b".to_string(), &"a".to_string()), 1);
    assert_eq!(str_order(&"ab".to_string(), &"ab".to_string()), 0);
    assert_eq!(str_order(&"a".to_string(), &"ab".to_string()), -1);
    assert_eq!(str_order(&"Z".to_string(), &"a".to_string()), -1);
}

#[test]
fn byte_lengths() {
    assert_eq!(utf8_length(&"abc".to_string()), Some(3));
    assert_eq!(utf8_length(&"é€😀".to_string()), Some(2 + 3 + 4));
}

#[test]
fn texts_of_values() {
    assert_eq!(Primitive::Int(-3).to_text(), "-3");
    assert_eq!(Primitive::String("s".to_string()).to_text(), "s");
    assert_eq!(Primitive::Nil.to_text(), "[nil]");
    assert_eq!(Value::Dict.to_text(), "[dict]");
    assert_eq!(Value::Primitive(Primitive::String("a\"b".to_string())).debug_text(), "Primitive(String(\"a\\\"b\"))");
    assert_eq!(Value::Primitive(Primitive::Int(4)).debug_text(), "Primitive(Int(4))");
}
