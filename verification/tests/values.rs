//! Accessors and queries on values and numbers.
use luaq::{lua_value, LuaNumber, LuaStr, LuaValue};

const MAX_DEPTH: u16 = 16;

#[test]
fn value_accessors() {
    let a = LuaValue::String(LuaStr::Borrowed(b"hello world"));
    assert_eq!(Some(b"hello world".as_slice()), a.as_bytes());
    assert_eq!(Some("hello world"), a.as_str());
    assert_eq!(Some("hello world".to_string()), a.as_str_lossy());

    let b = LuaValue::String(LuaStr::Borrowed(b"\0\xC0"));
    assert_eq!(Some(b"\0\xC0".as_slice()), b.as_bytes());
    assert_eq!(None, b.as_str());
    assert_eq!(Some("\0\u{FFFD}".to_string()), b.as_str_lossy());

    let c = LuaValue::Boolean(true);
    assert_eq!(None, c.as_bytes());
    assert_eq!(Some(true), c.as_bool());
    assert_eq!(None, a.as_bool());

    assert_eq!(Some(123), LuaValue::integer(123).as_i64());
    assert_eq!(Some(i64::MIN), LuaValue::integer(i64::MIN).as_i64());
    assert_eq!(None, LuaValue::float(3.0f64.to_bits()).as_i64());

    assert_eq!(
        Some(3.14f64.to_bits()),
        LuaValue::float(3.14f64.to_bits()).as_f64()
    );
    assert_eq!(Some(123.0f64.to_bits()), LuaValue::integer(123).as_f64());
    assert_eq!(None, LuaValue::integer(i64::MAX).as_f64());
    assert_eq!(None, c.as_f64());
}

#[test]
fn number_queries() {
    let nan = LuaNumber::Float(f64::NAN.to_bits());
    let inf = LuaNumber::Float(f64::INFINITY.to_bits());
    let neg_inf = LuaNumber::Float(f64::NEG_INFINITY.to_bits());
    let one = LuaNumber::Float(1.0f64.to_bits());
    let int = LuaNumber::Integer(7);

    assert!(nan.is_nan() && !inf.is_nan() && !one.is_nan() && !int.is_nan());
    assert!(!nan.is_finite() && !inf.is_finite() && one.is_finite() && int.is_finite());
    assert!(!nan.is_infinite() && inf.is_infinite() && neg_inf.is_infinite());
    assert!(!one.is_infinite() && !int.is_infinite());
    assert!(int.is_i64() && !int.is_f64());
    assert!(one.is_f64() && !one.is_i64());
    assert_eq!(Some(7), int.as_i64());
    assert_eq!(None, one.as_i64());

    // Exact integer-to-float conversion, up to 2^53 - 1.
    assert_eq!(Some(0.0f64.to_bits()), LuaNumber::Integer(0).as_f64());
    assert_eq!(
        Some(9007199254740991.0f64.to_bits()),
        LuaNumber::Integer((1 << 53) - 1).as_f64()
    );
    assert_eq!(
        Some((-9007199254740991.0f64).to_bits()),
        LuaNumber::Integer(-((1 << 53) - 1)).as_f64()
    );
    assert_eq!(None, LuaNumber::Integer(1 << 53).as_f64());
    assert_eq!(None, LuaNumber::Integer(-(1 << 53)).as_f64());

    // Parsed numbers agree with the queries.
    let v = lua_value(b"(0/0)", MAX_DEPTH).unwrap();
    assert!(v.is_nan() && !v.is_finite() && !v.is_infinite());
    let v = lua_value(b"1e9999", MAX_DEPTH).unwrap();
    assert!(v.is_infinite() && !v.is_finite() && !v.is_nan());
    let v = lua_value(b"3", MAX_DEPTH).unwrap();
    assert!(v.is_finite() && !v.is_infinite() && !v.is_nan());
}

#[test]
fn identifier_validation() {
    assert!(luaq::valid_lua_identifier(b"foo"));
    assert!(luaq::valid_lua_identifier(b"_foo1"));
    assert!(luaq::valid_lua_identifier(b"nil1"));
    assert!(!luaq::valid_lua_identifier(b""));
    assert!(!luaq::valid_lua_identifier(b"1foo"));
    assert!(!luaq::valid_lua_identifier(b"foo bar"));
    assert!(!luaq::valid_lua_identifier(b"nil"));
    assert!(!luaq::valid_lua_identifier(b"while"));
    assert!(!luaq::valid_lua_identifier("caf\u{e9}".as_bytes()));
}

#[test]
fn wrapping_parse() {
    assert_eq!(Some(255), luaq::wrapping_parse_int(b"ff", 16, true));
    assert_eq!(Some(-255), luaq::wrapping_parse_int(b"ff", 16, false));
    assert_eq!(Some(-1), luaq::wrapping_parse_int(b"ffffffffffffffff", 16, true));
    assert_eq!(Some(1), luaq::wrapping_parse_int(b"ffffffffffffffff", 16, false));
    assert_eq!(Some(255), luaq::wrapping_parse_int(b"11111111", 2, true));
    assert_eq!(None, luaq::wrapping_parse_int(b"f_", 16, true));
    assert_eq!(Some(35), luaq::wrapping_parse_int(b"z", 36, true));
}
