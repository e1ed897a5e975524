//! Numeral literal tests.
use luaq::{lua_value, LuaValue};

const MAX_DEPTH: u16 = 16;

fn check(lua: &[u8], expected: LuaValue) {
    let actual = lua_value(lua, MAX_DEPTH).unwrap();
    if expected.is_nan() {
        assert!(actual.is_nan(), "lua: {}", lua.escape_ascii());
    } else {
        assert_eq!(actual, expected, "lua: {}", lua.escape_ascii());
    }
}

fn float(v: f64) -> LuaValue<'static> {
    LuaValue::float(v.to_bits())
}

#[test]
fn numerals_decimal_integers() {
    check(b"0", LuaValue::integer(0));
    check(b"+0", LuaValue::integer(0));
    check(b"-0", LuaValue::integer(-0));
    check(b"3", LuaValue::integer(3));
    check(b"+3", LuaValue::integer(3));
    check(b"-3", LuaValue::integer(-3));
    check(b"345", LuaValue::integer(345));
    check(b"+345", LuaValue::integer(345));
    check(b"-345", LuaValue::integer(-345));
    check(b"9223372036854775807", LuaValue::integer(i64::MAX));
    check(b"-9223372036854775808", LuaValue::integer(i64::MIN));

    // A decimal integer numeral that overflows denotes a float.
    check(b"9223372036854775808", float(9223372036854776000.));
    check(b"-9223372036854775809", float(-9223372036854776000.));
    check(b"18446744073709551615", float(18446744073709552000.));
    check(b"-18446744073709551615", float(-18446744073709552000.));
}

#[test]
fn numerals_hex_integers() {
    check(b"0xff", LuaValue::integer(0xff));
    check(b"0Xff", LuaValue::integer(0xff));
    check(b"+0xff", LuaValue::integer(0xff));
    check(b"+0Xff", LuaValue::integer(0xff));
    check(b"-0xff", LuaValue::integer(-0xff));
    check(b"-0Xff", LuaValue::integer(-0xff));
    check(b"0xBEBADA", LuaValue::integer(0xBEBADA));
    check(b"+0xBEBADA", LuaValue::integer(0xBEBADA));
    check(b"0x7fffffffffffffff", LuaValue::integer(0x7fffffffffffffff));
    check(b"+0x7fffffffffffffff", LuaValue::integer(0x7fffffffffffffff));
    check(b"-0x7fffffffffffffff", LuaValue::integer(-0x7fffffffffffffff));
    check(b"-0x8000000000000000", LuaValue::integer(-0x8000000000000000));

    // Overflow wraps around to fit into a valid integer.
    check(b"0x8000000000000000", LuaValue::integer(0x8000000000000000_u64 as i64));
    check(b"+0x8000000000000000", LuaValue::integer(0x8000000000000000_u64 as i64));
    check(b"0xffffffffffffffff", LuaValue::integer(0xffffffffffffffff_u64 as i64));
    check(b"+0xffffffffffffffff", LuaValue::integer(0xffffffffffffffff_u64 as i64));
    check(b"-0xffffffffffffffff", LuaValue::integer(-0xffffffffffffffff_i128 as i64));
    check(b"0x123456789abcdef01", LuaValue::integer(0x123456789abcdef01_u128 as i64));
    check(b"+0x123456789abcdef01", LuaValue::integer(0x123456789abcdef01_u128 as i64));
    check(b"-0x123456789abcdef01", LuaValue::integer(-0x123456789abcdef01_i128 as i64));
}

#[test]
fn numerals_decimal_floats() {
    check(b"0.0", float(0.0));
    check(b"-0.0", float(-0.0));
    check(b"3.0", float(3.0));
    check(b"-3.0", float(-3.0));
    check(b"3.1416", float(3.1416));
    check(b"-3.1416", float(-3.1416));
    check(b"314.16e-2", float(314.16e-2));
    check(b"-314.16e-2", float(-314.16e-2));
    check(b"0.31416E1", float(0.31416E1));
    check(b"0.31416E+1", float(0.31416E1));
    check(b"+0.31416E1", float(0.31416E1));
    check(b"+0.31416E+1", float(0.31416E1));
    check(b"-0.31416E1", float(-0.31416E1));
    check(b"34e1", float(34e1));
    check(b"-34e1", float(-34e1));

    // Maximum and minimum safe integer in a binary64 value.
    check(b"9007199254740991.", float(9007199254740991.));
    check(b"-9007199254740991.", float(-9007199254740991.));

    // Expect loss of precision beyond those.
    check(b"9007199254740992.", float(9007199254740992.));
    check(b"9007199254740993.", float(9007199254740992.));
    check(b"-9007199254740992.", float(-9007199254740992.));
    check(b"-9007199254740993.", float(-9007199254740992.));

    // Binary64 bounds.
    check(b"1.7976931348623157e+308", float(f64::MAX));
    check(b"-1.7976931348623157e+308", float(f64::MIN));

    // Overflow.
    check(b"1.8e+308", float(f64::INFINITY));
    check(b"-1.8e+308", float(f64::NEG_INFINITY));
}

#[test]
fn numerals_hex_floats() {
    check(b"0E+1", float(0.));

    // An expression-like suffix must not parse.
    assert!(lua_value(b"0xE+1", MAX_DEPTH).is_err());
    assert!(lua_value(b"0xE-1", MAX_DEPTH).is_err());

    check(b"0x1.fp10", float(1984.));

    check(b"0x2.5", float(f64::from(0x25) / 16.));
    check(b"+0x2.5", float(f64::from(0x25) / 16.));
    check(b"-0x2.5", float(f64::from(-0x25) / 16.));

    check(b"0x0p12", float(0.));
    check(b"-0x0p12", float(-0.));
    check(b"0x.0p-3", float(0.));
    check(b"+0x0.51p+8", float(0x51_i32.into()));
    check(b"0xA.a", float(10f64 + (10. / 16.)));
    check(b"0xa.aP4", float(0xAA.into()));
    check(b"0x.ABCDEFp+24", float(0xabcdef.into()));
}

#[test]
fn numerals_special_floats() {
    check(b"(0/0)", float(f64::NAN));
    check(b"1e9999", float(f64::INFINITY));
    check(b"-1e9999", float(f64::NEG_INFINITY));
}

#[test]
fn numerals_hex_float_rounding() {
    // Reading a hexadecimal float rounds to nearest, ties to even.
    check(b"0x1.00000000000008p0", float(1.0));
    check(b"0x1.00000000000018p0", float(1.0000000000000004));
    check(b"0x1.0000000000000800000001p0", float(1.0000000000000002));
    // Subnormals and the underflow boundary.
    check(b"0x1p-1074", float(5e-324));
    check(b"0x1p-1075", float(0.0));
    check(b"0x1.8p-1074", float(1e-323));
    check(b"-0x1p-1074", float(-5e-324));
    // Overflow to infinity.
    check(b"0x1p1024", float(f64::INFINITY));
    check(b"-0x1p1024", float(f64::NEG_INFINITY));
    check(b"0x1.fffffffffffff7p1023", float(f64::MAX));
    check(b"0x1.fffffffffffff8p1023", float(f64::INFINITY));
}
