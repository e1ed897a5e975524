//! Basic values, keywords, scripts, and the UTF-8 string bridges.
use luaq::{
    from_utf8_cow, from_utf8_cow_lossy, lua_value, return_statement, script, LuaStr, LuaText,
    LuaValue,
};

const MAX_DEPTH: u16 = 16;

fn check(lua: &[u8], expected: LuaValue) {
    let actual = lua_value(lua, MAX_DEPTH).unwrap();
    if expected.is_nan() {
        assert!(actual.is_nan(), "lua: {}", lua.escape_ascii());
    } else {
        assert_eq!(actual, expected, "lua: {}", lua.escape_ascii());
    }

    // Script
    let mut s = Vec::with_capacity(lua.len() + 4);
    s.extend_from_slice(b"a = ");
    s.extend_from_slice(lua);
    let mut pairs = script(&s, MAX_DEPTH).unwrap();
    let (n, actual) = pairs.pop().unwrap();
    assert_eq!(b"a".as_slice(), n);
    if expected.is_nan() {
        assert!(actual.is_nan(), "lua: {}", s.escape_ascii());
    } else {
        assert_eq!(actual, expected, "lua: {}", s.escape_ascii());
    }

    // Return statement
    let mut r = Vec::with_capacity(lua.len() + 7);
    r.extend_from_slice(b"return ");
    r.extend_from_slice(lua);
    let actual = return_statement(&r, MAX_DEPTH).unwrap();
    if expected.is_nan() {
        assert!(actual.is_nan(), "lua: {}", r.escape_ascii());
    } else {
        assert_eq!(actual, expected, "lua: {}", r.escape_ascii());
    }
}

#[test]
fn lib_sorted_keywords() {
    let kw = luaq::lua_keywords();
    assert_eq!(22, kw.len());
    assert!(kw.is_sorted());
}

#[test]
fn mod_cow() {
    let t = from_utf8_cow(LuaStr::Borrowed(b"foo")).unwrap();
    assert!(matches!(t, LuaText::Borrowed("foo")));

    let t = from_utf8_cow_lossy(LuaStr::Borrowed(b"foo"));
    assert!(matches!(t, LuaText::Borrowed("foo")));

    let t = from_utf8_cow(LuaStr::Owned(b"foo".to_vec())).unwrap();
    assert!(matches!(t, LuaText::Owned(ref o) if o == "foo"));

    let t = from_utf8_cow_lossy(LuaStr::Owned(b"foo".to_vec()));
    assert!(matches!(t, LuaText::Owned(ref o) if o == "foo"));

    // Errors should return the original value.
    let w = from_utf8_cow(LuaStr::Borrowed(b"\xFEfoo")).unwrap_err();
    assert!(matches!(w, LuaStr::Borrowed(b"\xFEfoo")));

    // Lossy conversions may copy.
    let t = from_utf8_cow_lossy(LuaStr::Borrowed(b"\xFEfoo"));
    assert!(matches!(t, LuaText::Owned(ref o) if o == "\u{FFFD}foo"));
}

#[test]
fn value_cow() {
    let t = from_utf8_cow(LuaStr::Borrowed(b"bar")).unwrap();
    assert!(matches!(t, LuaText::Borrowed("bar")));

    let w = from_utf8_cow(LuaStr::Owned(b"\xC0".to_vec())).unwrap_err();
    assert!(matches!(w, LuaStr::Owned(ref o) if o.as_slice() == b"\xC0"));
}

#[test]
fn hex_overflow() {
    // The wrapped 64-bit patterns reinterpret as signed values.
    let v = lua_value(b"0xffffffffffffffff", MAX_DEPTH).unwrap();
    assert_eq!(Some(-1), v.as_i64());
    assert_eq!(-1i8, i8::try_from(v.as_i64().unwrap()).unwrap());

    let v = lua_value(b"0xffffffffffffff80", MAX_DEPTH).unwrap();
    assert_eq!(i8::MIN, i8::try_from(v.as_i64().unwrap()).unwrap());
    let v = lua_value(b"0x80", MAX_DEPTH).unwrap();
    assert!(i8::try_from(v.as_i64().unwrap()).is_err());
    let v = lua_value(b"0xff", MAX_DEPTH).unwrap();
    assert!(i8::try_from(v.as_i64().unwrap()).is_err());
    let v = lua_value(b"0xffffffffffffff7f", MAX_DEPTH).unwrap();
    assert!(i8::try_from(v.as_i64().unwrap()).is_err());

    let v = lua_value(b"0xffffffffffff8000", MAX_DEPTH).unwrap();
    assert_eq!(i16::MIN, i16::try_from(v.as_i64().unwrap()).unwrap());
    let v = lua_value(b"0x8000", MAX_DEPTH).unwrap();
    assert!(i16::try_from(v.as_i64().unwrap()).is_err());
    let v = lua_value(b"0xffff", MAX_DEPTH).unwrap();
    assert!(i16::try_from(v.as_i64().unwrap()).is_err());
    let v = lua_value(b"0xffffffffffff7fff", MAX_DEPTH).unwrap();
    assert!(i16::try_from(v.as_i64().unwrap()).is_err());

    let v = lua_value(b"0xffffffff80000000", MAX_DEPTH).unwrap();
    assert_eq!(i32::MIN, i32::try_from(v.as_i64().unwrap()).unwrap());
    let v = lua_value(b"0x80000000", MAX_DEPTH).unwrap();
    assert!(i32::try_from(v.as_i64().unwrap()).is_err());
    let v = lua_value(b"0xffffffff", MAX_DEPTH).unwrap();
    assert!(i32::try_from(v.as_i64().unwrap()).is_err());
    let v = lua_value(b"0xffffffff7fffffff", MAX_DEPTH).unwrap();
    assert!(i32::try_from(v.as_i64().unwrap()).is_err());

    let v = lua_value(b"0x8000000000000000", MAX_DEPTH).unwrap();
    assert_eq!(Some(i64::MIN), v.as_i64());
}

#[test]
fn basics_booleans() {
    check(b"true", LuaValue::Boolean(true));
    check(b"false", LuaValue::Boolean(false));
}

#[test]
fn basics_nil() {
    check(b"nil", LuaValue::Nil);
}

#[test]
fn script_expressions() {
    let expected = vec![
        (b"x".as_slice(), LuaValue::integer(4)),
        (b"y".as_slice(), LuaValue::integer(5)),
    ];

    assert_eq!(expected, script(b"x=4 y=5", MAX_DEPTH).unwrap());
    assert_eq!(expected, script(b"x = 4 y = 5", MAX_DEPTH).unwrap());
    assert_eq!(expected, script(b"x=4;y=5", MAX_DEPTH).unwrap());
    assert_eq!(expected, script(b"x = 4;y = 5", MAX_DEPTH).unwrap());
    assert_eq!(expected, script(b"x=4;;y=5", MAX_DEPTH).unwrap());
    assert_eq!(expected, script(b"x=4\ry=5", MAX_DEPTH).unwrap());
    assert_eq!(expected, script(b"x=4\ry=5\r", MAX_DEPTH).unwrap());
    assert_eq!(expected, script(b"x=4\ny=5", MAX_DEPTH).unwrap());
    assert_eq!(expected, script(b"x=4\ny=5\n", MAX_DEPTH).unwrap());
    assert_eq!(expected, script(b"x=4\r\ny=5", MAX_DEPTH).unwrap());
    assert_eq!(expected, script(b"x=4\r\ny=5\r\n", MAX_DEPTH).unwrap());
    assert_eq!(expected, script(b"x=4\n\ry=5", MAX_DEPTH).unwrap());
    assert_eq!(expected, script(b"x=4\n\ry=5\n\r", MAX_DEPTH).unwrap());
    assert_eq!(expected, script(b"x=4\n  \n  \n\t  y=5", MAX_DEPTH).unwrap());
}
