//! End-to-end behaviours: boundary depths, whitespace handling,
//! round trips through the formatter, and the documented scenarios.
use luaq::{
    lua_value, return_statement, script, to_json_value, value_to_lua, JsonConversionOptions,
    JsonValue, LuaError, LuaStr, LuaTableEntry, LuaValue,
};

const MAX_DEPTH: u16 = 16;
const DEFAULT_OPTS: JsonConversionOptions = JsonConversionOptions { lossy_string: false };

fn float(v: f64) -> LuaValue<'static> {
    LuaValue::float(v.to_bits())
}

fn s(bytes: &'static [u8]) -> LuaValue<'static> {
    LuaValue::String(LuaStr::Borrowed(bytes))
}

#[test]
fn integers_and_wrap() {
    // {a = 0xffffffffffffffff, b = 9223372036854775808}
    let v = lua_value(
        b"{a = 0xffffffffffffffff, b = 9223372036854775808}",
        MAX_DEPTH,
    )
    .unwrap();
    assert_eq!(
        LuaValue::Table(vec![
            LuaTableEntry::NameValue(LuaStr::Borrowed(b"a"), LuaValue::integer(-1)),
            LuaTableEntry::NameValue(LuaStr::Borrowed(b"b"), float(9223372036854775808.0)),
        ]),
        v
    );
}

#[test]
fn nested_with_long_bracket() {
    let input = b"{[ [[k]] ] = {1, nil, 3}}";
    let v = lua_value(input, MAX_DEPTH).unwrap();
    assert_eq!(
        LuaValue::Table(vec![LuaTableEntry::KeyValue(
            s(b"k"),
            LuaValue::Table(vec![
                LuaTableEntry::Value(LuaValue::integer(1)),
                LuaTableEntry::NilValue,
                LuaTableEntry::Value(LuaValue::integer(3)),
            ]),
        )]),
        v
    );
    // The key borrows from the input buffer.
    match &v {
        LuaValue::Table(entries) => match &entries[0] {
            LuaTableEntry::KeyValue(k, _) => assert!(k.is_borrowed()),
            other => panic!("unexpected entry: {other:?}"),
        },
        other => panic!("unexpected value: {other:?}"),
    }
}

#[test]
fn escape_reassembly() {
    // "hello\tworld\u{65E5}" holds the 13 bytes hello TAB world + UTF-8.
    let v = lua_value(b"\"hello\\tworld\\u{65E5}\"", MAX_DEPTH).unwrap();
    assert_eq!(s(b"hello\tworld\xE6\x97\xA5"), v);
    assert!(!v.is_borrowed());
    assert_eq!(14, v.as_bytes().unwrap().len());
}

#[test]
fn script_with_separators() {
    let pairs = script(b"x=4 y=5;;z=true", MAX_DEPTH).unwrap();
    assert_eq!(
        vec![
            (b"x".as_slice(), LuaValue::integer(4)),
            (b"y".as_slice(), LuaValue::integer(5)),
            (b"z".as_slice(), LuaValue::Boolean(true)),
        ],
        pairs
    );
}

#[test]
fn depth_overflow() {
    assert_eq!(Err(LuaError::DepthExceeded), lua_value(b"{{{}}}", 2));
    let v = lua_value(b"{{{}}}", 3).unwrap();
    assert_eq!(
        LuaValue::Table(vec![LuaTableEntry::Value(LuaValue::Table(vec![
            LuaTableEntry::Value(LuaValue::Table(vec![])),
        ]))]),
        v
    );
}

#[test]
fn return_with_whitespace() {
    // The NaN literal is a single terminal: it may follow `return`
    // directly, but other parenthesised forms never parse.
    let v = return_statement(b"return\n  (0/0)\n", MAX_DEPTH).unwrap();
    assert!(v.is_nan());
    assert!(return_statement(b"return (3)", MAX_DEPTH).is_err());
    assert!(return_statement(b"return (true)", MAX_DEPTH).is_err());
}

#[test]
fn precedence_of_later_entries() {
    // After map projection, the positional 20 (key 2) overrides the
    // explicit [2] = 20 that precedes it; string and integer keys
    // stringify separately.
    let v = lua_value(b"{a = 1, ['a'] = 2, [2] = 20, 10, 20, 30}", 1).unwrap();
    let j = to_json_value(&v, &DEFAULT_OPTS).unwrap();
    match j {
        JsonValue::Obj(pairs) => {
            let get = |k: &str| {
                pairs
                    .iter()
                    .find(|p| p.0 == k)
                    .map(|p| match p.1 {
                        JsonValue::Int(v) => v,
                        _ => panic!("non-integer value under {k}"),
                    })
                    .unwrap()
            };
            assert_eq!(2, get("a"));
            assert_eq!(10, get("1"));
            assert_eq!(20, get("2"));
            assert_eq!(30, get("3"));
        }
        other => panic!("unexpected JSON value: {other:?}"),
    }
}

#[test]
fn depth_zero_accepts_scalars() {
    assert_eq!(LuaValue::Nil, lua_value(b"nil", 0).unwrap());
    assert_eq!(LuaValue::Boolean(true), lua_value(b"true", 0).unwrap());
    assert_eq!(LuaValue::Boolean(false), lua_value(b"false", 0).unwrap());
    assert_eq!(LuaValue::integer(7), lua_value(b"7", 0).unwrap());
    assert_eq!(s(b"x"), lua_value(b"'x'", 0).unwrap());
    assert_eq!(Err(LuaError::DepthExceeded), lua_value(b"{}", 0));
}

#[test]
fn whitespace_around_value() {
    assert_eq!(LuaValue::integer(3), lua_value(b"  \t\r\n 3 \x0b\x0c ", MAX_DEPTH).unwrap());
    assert!(lua_value(b"", MAX_DEPTH).is_err());
    assert!(lua_value(b"   ", MAX_DEPTH).is_err());
}

#[test]
fn format_round_trips() {
    // Reparsing the formatter's emission yields an equal tree.
    let inputs: [&'static [u8]; 12] = [
        b"nil",
        b"true",
        b"{a = 1, ['a'] = 2, [2] = 20, 10, 20, 30}",
        b"-9223372036854775808",
        b"3.1416",
        b"0x2.5",
        b"1e9999",
        b"-1e9999",
        b"'hello\\tworld\\u{65E5}'",
        b"\"\\0\\255 quote\\\" backslash\\\\\"",
        b"{[ [[k]] ] = {1, nil, 3}}",
        b"0x1p-1074",
    ];
    for input in inputs {
        let v = lua_value(input, MAX_DEPTH).unwrap();
        let emitted = value_to_lua(&v).unwrap();
        let reparsed = lua_value(&emitted, MAX_DEPTH).unwrap();
        assert_eq!(v, reparsed, "emission: {}", emitted.escape_ascii());
        // Formatting is idempotent through a reparse.
        let emitted2 = value_to_lua(&reparsed).unwrap();
        assert_eq!(emitted, emitted2);
    }

    // NaN survives as NaN.
    let v = lua_value(b"(0/0)", MAX_DEPTH).unwrap();
    let emitted = value_to_lua(&v).unwrap();
    assert_eq!(b"(0/0)".as_slice(), emitted.as_slice());
    assert!(lua_value(&emitted, MAX_DEPTH).unwrap().is_nan());

    // A zero emits its documented form.
    let v = lua_value(b"0.0", MAX_DEPTH).unwrap();
    assert_eq!(b"0x0p0".as_slice(), value_to_lua(&v).unwrap().as_slice());
}

#[test]
fn formatter_refuses_bad_name() {
    let v = LuaValue::Table(vec![LuaTableEntry::NameValue(
        LuaStr::Borrowed(b"not an identifier"),
        LuaValue::integer(1),
    )]);
    assert_eq!(Err(LuaError::InvalidIdentifier), value_to_lua(&v));
}

#[test]
fn entry_accessors() {
    let e = LuaTableEntry::KeyValue(LuaValue::integer(1), LuaValue::Boolean(true));
    assert!(!e.implicit_key());
    assert_eq!(Some(LuaValue::integer(1)), e.key());
    assert_eq!(Some(&LuaValue::Boolean(true)), e.value());
    assert_eq!(LuaValue::Boolean(true), e.move_value());

    let e = LuaTableEntry::NameValue(LuaStr::Borrowed(b"foo"), LuaValue::Boolean(true));
    assert_eq!(Some(s(b"foo")), e.key());
    assert_eq!(LuaValue::Boolean(true), e.move_value());

    let e = LuaTableEntry::Value(LuaValue::Boolean(true));
    assert!(e.implicit_key());
    assert_eq!(None, e.key());

    let e = LuaTableEntry::NumberValue(luaq::LuaNumber::Integer(3));
    assert_eq!(Some(luaq::LuaNumber::Integer(3)), e.move_number_value());

    // The spelled forms compare by their meaning.
    assert_eq!(
        LuaTableEntry::NameValue(LuaStr::Borrowed(b"a"), LuaValue::integer(1)),
        LuaTableEntry::KeyValue(s(b"a"), LuaValue::integer(1)),
    );
    assert_eq!(
        LuaTableEntry::Value(LuaValue::Nil),
        LuaTableEntry::NilValue,
    );
    assert_eq!(
        LuaTableEntry::Value(LuaValue::integer(123)),
        LuaTableEntry::NumberValue(luaq::LuaNumber::Integer(123)),
    );
}

#[test]
fn sequence_projection() {
    let v = lua_value(b"{1, 2, 3}", MAX_DEPTH).unwrap();
    let entries = match v {
        LuaValue::Table(entries) => entries,
        other => panic!("unexpected value: {other:?}"),
    };
    let seq = luaq::table_to_sequence(entries).unwrap();
    assert_eq!(
        vec![LuaValue::integer(1), LuaValue::integer(2), LuaValue::integer(3)],
        seq
    );

    let v = lua_value(b"{1, a = 2}", MAX_DEPTH).unwrap();
    let entries = match v {
        LuaValue::Table(entries) => entries,
        other => panic!("unexpected value: {other:?}"),
    };
    assert!(luaq::table_to_sequence(entries).is_none());
}
