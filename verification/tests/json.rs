//! JSON conversion tests.
use luaq::{
    from_json_value, lua_value, to_json_value, JsonConversionError, JsonConversionOptions,
    JsonValue, LuaStr, LuaTableEntry, LuaValue,
};

const MAX_DEPTH: u16 = 16;
const DEFAULT_OPTS: JsonConversionOptions = JsonConversionOptions { lossy_string: false };

fn json_eq(a: &JsonValue, b: &JsonValue) -> bool {
    match (a, b) {
        (JsonValue::Null, JsonValue::Null) => true,
        (JsonValue::Bool(x), JsonValue::Bool(y)) => x == y,
        (JsonValue::Int(x), JsonValue::Int(y)) => x == y,
        (JsonValue::Float(x), JsonValue::Float(y)) => x == y,
        (JsonValue::Text(x), JsonValue::Text(y)) => x == y,
        (JsonValue::Arr(x), JsonValue::Arr(y)) => {
            x.len() == y.len() && x.iter().zip(y.iter()).all(|(u, v)| json_eq(u, v))
        }
        (JsonValue::Obj(x), JsonValue::Obj(y)) => {
            x.len() == y.len()
                && x.iter()
                    .zip(y.iter())
                    .all(|(u, v)| u.0 == v.0 && json_eq(&u.1, &v.1))
        }
        _ => false,
    }
}

fn assert_json(expected: &JsonValue, actual: &JsonValue) {
    assert!(json_eq(expected, actual), "expected {expected:?}, got {actual:?}");
}

fn obj(pairs: Vec<(&str, JsonValue)>) -> JsonValue {
    JsonValue::Obj(pairs.into_iter().map(|(k, v)| (k.to_string(), v)).collect())
}

#[test]
fn json_table_precedence() {
    // The last table entry takes precedence.
    let expected = obj(vec![("1", JsonValue::Int(2)), ("2", JsonValue::Int(4))]);
    let inputs: [&'static [u8]; 7] = [
        b"{[1] = 1, 2, [2] = 3, 4}",
        b"{1, [1] = 2, 3, [2] = 4}",
        b"{[1] = 1, [2] = 3, 2, 4}",
        b"{1, 3, [1] = 2, [2] = 4}",
        b"{1, 3, [1] = 2, [2] = 4}",
        b"{[1] = 1, 2, 3, [2] = 4}",
        b"{['1'] = 1, [1] = 2, [2] = 3, ['2'] = 4}",
    ];
    for input in inputs {
        let v = lua_value(input, MAX_DEPTH).unwrap();
        let j = to_json_value(&v, &DEFAULT_OPTS).unwrap();
        assert_json(&expected, &j);
    }
}

#[test]
fn json_table_coersion() {
    let v = lua_value(b"{1, 2, 3, 4}", MAX_DEPTH).unwrap();
    let j = to_json_value(&v, &DEFAULT_OPTS).unwrap();
    assert_json(
        &JsonValue::Arr(vec![
            JsonValue::Int(1),
            JsonValue::Int(2),
            JsonValue::Int(3),
            JsonValue::Int(4),
        ]),
        &j,
    );
    assert_eq!(
        LuaValue::Table(vec![
            LuaTableEntry::Value(LuaValue::integer(1)),
            LuaTableEntry::Value(LuaValue::integer(2)),
            LuaTableEntry::Value(LuaValue::integer(3)),
            LuaTableEntry::Value(LuaValue::integer(4)),
        ]),
        from_json_value(JsonValue::Arr(vec![
            JsonValue::Int(1),
            JsonValue::Int(2),
            JsonValue::Int(3),
            JsonValue::Int(4),
        ]))
        .unwrap(),
    );

    let expected = obj(vec![
        ("1", JsonValue::Int(1)),
        ("2", JsonValue::Int(2)),
        ("3", JsonValue::Int(3)),
        ("4", JsonValue::Int(4)),
    ]);
    let v = lua_value(b"{[1] = 1, [2] = 2, [3] = 3, [4] = 4}", MAX_DEPTH).unwrap();
    assert_json(&expected, &to_json_value(&v, &DEFAULT_OPTS).unwrap());
    let v = lua_value(b"{['1'] = 1, ['2'] = 2, ['3'] = 3, ['4'] = 4}", MAX_DEPTH).unwrap();
    assert_json(&expected, &to_json_value(&v, &DEFAULT_OPTS).unwrap());

    // JSON keys are strings; none of these are valid identifiers.
    assert_eq!(
        LuaValue::Table(vec![
            LuaTableEntry::KeyValue(LuaValue::String(LuaStr::Borrowed(b"1")), LuaValue::integer(1)),
            LuaTableEntry::KeyValue(LuaValue::String(LuaStr::Borrowed(b"2")), LuaValue::integer(2)),
        ]),
        from_json_value(obj(vec![("1", JsonValue::Int(1)), ("2", JsonValue::Int(2))])).unwrap(),
    );

    let expected = obj(vec![
        ("a", JsonValue::Int(1)),
        ("b", JsonValue::Int(2)),
        ("c", JsonValue::Int(3)),
        ("d", JsonValue::Int(4)),
    ]);
    let v = lua_value(b"{a = 1, b = 2, c = 3, d = 4}", MAX_DEPTH).unwrap();
    assert_json(&expected, &to_json_value(&v, &DEFAULT_OPTS).unwrap());

    // Valid identifiers deserialise as name entries.
    assert_eq!(
        LuaValue::Table(vec![
            LuaTableEntry::KeyValue(LuaValue::String(LuaStr::Borrowed(b"5")), LuaValue::integer(5)),
            LuaTableEntry::NameValue(LuaStr::Borrowed(b"a"), LuaValue::integer(1)),
            LuaTableEntry::NameValue(LuaStr::Borrowed(b"b"), LuaValue::integer(2)),
        ]),
        from_json_value(obj(vec![
            ("5", JsonValue::Int(5)),
            ("a", JsonValue::Int(1)),
            ("b", JsonValue::Int(2)),
        ]))
        .unwrap(),
    );

    let v = lua_value(
        b"{['a'] = 1, [\"b\"] = 2, [[[c]]] = 3, [[=[d]=]] = 4}",
        MAX_DEPTH,
    )
    .unwrap();
    assert_json(&expected, &to_json_value(&v, &DEFAULT_OPTS).unwrap());

    // A mix of implicit and explicit keys becomes an object.
    let expected = obj(vec![
        ("1", JsonValue::Int(1)),
        ("2", JsonValue::Int(2)),
        ("3", JsonValue::Int(3)),
        ("4", JsonValue::Int(4)),
    ]);
    let v = lua_value(b"{1, 2, 3, [4] = 4}", MAX_DEPTH).unwrap();
    assert_json(&expected, &to_json_value(&v, &DEFAULT_OPTS).unwrap());

    let expected = obj(vec![
        ("1", JsonValue::Int(1)),
        ("2", JsonValue::Int(2)),
        ("3", JsonValue::Int(3)),
        ("d", JsonValue::Int(4)),
    ]);
    let v = lua_value(b"{1, 2, 3, d = 4}", MAX_DEPTH).unwrap();
    assert_json(&expected, &to_json_value(&v, &DEFAULT_OPTS).unwrap());
    let v = lua_value(b"{1, 2, [3] = 3, d = 4}", MAX_DEPTH).unwrap();
    assert_json(&expected, &to_json_value(&v, &DEFAULT_OPTS).unwrap());

    // nil and boolean keys stringify.
    let expected = obj(vec![
        ("false", JsonValue::Int(2)),
        ("nil", JsonValue::Int(3)),
        ("true", JsonValue::Int(1)),
    ]);
    let v = lua_value(b"{[true] = 1, [false] = 2, [nil] = 3}", MAX_DEPTH).unwrap();
    assert_json(&expected, &to_json_value(&v, &DEFAULT_OPTS).unwrap());

    // Even when overwriting.
    let v = lua_value(
        b"{['true'] = 0, [true] = 1, [false] = 0, ['false'] = 2, [[[nil]]] = 0, [nil] = 3}",
        MAX_DEPTH,
    )
    .unwrap();
    assert_json(&expected, &to_json_value(&v, &DEFAULT_OPTS).unwrap());
}

#[test]
fn json_disallowed_floats() {
    let v = lua_value(b"(0/0)", MAX_DEPTH).unwrap();
    assert_eq!(
        JsonConversionError::NaN,
        to_json_value(&v, &DEFAULT_OPTS).unwrap_err()
    );

    let v = lua_value(b"1e9999", MAX_DEPTH).unwrap();
    assert_eq!(
        JsonConversionError::PositiveInfinity,
        to_json_value(&v, &DEFAULT_OPTS).unwrap_err()
    );

    let v = lua_value(b"-1e9999", MAX_DEPTH).unwrap();
    assert_eq!(
        JsonConversionError::NegativeInfinity,
        to_json_value(&v, &DEFAULT_OPTS).unwrap_err()
    );
}

#[test]
fn json_floats() {
    let v = lua_value(b"0x2.5", MAX_DEPTH).unwrap();
    assert_json(
        &JsonValue::Float(2.3125f64.to_bits()),
        &to_json_value(&v, &DEFAULT_OPTS).unwrap(),
    );
    assert_eq!(
        LuaValue::float(2.3125f64.to_bits()),
        from_json_value(JsonValue::Float(2.3125f64.to_bits())).unwrap(),
    );

    let v = lua_value(b"2.", MAX_DEPTH).unwrap();
    assert_json(
        &JsonValue::Float(2.0f64.to_bits()),
        &to_json_value(&v, &DEFAULT_OPTS).unwrap(),
    );
    let v = lua_value(b"-2.", MAX_DEPTH).unwrap();
    assert_json(
        &JsonValue::Float((-2.0f64).to_bits()),
        &to_json_value(&v, &DEFAULT_OPTS).unwrap(),
    );
    let v = lua_value(b"-0.", MAX_DEPTH).unwrap();
    assert_json(
        &JsonValue::Float((-0.0f64).to_bits()),
        &to_json_value(&v, &DEFAULT_OPTS).unwrap(),
    );
    let v = lua_value(b"0.", MAX_DEPTH).unwrap();
    assert_json(
        &JsonValue::Float(0.0f64.to_bits()),
        &to_json_value(&v, &DEFAULT_OPTS).unwrap(),
    );
}

#[test]
fn json_ints() {
    let v = lua_value(b"0x2", MAX_DEPTH).unwrap();
    assert_json(&JsonValue::Int(2), &to_json_value(&v, &DEFAULT_OPTS).unwrap());
    let v = lua_value(b"0xffff", MAX_DEPTH).unwrap();
    assert_json(&JsonValue::Int(65535), &to_json_value(&v, &DEFAULT_OPTS).unwrap());
}
