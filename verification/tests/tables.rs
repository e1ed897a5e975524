//! Table and identifier tests.
use luaq::{lua_value, return_statement, script, LuaError, LuaStr, LuaTableEntry, LuaValue};

const MAX_DEPTH: u16 = 16;

fn check(lua: &[u8], expected: LuaValue) {
    let actual = lua_value(lua, MAX_DEPTH).unwrap();
    assert_eq!(actual, expected, "lua: {}", lua.escape_ascii());
}

fn s(bytes: &'static [u8]) -> LuaValue<'static> {
    LuaValue::String(LuaStr::Borrowed(bytes))
}

fn float(v: f64) -> LuaValue<'static> {
    LuaValue::float(v.to_bits())
}

#[test]
fn tables_simple_table() {
    let data =
        br#"{["int"]=1,["seq"]={"a", "b", x3yz = 0x12, ["foo"] = "bar", [5] = 42, [0xa] = 3.14}}"#;

    let expected = LuaValue::Table(vec![
        LuaTableEntry::KeyValue(s(b"int"), LuaValue::integer(1)),
        LuaTableEntry::KeyValue(
            s(b"seq"),
            LuaValue::Table(vec![
                LuaTableEntry::Value(s(b"a")),
                LuaTableEntry::Value(s(b"b")),
                LuaTableEntry::NameValue(LuaStr::Borrowed(b"x3yz"), LuaValue::integer(0x12)),
                LuaTableEntry::KeyValue(s(b"foo"), s(b"bar")),
                LuaTableEntry::KeyValue(LuaValue::integer(5), LuaValue::integer(42)),
                LuaTableEntry::KeyValue(LuaValue::integer(0xa), float(3.14)),
            ]),
        ),
    ]);

    let actual = lua_value(data, MAX_DEPTH).unwrap();
    assert_eq!(expected, actual);

    // Table containing newlines and whitespace.
    let data = br#"{
        ["int"]=1,
        ["seq"]={
            "a",
            "b";
            x3yz = 0x12,
            [[[foo]]] = "bar",
            [5] = 42,
            [0xa] = 3.14,
        }
    }"#;
    let actual = lua_value(data, MAX_DEPTH).unwrap();
    assert_eq!(expected, actual);

    // Table as script, containing newlines and whitespace.
    let data = br#"
        int = 1
        seq = {
            "a",
            "b",
            x3yz = 0x12,
            [ [[foo]] ] = "bar",
            [5] = 42,
            [0xa] = 3.14
        }
    "#;
    let expected = vec![
        (b"int".as_slice(), LuaValue::integer(1)),
        (
            b"seq".as_slice(),
            LuaValue::Table(vec![
                LuaTableEntry::Value(s(b"a")),
                LuaTableEntry::Value(s(b"b")),
                LuaTableEntry::NameValue(LuaStr::Borrowed(b"x3yz"), LuaValue::integer(0x12)),
                LuaTableEntry::KeyValue(s(b"foo"), s(b"bar")),
                LuaTableEntry::KeyValue(LuaValue::integer(5), LuaValue::integer(42)),
                LuaTableEntry::KeyValue(LuaValue::integer(0xa), float(3.14)),
            ]),
        ),
    ];
    let actual = script(data, MAX_DEPTH).unwrap();
    assert_eq!(expected, actual);
}

#[test]
fn tables_tables() {
    check(b"{}", LuaValue::Table(vec![]));
    check(b"{ }", LuaValue::Table(vec![]));
    check(b"{nil}", LuaValue::Table(vec![LuaTableEntry::NilValue]));

    let b = b"{ [9999] = \"g\"; 'x', \"y\"; x = 1, 9999, [30] = 23; 45 }";
    check(
        b,
        LuaValue::Table(vec![
            LuaTableEntry::KeyValue(LuaValue::integer(9999), s(b"g")),
            LuaTableEntry::Value(s(b"x")),
            LuaTableEntry::Value(s(b"y")),
            LuaTableEntry::NameValue(LuaStr::Borrowed(b"x"), LuaValue::integer(1)),
            LuaTableEntry::Value(LuaValue::integer(9999)),
            LuaTableEntry::KeyValue(LuaValue::integer(30), LuaValue::integer(23)),
            LuaTableEntry::Value(LuaValue::integer(45)),
        ]),
    );
}

#[test]
fn recursion() {
    // Within the budget.
    let mut data: Vec<u8> = Vec::new();
    data.extend_from_slice(&[b'{'; 16]);
    data.extend_from_slice(&[b'}'; 16]);
    assert!(lua_value(&data, MAX_DEPTH).is_ok());

    // One level beyond the budget.
    let mut data: Vec<u8> = Vec::new();
    data.extend_from_slice(&[b'{'; 17]);
    data.extend_from_slice(&[b'}'; 17]);
    assert_eq!(Err(LuaError::DepthExceeded), lua_value(&data, MAX_DEPTH));
}

#[test]
fn identifiers_keywords() {
    for kw in luaq::lua_keywords() {
        let mut stmt = kw.clone();
        stmt.extend_from_slice(b" = true\n");
        assert!(script(&stmt, MAX_DEPTH).is_err(), "keyword: {}", kw.escape_ascii());

        let mut tbl = b"return {".to_vec();
        tbl.extend_from_slice(&kw);
        tbl.extend_from_slice(b" = true}");
        assert!(
            return_statement(&tbl, MAX_DEPTH).is_err(),
            "keyword: {}",
            kw.escape_ascii()
        );
    }
}

#[test]
fn identifiers_contains_keyword() {
    // Identifiers merely starting or ending with a keyword are fine.
    for name in [
        "and1", "break1", "do1", "else1", "elseif1", "end1", "false1", "for1", "function1",
        "goto1", "if1", "in1", "local1", "nil1", "not1", "or1", "repeat1", "return1", "then1",
        "true1", "until1", "while1", "xand", "xnil", "xtrue",
    ] {
        let stmt = format!("{name} = true\n");
        let expected = vec![(name.as_bytes(), LuaValue::Boolean(true))];
        assert_eq!(expected, script(stmt.as_bytes(), MAX_DEPTH).unwrap(), "name: {name}");
    }
}

#[test]
fn identifiers_invalid() {
    for d in 0u8..=9 {
        let stmt = format!("{d}a = true\n");
        assert!(script(stmt.as_bytes(), MAX_DEPTH).is_err());
        let stmt = format!("{d} = true\n");
        assert!(script(stmt.as_bytes(), MAX_DEPTH).is_err());
    }
    assert!(script(b" = true\n", MAX_DEPTH).is_err());
    assert!(script(b"[] = true\n", MAX_DEPTH).is_err());
    assert!(script(b"[[]] = true\n", MAX_DEPTH).is_err());
}
