//! String literal tests.
use luaq::{lua_value, LuaStr, LuaTableEntry, LuaValue};

const MAX_DEPTH: u16 = 16;

fn check(lua: &[u8], expected: LuaValue) {
    let actual = lua_value(lua, MAX_DEPTH).unwrap();
    assert_eq!(actual, expected, "lua: {}", lua.escape_ascii());
}

fn s(bytes: &'static [u8]) -> LuaValue<'static> {
    LuaValue::String(LuaStr::Borrowed(bytes))
}

#[test]
fn strings_basics() {
    check(b"\"\"", s(b""));
    check(b"''", s(b""));
    check(b"\"hello world\"", s(b"hello world"));
    check(b"'hello world'", s(b"hello world"));
}

#[test]
fn strings_long_string() {
    check(b"[[]]", s(b""));
    check(b"[=[]=]", s(b""));
    check(b"[==[]==]", s(b""));
    check(b"[===[]===]", s(b""));
    check(b"[====[]====]", s(b""));
    check(b"[=====[]=====]", s(b""));

    check(b"[[hello world]]", s(b"hello world"));
    check(b"[=[hello world]=]", s(b"hello world"));
    check(b"[==[hello world]==]", s(b"hello world"));
    check(b"[=====[hello world]=====]", s(b"hello world"));

    check(b"[=[hello \n\n world]=]", s(b"hello \n\n world"));
    check(b"[=[hello \r\r world]=]", s(b"hello \r\r world"));
    check(b"[=[hello \r\n world]=]", s(b"hello \r\n world"));
    check(b"[=[hello \n\r world]=]", s(b"hello \n\r world"));

    // Escape sequences should not be interpreted.
    check(br"[[\0\001\n\r\023\t\u{65e5}]]", s(br"\0\001\n\r\023\t\u{65e5}"));
    check(br"[==[\0\001\n\r\023\t]==]", s(br"\0\001\n\r\023\t"));

    // Long brackets may only be ended with a bracket of the same level.
    check(b"[=[hell[==[o]==] world]=]", s(b"hell[==[o]==] world"));
    check(b"[=[hell[==[o[==[ world]=]", s(b"hell[==[o[==[ world"));
    check(b"[=[hell[[o]] world]=]", s(b"hell[[o]] world"));
    check(b"[[hell[=[o]=] world]]", s(b"hell[=[o]=] world"));
    check(b"[[hell[=[o[==[ world]]", s(b"hell[=[o[==[ world"));

    // Mix of short and long quotes.
    check(b"[[hell\"o\" w'o'rld]]", s(b"hell\"o\" w'o'rld"));
    check(b"\"hell[[o]] w[=[o]=]rld\"", s(b"hell[[o]] w[=[o]=]rld"));

    // Multiple types of brackets in the same value.
    check(
        b"{[[hello]],[=[world]=],'!',\"?\"}",
        LuaValue::Table(vec![
            LuaTableEntry::Value(s(b"hello")),
            LuaTableEntry::Value(s(b"world")),
            LuaTableEntry::Value(s(b"!")),
            LuaTableEntry::Value(s(b"?")),
        ]),
    );
}

#[test]
fn newlines() {
    // The opening line break of a long bracket is discarded, once.
    check(b"[[\nhello]]", s(b"hello"));
    check(b"[[\r\nhello]]", s(b"hello"));
    check(b"[[\n\rhello]]", s(b"hello"));
    check(b"[[\rhello]]", s(b"hello"));
    check(b"[[\n\nhello]]", s(b"\nhello"));
    // Line breaks in bodies are preserved exactly, never normalised.
    check(b"[[a\r\nb]]", s(b"a\r\nb"));
    check(b"[[a\n\rb]]", s(b"a\n\rb"));
    check(b"[[a\rb]]", s(b"a\rb"));
    check(b"[[a\nb]]", s(b"a\nb"));
}

#[test]
fn strings_escapes() {
    check(
        r#""\"ílo\"\n\\""#.as_bytes(),
        LuaValue::String(LuaStr::Borrowed("\"ílo\"\n\\".as_bytes())),
    );

    check(b"\"\0\"", s(b"\0"));
    check(b"\"\xFEedMe\"", s(b"\xFEedMe"));
    check(b"\"\0\x01\0023\x05\0009\"", s(b"\0\x01\0023\x05\0009"));

    // Escaped binary data.
    check(b"\"\\0\\1\\02\\0023\\5\\0009\"", s(b"\0\x01\x02\x023\x05\x009"));

    // Backslash with line break, preserved as-is.
    check(b"\"hello\\\nworld\"", s(b"hello\nworld"));
    check(b"\"hello\\\r\nworld\"", s(b"hello\r\nworld"));
    check(b"\"hello\\\rworld\"", s(b"hello\rworld"));

    check(
        b"\"\0\\rx\\r\\n\xFE\\0\\00\\000\\x00\\10\\010\\255\\xFF\\u{1f4a9}\"",
        s(b"\0\rx\r\n\xFE\0\0\0\0\x0A\x0A\xFF\xFF\xf0\x9f\x92\xa9"),
    );
}

#[test]
fn z_escapes() {
    check(b"\"\\z\"", s(b""));
    check(br"'\z'", s(b""));
    check(br"'\z    '", s(b""));
    check(b"\"\\z  \n\t\x0c\x0b\n\"", s(b""));

    check(b"\"abc\\z  \n   efg\"", s(b"abcefg"));
    check(b"\"abc\\zefg\"", s(b"abcefg"));

    check(b"\"abc\\z  \n\n\n\"", s(b"abc"));

    // Escaped whitespace characters are not whitespace.
    check(br"'\z  \n  '", s(b"\n  "));
}

#[test]
fn single_char_escapes() {
    check(br"'\a'", s(b"\x07"));
    check(b"\"\\a\"", s(b"\x07"));
    check(br"'\b'", s(b"\x08"));
    check(b"\"\\b\"", s(b"\x08"));
    check(br"'\f'", s(b"\x0c"));
    check(b"\"\\f\"", s(b"\x0c"));
    check(br"'\n'", s(b"\n"));
    check(b"\"\\n\"", s(b"\n"));
    check(br"'\r'", s(b"\r"));
    check(b"\"\\r\"", s(b"\r"));
    check(br"'\t'", s(b"\t"));
    check(b"\"\\t\"", s(b"\t"));
    check(br"'\v'", s(b"\x0B"));
    check(b"\"\\v\"", s(b"\x0B"));
    check(br"'\\'", s(b"\\"));
    check(b"\"\\\\\"", s(b"\\"));
    check(br"'\''", s(b"'"));
    check(b"\"\\'\"", s(b"'"));
    check(b"'\\\"'", s(b"\""));
    check(b"\"\\\"\"", s(b"\""));

    // Quotes of the other type need no escaping.
    check(b"\"'\"", s(b"'"));
    check(b"'\"'", s(b"\""));
}

#[test]
fn newline_escapes() {
    check(b"'hello\\\nworld'", s(b"hello\nworld"));
    check(b"\"hello\\\nworld\"", s(b"hello\nworld"));
    check(b"'hello\\\rworld'", s(b"hello\rworld"));
    check(b"\"hello\\\rworld\"", s(b"hello\rworld"));
    check(b"'hello\\\n\rworld'", s(b"hello\n\rworld"));
    check(b"\"hello\\\n\rworld\"", s(b"hello\n\rworld"));
    check(b"'hello\\\r\nworld'", s(b"hello\r\nworld"));
    check(b"\"hello\\\r\nworld\"", s(b"hello\r\nworld"));

    // Leading whitespace on the continuing line is preserved.
    check(b"'hello\\\n  world'", s(b"hello\n  world"));
    check(b"\"hello\\\n  world\"", s(b"hello\n  world"));
    check(b"'hello\\\r  world'", s(b"hello\r  world"));
    check(b"\"hello\\\r  world\"", s(b"hello\r  world"));
    check(b"'hello\\\n\r  world'", s(b"hello\n\r  world"));
    check(b"\"hello\\\n\r  world\"", s(b"hello\n\r  world"));
    check(b"'hello\\\r\n  world'", s(b"hello\r\n  world"));
    check(b"\"hello\\\r\n  world\"", s(b"hello\r\n  world"));
}

#[test]
fn decimal_x_escapes() {
    fn check_owned(lua: &[u8], expected: &[u8]) {
        let actual = lua_value(lua, MAX_DEPTH).unwrap();
        assert_eq!(
            actual,
            LuaValue::String(LuaStr::Borrowed(expected)),
            "lua: {}",
            lua.escape_ascii()
        );
    }
    for c in 0u8..=255 {
        let expected = &[c][..];
        let expected_a = &[c, b'a'][..];
        check_owned(format!("'\\{c}'").as_bytes(), expected);
        check_owned(format!("\"\\{c}\"").as_bytes(), expected);

        // A decimal escape with a letter after it.
        check_owned(format!("'\\{c}a'").as_bytes(), expected_a);
        check_owned(format!("\"\\{c}a\"").as_bytes(), expected_a);

        check_owned(format!("'\\x{c:02x}'").as_bytes(), expected);
        check_owned(format!("\"\\x{c:02x}\"").as_bytes(), expected);
        check_owned(format!("'\\x{c:02X}'").as_bytes(), expected);
        check_owned(format!("\"\\x{c:02X}\"").as_bytes(), expected);
        check_owned(format!("'\\x{c:02x}a'").as_bytes(), expected_a);
        check_owned(format!("\"\\x{c:02x}a\"").as_bytes(), expected_a);
        check_owned(format!("'\\x{c:02X}a'").as_bytes(), expected_a);
        check_owned(format!("\"\\x{c:02X}a\"").as_bytes(), expected_a);

        if c < 100 {
            check_owned(format!("'\\0{c}'").as_bytes(), expected);
            check_owned(format!("\"\\0{c}\"").as_bytes(), expected);
            check_owned(format!("'\\0{c}a'").as_bytes(), expected_a);
            check_owned(format!("\"\\0{c}a\"").as_bytes(), expected_a);
        }

        if c < 10 {
            check_owned(format!("'\\00{c}'").as_bytes(), expected);
            check_owned(format!("\"\\00{c}\"").as_bytes(), expected);
            check_owned(format!("'\\00{c}a'").as_bytes(), expected_a);
            check_owned(format!("\"\\00{c}a\"").as_bytes(), expected_a);
        }
    }
}

#[test]
fn strings_unicode_escapes() {
    check(br"'\u{80}'", s(b"\xC2\x80"));
    check(br"'\u{10FFFF}'", s(b"\xF4\x8F\xBF\xBF"));
    check(br"'\u{0000000000000010FFFF}'", s(b"\xF4\x8F\xBF\xBF"));
    check(
        br"'\u{65E5}\u{672c}\u{8A9e}'",
        LuaValue::String(LuaStr::Borrowed("\u{65E5}\u{672C}\u{8a9E}".as_bytes())),
    );

    // RFC 2279 sequences beyond what RFC 3629 allows.
    check(br"'\u{d800}'", s(b"\xED\xA0\x80"));
    check(br"'\u{dfff}'", s(b"\xED\xBF\xBF"));
    check(br"'\u{110000}'", s(b"\xF4\x90\x80\x80"));
    check(br"'\u{70000000}'", s(b"\xFD\xB0\x80\x80\x80\x80"));
    check(br"'\u{7fffffff}'", s(b"\xFD\xBF\xBF\xBF\xBF\xBF"));

    // Strings should not be normalised.
    check(b"'fran\xC3\xA7ais'", s(b"fran\xc3\xa7ais"));
    check(br"'fran\xC3\xA7ais'", s(b"fran\xc3\xa7ais"));
    check(br"'fran\u{E7}ais'", s(b"fran\xc3\xa7ais"));
    check(b"'franc\xCC\xA7ais'", s(b"franc\xcc\xa7ais"));
    check(br"'franc\xCC\xA7ais'", s(b"franc\xcc\xa7ais"));
    check(br"'franc\u{327}ais'", s(b"franc\xcc\xa7ais"));
}

#[test]
fn strings_invalid_escapes() {
    assert!(lua_value(br"'\256'", MAX_DEPTH).is_err());
    assert!(lua_value(br"'\c'", MAX_DEPTH).is_err());
    assert!(lua_value(br"'\x'", MAX_DEPTH).is_err());
    assert!(lua_value(br"'\x0'", MAX_DEPTH).is_err());
    assert!(lua_value(br"'\xyz'", MAX_DEPTH).is_err());
    assert!(lua_value(br"'\u{80000000}'", MAX_DEPTH).is_err());
    assert!(lua_value(br"'\u{-80}'", MAX_DEPTH).is_err());
}

#[test]
fn strings_borrows() {
    // Empty strings.
    assert!(lua_value(b"[[]]", MAX_DEPTH).unwrap().is_borrowed());
    assert!(lua_value(b"[=[]=]", MAX_DEPTH).unwrap().is_borrowed());
    assert!(lua_value(b"''", MAX_DEPTH).unwrap().is_borrowed());
    assert!(lua_value(b"\"\"", MAX_DEPTH).unwrap().is_borrowed());

    // No escape sequences.
    assert!(lua_value(b"[[hello]]", MAX_DEPTH).unwrap().is_borrowed());
    assert!(lua_value(b"[=[hello]=]", MAX_DEPTH).unwrap().is_borrowed());
    assert!(lua_value(b"'hello'", MAX_DEPTH).unwrap().is_borrowed());
    assert!(lua_value(b"\"hello\"", MAX_DEPTH).unwrap().is_borrowed());

    // Escapes are ignored for long bracket strings.
    assert!(lua_value(br"[[hello\nworld]]", MAX_DEPTH).unwrap().is_borrowed());
    assert!(lua_value(br"[=[hello\nworld]=]", MAX_DEPTH).unwrap().is_borrowed());
    assert!(lua_value(b"[[hello\nworld]]", MAX_DEPTH).unwrap().is_borrowed());
    assert!(lua_value(b"[=[hello\nworld]=]", MAX_DEPTH).unwrap().is_borrowed());

    // A lone escape that stands for a byte present in the input is
    // borrowed from it; one that has to build a new byte is owned.
    assert!(lua_value(br"'\\'", MAX_DEPTH).unwrap().is_borrowed());
    assert!(lua_value(br"'\''", MAX_DEPTH).unwrap().is_borrowed());
    assert!(!lua_value(br"'\n'", MAX_DEPTH).unwrap().is_borrowed());
    assert!(!lua_value(b"\"\\n\"", MAX_DEPTH).unwrap().is_borrowed());

    // Strings containing multiple escapes are owned.
    assert!(!lua_value(br"'\r\n'", MAX_DEPTH).unwrap().is_borrowed());
    assert!(!lua_value(b"\"\\r\\n\"", MAX_DEPTH).unwrap().is_borrowed());

    // Strings containing escapes and non-escaped bytes are owned.
    assert!(!lua_value(br"'hello\n'", MAX_DEPTH).unwrap().is_borrowed());
    assert!(!lua_value(b"\"hello\\n\"", MAX_DEPTH).unwrap().is_borrowed());
}
