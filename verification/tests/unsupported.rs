//! Inputs using Lua language features outside the data subset must
//! fail to parse.
use luaq::{lua_value, return_statement, script, LuaValue};

const MAX_DEPTH: u16 = 16;

fn should_error(lua: &[u8]) {
    assert!(lua_value(lua, MAX_DEPTH).is_err(), "lua value: {}", lua.escape_ascii());
    assert!(
        return_statement(lua, MAX_DEPTH).is_err(),
        "lua return: {}",
        lua.escape_ascii()
    );
    assert!(script(lua, MAX_DEPTH).is_err(), "lua script: {}", lua.escape_ascii());
}

#[test]
fn unsupported_arithmetic_add() {
    should_error(b"3 + 2\n");
    should_error(b"3+2\n");
}

#[test]
fn unsupported_arithmetic_sub() {
    should_error(b"3 - 2\n");
    should_error(b"3-2\n");
}

#[test]
fn unsupported_arithmetic_mul() {
    should_error(b"3 * 2\n");
    should_error(b"3*2\n");
}

#[test]
fn unsupported_arithmetic_div() {
    should_error(b"3 / 2\n");
    should_error(b"3/2\n");
}

#[test]
fn unsupported_arithmetic_fdiv() {
    should_error(b"3 // 2\n");
    should_error(b"3//2\n");
}

#[test]
fn unsupported_arithmetic_mod() {
    should_error(b"3 % 2\n");
    should_error(b"3%2\n");
}

#[test]
fn unsupported_arithmetic_exp() {
    should_error(b"3 ^ 2\n");
    should_error(b"3^2\n");
}

#[test]
fn unsupported_bitwise_and() {
    should_error(b"3 & 2\n");
    should_error(b"3&2\n");
}

#[test]
fn unsupported_bitwise_or() {
    should_error(b"3 | 4\n");
    should_error(b"3|4\n");
}

#[test]
fn unsupported_bitwise_xor() {
    should_error(b"3 ~ 2\n");
    should_error(b"3~2\n");
}

#[test]
fn unsupported_bitwise_shl() {
    should_error(b"3 << 2\n");
    should_error(b"3<<2\n");
}

#[test]
fn unsupported_bitwise_shr() {
    should_error(b"3 >> 2\n");
    should_error(b"3>>2\n");
}

#[test]
fn unsupported_bitwise_not() {
    should_error(b"~3\n");
}

#[test]
fn unsupported_block_do() {
    assert!(script(b"a = 3\ndo\n  a = 4\nend\n", MAX_DEPTH).is_err());
}

#[test]
fn comments() {
    assert!(script(b"-- line comment\na = 3\n", MAX_DEPTH).is_err());
    assert!(script(b"--[[ long comment ]]a = 3\n", MAX_DEPTH).is_err());
    assert!(script(b"--[[\nlong comment\n]]\na = 3\n", MAX_DEPTH).is_err());
    assert!(script(b"--[==[\nlonger comment\n]==]\na = 3\n", MAX_DEPTH).is_err());
}

#[test]
fn unsupported_coroutine() {
    should_error(
        b"coroutine.create(function (a)\n  coroutine.yield(a + 2)\n  return a + 10\nend)\n",
    );
}

#[test]
fn unsupported_functions() {
    assert!(script(b"function a()\n  return 3\nend\nb = a()\n", MAX_DEPTH).is_err());
    assert!(script(b"function a()\n  return 3\nend\nb=a()\n", MAX_DEPTH).is_err());
    assert!(script(b"return 3\n", MAX_DEPTH).is_err());
    assert!(lua_value(b"return 3\n", MAX_DEPTH).is_err());

    // But this should be valid for return statements.
    assert_eq!(
        LuaValue::integer(3),
        return_statement(b"return 3\n", MAX_DEPTH).unwrap()
    );
}

#[test]
fn unsupported_length_operator() {
    assert!(script(b"a = [1, 2, 3]\nb = #a\n", MAX_DEPTH).is_err());
    assert!(script(b"a=[1,2,3]\nb=#a\n", MAX_DEPTH).is_err());
}

#[test]
fn unsupported_local() {
    assert!(script(b"local a = 3\n", MAX_DEPTH).is_err());
}

#[test]
fn unsupported_logical_and() {
    should_error(b"true and true\n");
}

#[test]
fn unsupported_logical_or() {
    should_error(b"true or false\n");
}

#[test]
fn unsupported_logical_not() {
    should_error(b"b = not false\n");
}

#[test]
fn unsupported_parentheses() {
    should_error(b"(3)\n");
}

#[test]
fn unsupported_referencing() {
    assert!(script(b"a = 3\nb = a\n", MAX_DEPTH).is_err());
    assert!(script(b"a = {}\na.b = 3\n", MAX_DEPTH).is_err());
}

#[test]
fn unsupported_relational_eq() {
    assert!(script(b"a = 3\nb = a == 3\n", MAX_DEPTH).is_err());
}

#[test]
fn unsupported_relational_neq() {
    assert!(script(b"a = 3\nb = a ~= 1\n", MAX_DEPTH).is_err());
}

#[test]
fn unsupported_relational_lt() {
    assert!(script(b"a = 3\nb = a < 1\n", MAX_DEPTH).is_err());
    assert!(script(b"a = 3\nb=a<1\n", MAX_DEPTH).is_err());
}

#[test]
fn unsupported_relational_lte() {
    assert!(script(b"a = 3\nb = a <= 1\n", MAX_DEPTH).is_err());
    assert!(script(b"a = 3\nb=a<=1\n", MAX_DEPTH).is_err());
}

#[test]
fn unsupported_relational_gt() {
    assert!(script(b"a = 3\nb = a > 1\n", MAX_DEPTH).is_err());
    assert!(script(b"a = 3\nb=a>1\n", MAX_DEPTH).is_err());
}

#[test]
fn unsupported_relational_gte() {
    assert!(script(b"a = 3\nb = a >= 1\n", MAX_DEPTH).is_err());
    assert!(script(b"a = 3\nb=a>=1\n", MAX_DEPTH).is_err());
}

#[test]
fn unsupported_string_concat() {
    should_error(b"'hello' .. 'world'\n");
    should_error(b"'hello'..'world'\n");
}

#[test]
fn unsupported_vararg_assignments() {
    assert!(script(b"a, b = 'hello', 'world'\n", MAX_DEPTH).is_err());
    assert!(script(b"a,b='hello','world'\n", MAX_DEPTH).is_err());
}

#[test]
fn assignment() {
    // An assignment is not a value and not a return statement.
    assert!(lua_value(b"a = 3\n", MAX_DEPTH).is_err());
    assert!(return_statement(b"a = 3\n", MAX_DEPTH).is_err());
}
