//! A library for reading simple, JSON-like data structures from Lua 5.4
//! source text, without running any Lua code.
//!
//! The library recognises a data-only subset of Lua: `nil`, booleans,
//! numbers (integer and floating point, the latter carried as IEEE-754
//! bit patterns), byte strings, and table constructors.  Three entry
//! points share the value grammar: a bare value, a `return` statement,
//! and a script of variable assignments.  A bounded table-nesting budget
//! keeps the recogniser safe on adversarial input.
#![allow(unused_imports)]
use vstd::prelude::*;

pub mod number;
pub mod floatbits;
pub mod value;
pub mod parse;
pub mod format;
pub mod json;
pub mod adapt;
pub mod laws;

pub use crate::adapt::{LuaFormat, table_to_sequence, table_to_pairs};
pub use crate::format::{ByteEscape, CompactFormatter, value_to_lua};
pub use crate::json::{
    from_json_value, to_json_value, JsonConversionError, JsonConversionOptions, JsonValue,
    LuaConversionError, move_array_to_object,
};
pub use crate::number::LuaNumber;
pub use crate::parse::{lua_value, return_statement, script, merge_spans, LuaError};
pub use crate::value::{
    clone_value, from_utf8_cow, from_utf8_cow_lossy, slice_of_byte, to_utf8_cow, LuaStr,
    LuaTableEntry, LuaText, LuaValue,
};

verus! {

/// The 22 Lua 5.4 reserved words, in sorted order, as byte sequences.
pub open spec fn reserved_words() -> Seq<Seq<u8>> {
    seq![
        seq![97u8, 110u8, 100u8],  // and
        seq![98u8, 114u8, 101u8, 97u8, 107u8],  // break
        seq![100u8, 111u8],  // do
        seq![101u8, 108u8, 115u8, 101u8],  // else
        seq![101u8, 108u8, 115u8, 101u8, 105u8, 102u8],  // elseif
        seq![101u8, 110u8, 100u8],  // end
        seq![102u8, 97u8, 108u8, 115u8, 101u8],  // false
        seq![102u8, 111u8, 114u8],  // for
        seq![102u8, 117u8, 110u8, 99u8, 116u8, 105u8, 111u8, 110u8],  // function
        seq![103u8, 111u8, 116u8, 111u8],  // goto
        seq![105u8, 102u8],  // if
        seq![105u8, 110u8],  // in
        seq![108u8, 111u8, 99u8, 97u8, 108u8],  // local
        seq![110u8, 105u8, 108u8],  // nil
        seq![110u8, 111u8, 116u8],  // not
        seq![111u8, 114u8],  // or
        seq![114u8, 101u8, 112u8, 101u8, 97u8, 116u8],  // repeat
        seq![114u8, 101u8, 116u8, 117u8, 114u8, 110u8],  // return
        seq![116u8, 104u8, 101u8, 110u8],  // then
        seq![116u8, 114u8, 117u8, 101u8],  // true
        seq![117u8, 110u8, 116u8, 105u8, 108u8],  // until
        seq![119u8, 104u8, 105u8, 108u8, 101u8],  // while
    ]
}

/// True when `s` spells one of the reserved words.
pub open spec fn is_reserved_word(s: Seq<u8>) -> bool {
    reserved_words().contains(s)
}

/// First byte of an identifier: a Latin letter or an underscore.
pub open spec fn is_ident_start_byte(b: u8) -> bool {
    b == 95u8 || (65u8 <= b && b <= 90u8) || (97u8 <= b && b <= 122u8)
}

/// Later byte of an identifier: a Latin letter, a decimal digit or an
/// underscore.
pub open spec fn is_ident_byte(b: u8) -> bool {
    is_ident_start_byte(b) || (48u8 <= b && b <= 57u8)
}

/// The identifier rule: non-empty, starts with a letter or underscore,
/// continues with letters, digits or underscores, and is not a reserved
/// word.
pub open spec fn is_lua_identifier(s: Seq<u8>) -> bool {
    &&& s.len() > 0
    &&& is_ident_start_byte(s[0])
    &&& forall|i: int| 1 <= i < s.len() ==> is_ident_byte(#[trigger] s[i])
    &&& !is_reserved_word(s)
}

/// Byte-wise equality of two slices.
pub fn bytes_eq(a: &[u8], b: &[u8]) -> (r: bool)
    ensures
        r == (a@ == b@),
{
    if a.len() != b.len() {
        assert(a@.len() != b@.len());
        return false;
    }
    let n: usize = a.len();
    let mut i: usize = 0;
    while i < n
        invariant
            n == a@.len() == b@.len(),
            0 <= i <= n,
            forall|j: int| 0 <= j < i ==> a@[j] == b@[j],
        decreases n - i,
    {
        if a[i] != b[i] {
            return false;
        }
        i += 1;
    }
    proof {
        assert(a@ =~= b@);
    }
    true
}

/// The reserved words as byte vectors, in sorted order.
pub fn lua_keywords() -> (r: Vec<Vec<u8>>)
    ensures
        r@.len() == reserved_words().len(),
        forall|i: int| 0 <= i < r@.len() ==> r@[i]@ == reserved_words()[i],
{
    let v: Vec<Vec<u8>> = vec![
        vec![97u8, 110u8, 100u8],  // and
        vec![98u8, 114u8, 101u8, 97u8, 107u8],  // break
        vec![100u8, 111u8],  // do
        vec![101u8, 108u8, 115u8, 101u8],  // else
        vec![101u8, 108u8, 115u8, 101u8, 105u8, 102u8],  // elseif
        vec![101u8, 110u8, 100u8],  // end
        vec![102u8, 97u8, 108u8, 115u8, 101u8],  // false
        vec![102u8, 111u8, 114u8],  // for
        vec![102u8, 117u8, 110u8, 99u8, 116u8, 105u8, 111u8, 110u8],  // function
        vec![103u8, 111u8, 116u8, 111u8],  // goto
        vec![105u8, 102u8],  // if
        vec![105u8, 110u8],  // in
        vec![108u8, 111u8, 99u8, 97u8, 108u8],  // local
        vec![110u8, 105u8, 108u8],  // nil
        vec![110u8, 111u8, 116u8],  // not
        vec![111u8, 114u8],  // or
        vec![114u8, 101u8, 112u8, 101u8, 97u8, 116u8],  // repeat
        vec![114u8, 101u8, 116u8, 117u8, 114u8, 110u8],  // return
        vec![116u8, 104u8, 101u8, 110u8],  // then
        vec![116u8, 114u8, 117u8, 101u8],  // true
        vec![117u8, 110u8, 116u8, 105u8, 108u8],  // until
        vec![119u8, 104u8, 105u8, 108u8, 101u8],  // while
    ];
    proof {
        assert(v@[0]@ =~= reserved_words()[0]);
        assert(v@[1]@ =~= reserved_words()[1]);
        assert(v@[2]@ =~= reserved_words()[2]);
        assert(v@[3]@ =~= reserved_words()[3]);
        assert(v@[4]@ =~= reserved_words()[4]);
        assert(v@[5]@ =~= reserved_words()[5]);
        assert(v@[6]@ =~= reserved_words()[6]);
        assert(v@[7]@ =~= reserved_words()[7]);
        assert(v@[8]@ =~= reserved_words()[8]);
        assert(v@[9]@ =~= reserved_words()[9]);
        assert(v@[10]@ =~= reserved_words()[10]);
        assert(v@[11]@ =~= reserved_words()[11]);
        assert(v@[12]@ =~= reserved_words()[12]);
        assert(v@[13]@ =~= reserved_words()[13]);
        assert(v@[14]@ =~= reserved_words()[14]);
        assert(v@[15]@ =~= reserved_words()[15]);
        assert(v@[16]@ =~= reserved_words()[16]);
        assert(v@[17]@ =~= reserved_words()[17]);
        assert(v@[18]@ =~= reserved_words()[18]);
        assert(v@[19]@ =~= reserved_words()[19]);
        assert(v@[20]@ =~= reserved_words()[20]);
        assert(v@[21]@ =~= reserved_words()[21]);
    }
    v
}

/// True when `i` spells a reserved word.
pub fn is_reserved(i: &[u8]) -> (r: bool)
    ensures
        r == is_reserved_word(i@),
{
    let kw = lua_keywords();
    let n: usize = kw.len();
    let mut j: usize = 0;
    while j < n
        invariant
            n == kw@.len(),
            kw@.len() == reserved_words().len(),
            forall|k: int| 0 <= k < kw@.len() ==> kw@[k]@ == reserved_words()[k],
            0 <= j <= n,
            forall|k: int| 0 <= k < j ==> i@ != reserved_words()[k],
        decreases n - j,
    {
        if bytes_eq(i, kw[j].as_slice()) {
            assert(reserved_words()[j as int] == i@);
            return true;
        }
        j += 1;
    }
    assert(!reserved_words().contains(i@));
    false
}

/// Returns `true` if `i` is a valid Lua identifier: a string of Latin
/// letters, Arabic-Indic digits, and underscores, not beginning with a
/// digit and not being a reserved word.
pub fn valid_lua_identifier(i: &[u8]) -> (r: bool)
    ensures
        r == is_lua_identifier(i@),
{
    if i.len() == 0 {
        return false;
    }
    let first: u8 = i[0];
    if !(first == 95u8 || (65u8 <= first && first <= 90u8) || (97u8 <= first && first <= 122u8)) {
        return false;
    }
    let n: usize = i.len();
    let mut j: usize = 1;
    while j < n
        invariant
            n == i@.len(),
            1 <= j <= n,
            forall|k: int| 1 <= k < j ==> is_ident_byte(#[trigger] i@[k]),
        decreases n - j,
    {
        let c: u8 = i[j];
        if !(c == 95u8 || (65u8 <= c && c <= 90u8) || (97u8 <= c && c <= 122u8) || (48u8 <= c
            && c <= 57u8)) {
            return false;
        }
        j += 1;
    }
    !is_reserved(i)
}

/// The value of byte `c` as a digit in base `radix`, following
/// `char::to_digit`: `0-9`, then `a-z` or `A-Z` for 10 to 35.
pub open spec fn spec_digit_value(c: u8, radix: u32) -> Option<u32> {
    let v: u32 = if 48u8 <= c && c <= 57u8 {
        (c - 48u8) as u32
    } else if 97u8 <= c && c <= 122u8 {
        (c - 97u8 + 10) as u32
    } else if 65u8 <= c && c <= 90u8 {
        (c - 65u8 + 10) as u32
    } else {
        99
    };
    if v < radix {
        Some(v)
    } else {
        None
    }
}

/// Folds the digits of `digits` into an `i64`, most significant first,
/// multiplying by `radix` and adding (or, for a negative number,
/// subtracting) each digit, wrapping on overflow.
pub open spec fn spec_wrapping_fold(
    digits: Seq<u8>,
    radix: u32,
    is_positive: bool,
    acc: i64,
) -> Option<i64>
    decreases digits.len(),
{
    if digits.len() == 0 {
        Some(acc)
    } else {
        match spec_digit_value(digits[0], radix) {
            None => None,
            Some(x) => {
                let scaled = vstd::wrapping::i64_specs::wrapping_mul(acc, radix as i64);
                let next = if is_positive {
                    vstd::wrapping::i64_specs::wrapping_add(scaled, x as i64)
                } else {
                    vstd::wrapping::i64_specs::wrapping_sub(scaled, x as i64)
                };
                spec_wrapping_fold(digits.drop_first(), radix, is_positive, next)
            },
        }
    }
}

/// What `wrapping_parse_int` returns: the wrapping fold of all digits
/// starting from zero, or `None` on the first invalid digit.
pub open spec fn spec_wrapping_parse_int(digits: Seq<u8>, radix: u32, is_positive: bool) -> Option<
    i64,
> {
    spec_wrapping_fold(digits, radix, is_positive, 0)
}

/// Parses a `&[u8]` as a byte-string containing an integer expressed
/// using ASCII `0-9`, `A-Z` and `a-z`, wrapping on overflow or
/// underflow (like Lua).
///
/// Returns `None` if `digits` contains invalid characters.
pub fn wrapping_parse_int(digits: &[u8], radix: u32, is_positive: bool) -> (r: Option<i64>)
    requires
        2 <= radix <= 36,
    ensures
        r == spec_wrapping_parse_int(digits@, radix, is_positive),
{
    let n: usize = digits.len();
    let mut result: i64 = 0;
    let mut i: usize = 0;
    proof {
        assert(digits@.skip(0) =~= digits@);
    }
    while i < n
        invariant
            2 <= radix <= 36,
            n == digits@.len(),
            0 <= i <= n,
            spec_wrapping_fold(digits@.skip(i as int), radix, is_positive, result)
                == spec_wrapping_parse_int(digits@, radix, is_positive),
        decreases n - i,
    {
        let c: u8 = digits[i];
        let x: u32 = if 48u8 <= c && c <= 57u8 {
            (c - 48u8) as u32
        } else if 97u8 <= c && c <= 122u8 {
            (c - 97u8) as u32 + 10
        } else if 65u8 <= c && c <= 90u8 {
            (c - 65u8) as u32 + 10
        } else {
            99
        };
        if x >= radix {
            assert(spec_digit_value(digits@.skip(i as int)[0], radix) is None);
            return None;
        }
        assert(spec_digit_value(digits@.skip(i as int)[0], radix) == Some(x));
        let scaled: i64 = result.wrapping_mul(radix as i64);
        let next: i64 = if is_positive {
            scaled.wrapping_add(x as i64)
        } else {
            scaled.wrapping_sub(x as i64)
        };
        proof {
            assert(digits@.skip(i as int).drop_first() =~= digits@.skip(i as int + 1));
        }
        result = next;
        i += 1;
    }
    proof {
        assert(digits@.skip(n as int).len() == 0);
    }
    Some(result)
}

} // verus!
